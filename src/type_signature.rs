use vstd::prelude::*;
use crate::ids::StableId;

verus! {

/// A serializable description of a reflected type.
#[derive(Clone, Debug, PartialEq)]
pub enum TypeSignature {
    Struct {
        ty: StableId,
        size: Option<usize>,
        align: Option<usize>,
        generics: Vec<GenericSignature>,
        fields: Vec<FieldSignature>,
    },
    TupleStruct {
        ty: StableId,
        size: Option<usize>,
        align: Option<usize>,
        generics: Vec<GenericSignature>,
        fields: Vec<StableId>,
    },
    Tuple {
        ty: StableId,
        size: Option<usize>,
        align: Option<usize>,
        generics: Vec<GenericSignature>,
        fields: Vec<StableId>,
    },
    List { ty: StableId, generics: Vec<GenericSignature>, item_ty: StableId },
    Array { ty: StableId, generics: Vec<GenericSignature>, item_ty: StableId, capacity: usize },
    MapType { ty: StableId, generics: Vec<GenericSignature>, key_ty: StableId, value_ty: StableId },
    SetType { ty: StableId, generics: Vec<GenericSignature>, value_ty: StableId },
    Enum {
        ty: StableId,
        size: Option<usize>,
        align: Option<usize>,
        generics: Vec<GenericSignature>,
        variants: Vec<VariantSignature>,
    },
    Opaque {
        ty: StableId,
        size: Option<usize>,
        align: Option<usize>,
        generics: Vec<GenericSignature>,
    },
}

/// A generic parameter of a type.
#[derive(Clone, Debug, PartialEq)]
pub enum GenericSignature {
    Type(StableId),
    Const(StableId),
}

/// A named field.
#[derive(Clone, Debug, PartialEq)]
pub struct FieldSignature {
    pub name: String,
    pub ty: StableId,
}

/// A variant of an enum.
#[derive(Clone, Debug, PartialEq)]
pub enum VariantSignature {
    Struct { name: String, fields: Vec<FieldSignature> },
    Tuple { name: String, fields: Vec<StableId> },
    Unit { name: String },
}

impl TypeSignature {
    /// The identifier of the described type.
    pub open spec fn spec_id(&self) -> StableId {
        match self {
            TypeSignature::Struct { ty, .. } => *ty,
            TypeSignature::TupleStruct { ty, .. } => *ty,
            TypeSignature::Tuple { ty, .. } => *ty,
            TypeSignature::List { ty, .. } => *ty,
            TypeSignature::Array { ty, .. } => *ty,
            TypeSignature::MapType { ty, .. } => *ty,
            TypeSignature::SetType { ty, .. } => *ty,
            TypeSignature::Enum { ty, .. } => *ty,
            TypeSignature::Opaque { ty, .. } => *ty,
        }
    }

    /// The size in bytes, for kinds with a fixed layout that record one.
    pub open spec fn spec_size(&self) -> Option<usize> {
        match self {
            TypeSignature::Struct { size, .. } => *size,
            TypeSignature::TupleStruct { size, .. } => *size,
            TypeSignature::Tuple { size, .. } => *size,
            TypeSignature::Enum { size, .. } => *size,
            TypeSignature::Opaque { size, .. } => *size,
            _ => None,
        }
    }

    /// The alignment in bytes, for kinds with a fixed layout that record one.
    pub open spec fn spec_align(&self) -> Option<usize> {
        match self {
            TypeSignature::Struct { align, .. } => *align,
            TypeSignature::TupleStruct { align, .. } => *align,
            TypeSignature::Tuple { align, .. } => *align,
            TypeSignature::Enum { align, .. } => *align,
            TypeSignature::Opaque { align, .. } => *align,
            _ => None,
        }
    }

    pub fn stable_id(&self) -> (r: StableId)
        ensures
            r@ == self.spec_id()@,
    {
        match self {
            TypeSignature::Struct { ty, .. } => ty.duplicate(),
            TypeSignature::TupleStruct { ty, .. } => ty.duplicate(),
            TypeSignature::Tuple { ty, .. } => ty.duplicate(),
            TypeSignature::List { ty, .. } => ty.duplicate(),
            TypeSignature::Array { ty, .. } => ty.duplicate(),
            TypeSignature::MapType { ty, .. } => ty.duplicate(),
            TypeSignature::SetType { ty, .. } => ty.duplicate(),
            TypeSignature::Enum { ty, .. } => ty.duplicate(),
            TypeSignature::Opaque { ty, .. } => ty.duplicate(),
        }
    }

    pub fn size(&self) -> (r: Option<usize>)
        ensures
            r == self.spec_size(),
    {
        match self {
            TypeSignature::Struct { size, .. } => *size,
            TypeSignature::TupleStruct { size, .. } => *size,
            TypeSignature::Tuple { size, .. } => *size,
            TypeSignature::Enum { size, .. } => *size,
            TypeSignature::Opaque { size, .. } => *size,
            _ => None,
        }
    }

    pub fn align(&self) -> (r: Option<usize>)
        ensures
            r == self.spec_align(),
    {
        match self {
            TypeSignature::Struct { align, .. } => *align,
            TypeSignature::TupleStruct { align, .. } => *align,
            TypeSignature::Tuple { align, .. } => *align,
            TypeSignature::Enum { align, .. } => *align,
            TypeSignature::Opaque { align, .. } => *align,
            _ => None,
        }
    }
}

} // verus!
