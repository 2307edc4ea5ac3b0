use vstd::prelude::*;
use crate::ids::{StableId, StableIdView};
use crate::type_signature::{FieldSignature, GenericSignature, TypeSignature, VariantSignature};

verus! {

/// The reflected shape of a type: what its signature records besides its
/// identifier, generics and layout.
#[derive(Clone, Debug)]
pub enum TypeShape {
    Struct { fields: Vec<FieldSignature> },
    TupleStruct { fields: Vec<StableId> },
    Tuple { fields: Vec<StableId> },
    List { item_ty: StableId },
    Array { item_ty: StableId, capacity: usize },
    MapType { key_ty: StableId, value_ty: StableId },
    SetType { value_ty: StableId },
    Enum { variants: Vec<VariantSignature> },
    Opaque,
}

/// What reflection tells of a type: its identifier, generics and shape, and
/// the reflected types of its fields (of all variants, for an enum) in
/// field order, where reflection describes them.
#[derive(Debug)]
pub struct TypeInfo {
    pub ty: StableId,
    pub generics: Vec<GenericSignature>,
    pub shape: TypeShape,
    pub field_types: Vec<TypeInfo>,
}

/// The signature of a reflected type with the given layout. Container kinds
/// carry no layout.
pub open spec fn signature_of(info: TypeInfo, size: Option<usize>, align: Option<usize>) -> TypeSignature {
    signature_from(info.ty, info.generics, info.shape, size, align)
}

/// The signature made of an identifier, generics, shape and layout.
pub open spec fn signature_from(
    ty: StableId,
    generics: Vec<GenericSignature>,
    shape: TypeShape,
    size: Option<usize>,
    align: Option<usize>,
) -> TypeSignature {
    match shape {
        TypeShape::Struct { fields } => TypeSignature::Struct { ty, size, align, generics, fields },
        TypeShape::TupleStruct { fields } => TypeSignature::TupleStruct { ty, size, align, generics, fields },
        TypeShape::Tuple { fields } => TypeSignature::Tuple { ty, size, align, generics, fields },
        TypeShape::List { item_ty } => TypeSignature::List { ty, generics, item_ty },
        TypeShape::Array { item_ty, capacity } => TypeSignature::Array { ty, generics, item_ty, capacity },
        TypeShape::MapType { key_ty, value_ty } => TypeSignature::MapType { ty, generics, key_ty, value_ty },
        TypeShape::SetType { value_ty } => TypeSignature::SetType { ty, generics, value_ty },
        TypeShape::Enum { variants } => TypeSignature::Enum { ty, size, align, generics, variants },
        TypeShape::Opaque => TypeSignature::Opaque { ty, size, align, generics },
    }
}

/// Whether the shape is a container (list, array, map or set), a kind that
/// never carries a layout.
pub open spec fn is_container(shape: TypeShape) -> bool {
    shape is List || shape is Array || shape is MapType || shape is SetType
}

/// The position of the signature with the identifier, if any.
pub open spec fn find_id(entries: Seq<TypeSignature>, id: StableIdView) -> Option<int> {
    if exists|i: int| 0 <= i < entries.len() && (#[trigger] entries[i]).spec_id()@ == id {
        Some(choose|i: int| 0 <= i < entries.len() && (#[trigger] entries[i]).spec_id()@ == id)
    } else {
        None
    }
}

/// Whether a type must be (re)registered: it is new, or it now comes with a
/// known layout other than the recorded one.
pub open spec fn needs_update(
    entries: Seq<TypeSignature>,
    id: StableIdView,
    size: Option<usize>,
    align: Option<usize>,
) -> bool {
    match find_id(entries, id) {
        None => true,
        Some(i) => size is Some && align is Some && (entries[i].spec_size() != size || entries[i].spec_align()
            != align),
    }
}

/// Puts the signature in place of the one with the same identifier, or
/// appends it.
pub open spec fn upsert(entries: Seq<TypeSignature>, sig: TypeSignature) -> Seq<TypeSignature> {
    match find_id(entries, sig.spec_id()@) {
        Some(i) => entries.update(i, sig),
        None => entries.push(sig),
    }
}

/// The signatures after registering a type with the given layout: where the
/// type is new or its layout changed, its field types are registered first,
/// without layout, and then its own signature is put in place.
pub open spec fn registered(
    entries: Seq<TypeSignature>,
    info: TypeInfo,
    size: Option<usize>,
    align: Option<usize>,
) -> Seq<TypeSignature>
    decreases info, 1int, 0int,
{
    if needs_update(entries, info.ty@, size, align) {
        upsert(registered_fields(entries, info, 0), signature_of(info, size, align))
    } else {
        entries
    }
}

/// The signatures after registering the field types of `info` from position `j` on.
pub open spec fn registered_fields(entries: Seq<TypeSignature>, info: TypeInfo, j: int) -> Seq<
    TypeSignature,
>
    decreases info, 0int, info.field_types@.len() - j,
{
    if 0 <= j < info.field_types@.len() {
        registered_fields(registered(entries, info.field_types@[j], None, None), info, j + 1)
    } else {
        entries
    }
}

/// The signatures of a mod's types, one per identifier, in order of first registration.
pub struct TypeSignatures {
    pub entries: Vec<TypeSignature>,
}

/// No two signatures share an identifier.
pub open spec fn ids_unique(entries: Seq<TypeSignature>) -> bool {
    forall|i: int, j: int|
        0 <= i < j < entries.len() ==> (#[trigger] entries[i]).spec_id()@ != (#[trigger] entries[j]).spec_id()@
}

impl TypeSignatures {
    pub fn new() -> (r: TypeSignatures)
        ensures
            r.entries@.len() == 0,
    {
        TypeSignatures { entries: Vec::new() }
    }

    fn find(&self, id: &StableId) -> (r: Option<usize>)
        requires
            ids_unique(self.entries@),
        ensures
            r is Some <==> find_id(self.entries@, id@) is Some,
            r is Some ==> r->0 as int == find_id(self.entries@, id@)->0 && r->0 < self.entries@.len(),
    {
        let mut i: usize = 0;
        while i < self.entries.len()
            invariant
                0 <= i <= self.entries@.len(),
                ids_unique(self.entries@),
                forall|j: int| 0 <= j < i ==> (#[trigger] self.entries@[j]).spec_id()@ != id@,
            decreases self.entries@.len() - i,
        {
            let sid = self.entries[i].stable_id();
            if sid.same_as(id) {
                proof {
                    let k = find_id(self.entries@, id@)->0;
                    if k != i as int {
                        if k < i {
                            assert(self.entries@[k].spec_id()@ != id@);
                        } else {
                            assert(self.entries@[i as int].spec_id()@ != self.entries@[k].spec_id()@);
                        }
                    }
                }
                return Some(i);
            }
            i += 1;
        }
        None
    }

    fn upsert(&mut self, sig: TypeSignature)
        requires
            ids_unique(old(self).entries@),
        ensures
            ids_unique(final(self).entries@),
            final(self).entries@ == upsert(old(self).entries@, sig),
    {
        let id = sig.stable_id();
        match self.find(&id) {
            Some(i) => {
                self.entries.set(i, sig);
                proof {
                    assert forall|a: int, b: int| 0 <= a < b < self.entries@.len() implies (
                    #[trigger] self.entries@[a]).spec_id()@ != (#[trigger] self.entries@[b]).spec_id()@ by {
                        assert(old(self).entries@[a].spec_id()@ != old(self).entries@[b].spec_id()@);
                    }
                }
            },
            None => {
                self.entries.push(sig);
                proof {
                    assert forall|a: int, b: int| 0 <= a < b < self.entries@.len() implies (
                    #[trigger] self.entries@[a]).spec_id()@ != (#[trigger] self.entries@[b]).spec_id()@ by {
                        if b == old(self).entries@.len() {
                            assert(old(self).entries@[a].spec_id()@ != id@);
                        } else {
                            assert(old(self).entries@[a].spec_id()@ != old(self).entries@[b].spec_id()@);
                        }
                    }
                }
            },
        }
    }

    /// Registers a declared type with its layout.
    pub fn register_type(&mut self, ty: SchemaType)
        requires
            ids_unique(old(self).entries@),
            !is_container(ty.info.shape),
        ensures
            ids_unique(final(self).entries@),
            final(self).entries@ == registered(old(self).entries@, ty.info, Some(ty.size), Some(ty.align)),
    {
        self.register_raw(ty.info, Some(ty.size), Some(ty.align));
    }

    /// Registers a reflected type. A type that is new, or that comes with a
    /// known layout other than the recorded one, has its field types
    /// registered without layout and then its own signature put in place.
    pub fn register_raw(&mut self, info: TypeInfo, size: Option<usize>, align: Option<usize>)
        requires
            ids_unique(old(self).entries@),
            is_container(info.shape) ==> size is None && align is None,
        ensures
            ids_unique(final(self).entries@),
            final(self).entries@ == registered(old(self).entries@, info, size, align),
    {
        let ghost whole = info;
        self.register_walk(info, size, align, Ghost(whole));
    }

    fn register_walk(&mut self, info: TypeInfo, size: Option<usize>, align: Option<usize>, whole: Ghost<TypeInfo>)
        requires
            ids_unique(old(self).entries@),
            info == whole@,
            is_container(info.shape) ==> size is None && align is None,
        ensures
            ids_unique(final(self).entries@),
            final(self).entries@ == registered(old(self).entries@, whole@, size, align),
        decreases whole@,
    {
        let ghost start = self.entries@;
        let update = match self.find(&info.ty) {
            None => true,
            Some(i) => {
                let s = self.entries[i].size();
                let a = self.entries[i].align();
                size.is_some() && align.is_some() && !(opt_eq(s, size) && opt_eq(a, align))
            },
        };
        if !update {
            return;
        }
        let ghost w = whole@;
        let TypeInfo { ty, generics, shape, field_types } = info;
        let mut children = field_types;
        let mut j: usize = 0;
        let n: usize = children.len();
        while children.len() > 0
            invariant
                ids_unique(self.entries@),
                j + children@.len() == n,
                n == w.field_types@.len(),
                w == whole@,
                n <= usize::MAX,
                children@ == w.field_types@.subrange(j as int, n as int),
                registered_fields(start, w, 0) == registered_fields(self.entries@, w, j as int),
            decreases children@.len(),
        {
            let child = children.remove(0);
            proof {
                assert(child == w.field_types@[j as int]);
                assert(decreases_to!(w => w.field_types));
                assert(decreases_to!(w.field_types => w.field_types@));
                assert(decreases_to!(w.field_types@ => w.field_types@[j as int]));
                assert(decreases_to!(w => child));
            }
            self.register_walk(child, None, None, Ghost(child));
            j += 1;
            proof {
                assert(children@ =~= w.field_types@.subrange(j as int, n as int));
            }
        }
        let sig = build_signature(ty, generics, shape, size, align);
        proof {
            assert(sig == signature_of(w, size, align));
        }
        self.upsert(sig);
    }

    pub fn into_vec(self) -> (r: Vec<TypeSignature>)
        ensures
            r@ == self.entries@,
    {
        self.entries
    }
}

fn opt_eq(a: Option<usize>, b: Option<usize>) -> (r: bool)
    ensures
        r == (a == b),
{
    match (a, b) {
        (Some(x), Some(y)) => x == y,
        (None, None) => true,
        _ => false,
    }
}

fn build_signature(
    ty: StableId,
    generics: Vec<GenericSignature>,
    shape: TypeShape,
    size: Option<usize>,
    align: Option<usize>,
) -> (r: TypeSignature)
    ensures
        r == signature_from(ty, generics, shape, size, align),
{
    match shape {
        TypeShape::Struct { fields } => TypeSignature::Struct { ty, size, align, generics, fields },
        TypeShape::TupleStruct { fields } => TypeSignature::TupleStruct { ty, size, align, generics, fields },
        TypeShape::Tuple { fields } => TypeSignature::Tuple { ty, size, align, generics, fields },
        TypeShape::List { item_ty } => TypeSignature::List { ty, generics, item_ty },
        TypeShape::Array { item_ty, capacity } => TypeSignature::Array { ty, generics, item_ty, capacity },
        TypeShape::MapType { key_ty, value_ty } => TypeSignature::MapType { ty, generics, key_ty, value_ty },
        TypeShape::SetType { value_ty } => TypeSignature::SetType { ty, generics, value_ty },
        TypeShape::Enum { variants } => TypeSignature::Enum { ty, size, align, generics, variants },
        TypeShape::Opaque => TypeSignature::Opaque { ty, size, align, generics },
    }
}

/// A declared type with the layout the compiler gave it.
#[derive(Debug)]
pub struct SchemaType {
    pub info: TypeInfo,
    pub size: usize,
    pub align: usize,
}

} // verus!
