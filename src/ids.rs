use vstd::prelude::*;
use core::hash::{Hash, Hasher};

verus! {

/// The identity of a reflected type across builds: crate name and short type name.
#[derive(Clone, Debug, Hash)]
pub struct StableId {
    pub crate_name: String,
    pub name: String,
}

/// What a `StableId` stands for: its two names as character sequences.
pub struct StableIdView {
    pub crate_name: Seq<char>,
    pub name: Seq<char>,
}

impl View for StableId {
    type V = StableIdView;

    open spec fn view(&self) -> StableIdView {
        StableIdView { crate_name: self.crate_name@, name: self.name@ }
    }
}

impl PartialEq for StableId {
    fn eq(&self, other: &StableId) -> (r: bool) {
        self.crate_name == other.crate_name && self.name == other.name
    }
}

impl Eq for StableId {}

impl vstd::std_specs::cmp::PartialEqSpecImpl for StableId {
    open spec fn obeys_eq_spec() -> bool {
        true
    }

    open spec fn eq_spec(&self, other: &StableId) -> bool {
        self@ == other@
    }
}

impl StableId {
    pub fn new(crate_name: &str, name: &str) -> (r: StableId)
        ensures
            r@.crate_name == crate_name@,
            r@.name == name@,
    {
        StableId { crate_name: crate_name.to_owned(), name: name.to_owned() }
    }

    /// A copy with the same names.
    pub fn duplicate(&self) -> (r: StableId)
        ensures
            r == *self,
    {
        StableId { crate_name: self.crate_name.clone(), name: self.name.clone() }
    }

    /// Compares the two names of both identifiers.
    pub fn same_as(&self, other: &StableId) -> (r: bool)
        ensures
            r == (self@ == other@),
    {
        let a = self.crate_name == other.crate_name;
        let b = self.name == other.name;
        proof {
            if a && b {
                assert(self@ == other@);
            }
        }
        a && b
    }
}

/// The identity of a system function: a deterministic 64-bit hash.
#[derive(Clone, Copy, Debug, PartialEq, Eq, Structural, Hash, PartialOrd, Ord)]
pub struct SystemId(pub u64);

/// The compiler's identifier of a type.
#[verifier::external_type_specification]
#[verifier::external_body]
pub struct ExTypeId(core::any::TypeId);

pub assume_specification<T: ?Sized + 'static>[ core::any::TypeId::of::<T> ]() -> core::any::TypeId;

/// Relies on `core::hash::SipHasher` (with its fixed zero keys) and the `Hash`
/// impl of `TypeId`: a 64-bit hash that depends on the type id alone within
/// one build.
#[verifier::external_body]
fn hash_type_id(id: &core::any::TypeId) -> u64 {
    #[allow(deprecated)]
    let mut hasher = core::hash::SipHasher::new();
    id.hash(&mut hasher);
    hasher.finish()
}

impl SystemId {
    /// The id of the system implemented by type `T`.
    pub fn of<T: ?Sized + 'static>() -> SystemId {
        SystemId::from_type(core::any::TypeId::of::<T>())
    }

    /// The id derived from a type id by a fixed non-cryptographic hash.
    pub fn from_type(id: core::any::TypeId) -> SystemId {
        SystemId(hash_type_id(&id))
    }
}

/// A parameter that a system asks the host for.
#[derive(Clone, Debug, PartialEq)]
pub enum Param {
    Command,
    Res { mutable: bool, id: StableId },
}

impl Param {
    /// A copy of the parameter.
    pub fn duplicate(&self) -> (r: Param)
        ensures
            r == *self,
    {
        match self {
            Param::Command => Param::Command,
            Param::Res { mutable, id } => Param::Res { mutable: *mutable, id: id.duplicate() },
        }
    }
}

/// Copies a list of parameters, element by element.
pub fn duplicate_params(params: &Vec<Param>) -> (r: Vec<Param>)
    ensures
        r@ == params@,
{
    let mut out: Vec<Param> = Vec::new();
    let mut i: usize = 0;
    while i < params.len()
        invariant
            0 <= i <= params@.len(),
            out@ == params@.subrange(0, i as int),
        decreases params@.len() - i,
    {
        out.push(params[i].duplicate());
        i += 1;
        assert(out@ =~= params@.subrange(0, i as int));
    }
    assert(params@.subrange(0, i as int) =~= params@);
    out
}

/// The first 16 bytes of a SHA-256 digest.
#[derive(Clone, Copy, Debug, PartialEq, Eq, Hash)]
pub struct FileHash(pub [u8; 16]);

impl FileHash {
    /// The hash of nothing yet: sixteen zero bytes.
    pub fn empty() -> (r: FileHash)
        ensures
            r.0@ == Seq::new(16, |i: int| 0u8),
    {
        let r = FileHash([0u8; 16]);
        assert(r.0@ =~= Seq::new(16, |i: int| 0u8));
        r
    }

    /// Keeps the first 16 bytes of a 32-byte digest.
    pub fn from_sha256(bytes: [u8; 32]) -> (r: FileHash)
        ensures
            r.0@ == bytes@.subrange(0, 16),
    {
        let mut hash = [0u8; 16];
        let mut i: usize = 0;
        while i < 16
            invariant
                0 <= i <= 16,
                forall|j: int| 0 <= j < i ==> hash@[j] == bytes@[j],
            decreases 16 - i,
        {
            hash.set(i, bytes[i]);
            i += 1;
        }
        assert(hash@ =~= bytes@.subrange(0, 16));
        FileHash(hash)
    }

    /// Compares all sixteen bytes.
    pub fn same_as(&self, other: &FileHash) -> (r: bool)
        ensures
            r == (self.0@ == other.0@),
    {
        let mut i: usize = 0;
        while i < 16
            invariant
                0 <= i <= 16,
                forall|j: int| 0 <= j < i ==> self.0@[j] == other.0@[j],
            decreases 16 - i,
        {
            if self.0[i] != other.0[i] {
                return false;
            }
            i += 1;
        }
        assert(self.0@ =~= other.0@);
        true
    }
}

} // verus!
