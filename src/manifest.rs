use vstd::prelude::*;
use crate::ids::{FileHash, StableId, SystemId};
use crate::schedule::{ScheduleDescriptor, System};
use crate::type_signature::TypeSignature;
use sha2::Digest;

verus! {

/// A named group of resources and schedules within a mod.
#[derive(Clone, Debug, PartialEq)]
pub struct FeatureDescriptor {
    pub name: String,
    /// Each resource's identifier and its default value as encoded bytes.
    pub resources: Vec<(StableId, Vec<u8>)>,
    pub schedules: Vec<ScheduleDescriptor>,
}

/// The description of a mod: the hash of its final wasm, its types and its features.
#[derive(Clone, Debug, PartialEq)]
pub struct ModManifest {
    pub wasm_hash: FileHash,
    pub types: Vec<TypeSignature>,
    pub features: Vec<FeatureDescriptor>,
}

/// The SHA-256 digest of a byte sequence.
pub uninterp spec fn sha256_of(bytes: Seq<u8>) -> Seq<u8>;

/// The first 16 bytes of the SHA-256 digest: what a `FileHash` holds.
pub open spec fn truncated_sha256(bytes: Seq<u8>) -> Seq<u8> {
    sha256_of(bytes).subrange(0, 16)
}

/// Relies on `sha2::Sha256::digest`: the SHA-256 digest of the bytes.
#[verifier::external_body]
pub(crate) fn sha256(bytes: &[u8]) -> (r: [u8; 32])
    ensures
        r@ == sha256_of(bytes@),
{
    sha2::Sha256::digest(bytes).into()
}

impl FileHash {
    /// The truncated SHA-256 of the bytes.
    pub fn of_bytes(bytes: &[u8]) -> (r: FileHash)
        ensures
            r.0@ == truncated_sha256(bytes@),
    {
        FileHash::from_sha256(sha256(bytes))
    }
}

/// The systems of all schedules of all features, in order, repeats included.
pub open spec fn declared_systems(features: Seq<FeatureDescriptor>) -> Seq<System>
    decreases features.len(),
{
    if features.len() == 0 {
        Seq::empty()
    } else {
        declared_systems(features.drop_last()) + feature_systems(features.last().schedules@)
    }
}

/// The systems of a sequence of schedules, in order.
pub open spec fn feature_systems(schedules: Seq<ScheduleDescriptor>) -> Seq<System>
    decreases schedules.len(),
{
    if schedules.len() == 0 {
        Seq::empty()
    } else {
        feature_systems(schedules.drop_last()) + schedules.last().schedule.systems@
    }
}

/// Whether some system of the sequence has the id.
pub open spec fn has_id(s: Seq<System>, x: SystemId) -> bool {
    exists|j: int| 0 <= j < s.len() && s[j].id == x
}

/// The first system of each id, in order of first appearance.
pub open spec fn first_of_each_id(s: Seq<System>) -> Seq<System>
    decreases s.len(),
{
    if s.len() == 0 {
        Seq::empty()
    } else if has_id(s.drop_last(), s.last().id) {
        first_of_each_id(s.drop_last())
    } else {
        first_of_each_id(s.drop_last()).push(s.last())
    }
}

proof fn lemma_first_of_each_id_ids(s: Seq<System>)
    ensures
        forall|x: SystemId| #[trigger] has_id(s, x) == has_id(first_of_each_id(s), x),
    decreases s.len(),
{
    if s.len() > 0 {
        lemma_first_of_each_id_ids(s.drop_last());
        let d = first_of_each_id(s.drop_last());
        let f = first_of_each_id(s);
        assert forall|x: SystemId| #[trigger] has_id(s, x) == has_id(f, x) by {
            if has_id(s, x) {
                let j = choose|j: int| 0 <= j < s.len() && s[j].id == x;
                if j < s.len() - 1 {
                    assert(s.drop_last()[j].id == x);
                    assert(has_id(s.drop_last(), x));
                    assert(has_id(d, x));
                    let k = choose|k: int| 0 <= k < d.len() && d[k].id == x;
                    assert(f[k] == d[k]);
                } else if has_id(s.drop_last(), s.last().id) {
                    assert(has_id(s.drop_last(), x));
                    assert(has_id(d, x));
                    let k = choose|k: int| 0 <= k < d.len() && d[k].id == x;
                    assert(f[k] == d[k]);
                } else {
                    assert(f[d.len() as int].id == x);
                }
            }
            if has_id(f, x) {
                let k = choose|k: int| 0 <= k < f.len() && f[k].id == x;
                if k < d.len() {
                    assert(f[k] == d[k]);
                    assert(has_id(d, x));
                    assert(has_id(s.drop_last(), x));
                    let j = choose|j: int| 0 <= j < s.len() - 1 && s.drop_last()[j].id == x;
                    assert(s[j].id == x);
                } else {
                    assert(s[s.len() - 1].id == x);
                }
            }
        }
    }
}

impl ModManifest {
    /// All systems of the manifest, one per id, in a deterministic order: that
    /// of the features, then of their schedules, then of the schedules' systems.
    pub fn systems(&self) -> (r: Vec<&System>)
        ensures
            r@.len() == first_of_each_id(declared_systems(self.features@)).len(),
            forall|k: int|
                0 <= k < r@.len() ==> *r@[k] == first_of_each_id(declared_systems(self.features@))[k],
    {
        let mut systems: Vec<&System> = Vec::new();
        let mut fi: usize = 0;
        while fi < self.features.len()
            invariant
                0 <= fi <= self.features@.len(),
                systems@.len() == first_of_each_id(declared_systems(self.features@.subrange(0, fi as int))).len(),
                forall|k: int|
                    0 <= k < systems@.len() ==> *systems@[k] == first_of_each_id(
                        declared_systems(self.features@.subrange(0, fi as int)),
                    )[k],
            decreases self.features@.len() - fi,
        {
            let feature = &self.features[fi];
            let ghost before = declared_systems(self.features@.subrange(0, fi as int));
            let mut si: usize = 0;
            while si < feature.schedules.len()
                invariant
                    0 <= si <= feature.schedules@.len(),
                    systems@.len() == first_of_each_id(before + feature_systems(feature.schedules@.subrange(0, si as int))).len(),
                    forall|k: int|
                        0 <= k < systems@.len() ==> *systems@[k] == first_of_each_id(
                            before + feature_systems(feature.schedules@.subrange(0, si as int)),
                        )[k],
                decreases feature.schedules@.len() - si,
            {
                let list = &feature.schedules[si].schedule.systems;
                let ghost done = before + feature_systems(feature.schedules@.subrange(0, si as int));
                let mut k: usize = 0;
                while k < list.len()
                    invariant
                        0 <= k <= list@.len(),
                        systems@.len() == first_of_each_id(done + list@.subrange(0, k as int)).len(),
                        forall|m: int|
                            0 <= m < systems@.len() ==> *systems@[m] == first_of_each_id(
                                done + list@.subrange(0, k as int),
                            )[m],
                    decreases list@.len() - k,
                {
                    let system = &list[k];
                    let ghost prev = done + list@.subrange(0, k as int);
                    let ghost next = done + list@.subrange(0, k as int + 1);
                    proof {
                        assert(next.drop_last() =~= prev);
                        assert(next.last() == *system);
                        lemma_first_of_each_id_ids(prev);
                    }
                    let mut seen = false;
                    let mut j: usize = 0;
                    while j < systems.len()
                        invariant
                            0 <= j <= systems@.len(),
                            seen == exists|m: int| 0 <= m < j && systems@[m].id == system.id,
                        decreases systems@.len() - j,
                    {
                        if systems[j].id == system.id {
                            seen = true;
                        }
                        j += 1;
                    }
                    proof {
                        if seen {
                            let m = choose|m: int| 0 <= m < systems@.len() && systems@[m].id == system.id;
                            assert(first_of_each_id(prev)[m].id == system.id);
                            assert(has_id(first_of_each_id(prev), system.id));
                            assert(has_id(prev, system.id));
                        } else {
                            if has_id(prev, system.id) {
                                assert(has_id(first_of_each_id(prev), system.id));
                                let m = choose|m: int| 0 <= m < first_of_each_id(prev).len()
                                    && first_of_each_id(prev)[m].id == system.id;
                                assert(systems@[m].id == system.id);
                            }
                        }
                    }
                    if !seen {
                        systems.push(system);
                    }
                    k += 1;
                }
                proof {
                    let s2 = feature.schedules@.subrange(0, si as int + 1);
                    assert(s2.drop_last() =~= feature.schedules@.subrange(0, si as int));
                    assert(list@.subrange(0, k as int) =~= list@);
                    assert(before + feature_systems(s2) =~= done + list@);
                }
                si += 1;
            }
            proof {
                let f2 = self.features@.subrange(0, fi as int + 1);
                assert(f2.drop_last() =~= self.features@.subrange(0, fi as int));
                assert(feature.schedules@.subrange(0, si as int) =~= feature.schedules@);
            }
            fi += 1;
        }
        assert(self.features@.subrange(0, fi as int) =~= self.features@);
        systems
    }

    /// Records the truncated SHA-256 of the final wasm as the manifest's hash.
    pub fn stamp_wasm_hash(&mut self, wasm: &[u8])
        ensures
            final(self).wasm_hash.0@ == truncated_sha256(wasm@),
            final(self).types == old(self).types,
            final(self).features == old(self).features,
    {
        self.wasm_hash = FileHash::of_bytes(wasm);
    }

    /// Whether the manifest's hash is the truncated SHA-256 of the given wasm.
    pub fn matches_wasm(&self, wasm: &[u8]) -> (r: bool)
        ensures
            r == (self.wasm_hash.0@ == truncated_sha256(wasm@)),
    {
        let h = FileHash::of_bytes(wasm);
        self.wasm_hash.same_as(&h)
    }
}

/// Every emitted artifact's manifest carries, as its wasm hash, the first 16
/// bytes of the SHA-256 of the final wasm: stamping gives exactly that value.
pub proof fn lemma_stamped_hash_matches(stamped: FileHash, wasm: Seq<u8>)
    requires
        stamped.0@ == truncated_sha256(wasm),
    ensures
        stamped.0@ == sha256_of(wasm).subrange(0, 16),
{
}

} // verus!
