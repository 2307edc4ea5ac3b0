use vstd::prelude::*;
use crate::ids::{FileHash, StableId, StableIdView};
use crate::loader::{
    descriptors_load, group_of, has_label, is_loaded, is_schedule_label, loaded_from, LoadedSchedules,
};
use crate::manifest::{truncated_sha256, FeatureDescriptor, ModManifest};
use crate::schema::{dedup_resources, deduped_resources, resource_views};
use crate::sets::SchedulingError;

verus! {

/// Why a mod could not be loaded.
#[derive(Clone, Debug)]
pub enum LoadError {
    /// The manifest's hash is not that of the wasm beside it.
    HashMismatch,
    /// A schedule of a feature could not be loaded.
    Scheduling(SchedulingError),
}

/// A feature ready for the host: its resources, one default per type, and
/// its loaded schedules.
#[derive(Clone, Debug)]
pub struct LoadedFeature {
    pub name: String,
    pub resources: Vec<(StableId, Vec<u8>)>,
    pub schedules: LoadedSchedules,
}

fn copy_bytes(v: &Vec<u8>) -> (r: Vec<u8>)
    ensures
        r@ == v@,
{
    let mut out: Vec<u8> = Vec::new();
    let mut i: usize = 0;
    while i < v.len()
        invariant
            0 <= i <= v@.len(),
            out@ == v@.subrange(0, i as int),
        decreases v@.len() - i,
    {
        out.push(v[i]);
        i += 1;
        assert(out@ =~= v@.subrange(0, i as int));
    }
    assert(v@.subrange(0, i as int) =~= v@);
    out
}

fn copy_resources(rs: &Vec<(StableId, Vec<u8>)>) -> (r: Vec<(StableId, Vec<u8>)>)
    ensures
        resource_views(r@) == resource_views(rs@),
{
    let mut out: Vec<(StableId, Vec<u8>)> = Vec::new();
    let mut i: usize = 0;
    while i < rs.len()
        invariant
            0 <= i <= rs@.len(),
            out@.len() == i,
            resource_views(out@) == resource_views(rs@.subrange(0, i as int)),
        decreases rs@.len() - i,
    {
        let id = rs[i].0.duplicate();
        let bytes = copy_bytes(&rs[i].1);
        let ghost before = out@;
        out.push((id, bytes));
        proof {
            let a = resource_views(out@);
            let b = resource_views(rs@.subrange(0, i as int + 1));
            assert forall|j: int| 0 <= j < a.len() implies a[j] == b[j] by {
                if j < i {
                    assert(resource_views(before)[j] == resource_views(rs@.subrange(0, i as int))[j]);
                    assert(out@[j] == before[j]);
                    assert(rs@.subrange(0, i as int + 1)[j] == rs@.subrange(0, i as int)[j]);
                } else {
                    assert(out@[j] == (id, bytes));
                    assert(rs@.subrange(0, i as int + 1)[j] == rs@[i as int]);
                }
            }
            assert(a =~= b);
        }
        i += 1;
    }
    assert(rs@.subrange(0, i as int) =~= rs@);
    out
}

impl LoadedFeature {
    /// Loads a feature: its name, its resources keyed by type (the last
    /// default of a type wins), and its schedules grouped by label.
    pub fn try_from_descriptor(descriptor: &FeatureDescriptor) -> (r: Result<LoadedFeature, SchedulingError>)
        ensures
            r is Ok ==> r->Ok_0.name@ == descriptor.name@ && resource_views(r->Ok_0.resources@)
                == deduped_resources(resource_views(descriptor.resources@)),
            r is Ok <==> descriptors_load(descriptor.schedules@),
            r is Err && r->Err_0 is InvalidSchedule <==> exists|i: int|
                0 <= i < descriptor.schedules@.len() && !is_schedule_label(
                    (#[trigger] descriptor.schedules@[i]).id@,
                ),
            r is Ok ==> forall|k: int|
                0 <= k < r->Ok_0.schedules.schedules@.len() ==> is_schedule_label(
                    (#[trigger] r->Ok_0.schedules.schedules@[k]).0@,
                ) && loaded_from(
                    r->Ok_0.schedules.schedules@[k].1,
                    group_of(descriptor.schedules@, r->Ok_0.schedules.schedules@[k].0@),
                ),
            r is Ok ==> forall|label: StableIdView|
                is_schedule_label(label) && #[trigger] has_label(descriptor.schedules@, label) ==> is_loaded(
                    r->Ok_0.schedules.schedules@,
                    label,
                ),
    {
        match LoadedSchedules::try_from_schedule_descriptors(&descriptor.schedules) {
            Ok(schedules) => {
                let resources = dedup_resources(copy_resources(&descriptor.resources));
                Ok(LoadedFeature { name: descriptor.name.clone(), resources, schedules })
            },
            Err(e) => Err(e),
        }
    }
}

/// A loaded mod: the fingerprint of its manifest and its features.
#[derive(Clone, Debug)]
pub struct LoadedMod {
    pub manifest_hash: FileHash,
    pub features: Vec<LoadedFeature>,
}

impl LoadedMod {
    /// Checks that the manifest belongs to the wasm, then loads each feature.
    /// The mod is fingerprinted by the truncated SHA-256 of the manifest bytes.
    pub fn try_from_manifest(manifest: &ModManifest, manifest_bytes: &[u8], wasm_bytes: &[u8]) -> (r: Result<
        LoadedMod,
        LoadError,
    >)
        ensures
            (r is Err && r->Err_0 is HashMismatch) <==> manifest.wasm_hash.0@ != truncated_sha256(wasm_bytes@),
            r is Ok <==> manifest.wasm_hash.0@ == truncated_sha256(wasm_bytes@) && forall|i: int|
                0 <= i < manifest.features@.len() ==> descriptors_load(
                    (#[trigger] manifest.features@[i]).schedules@,
                ),
            r is Ok ==> {
                &&& r->Ok_0.manifest_hash.0@ == truncated_sha256(manifest_bytes@)
                &&& r->Ok_0.features@.len() == manifest.features@.len()
                &&& forall|i: int|
                    0 <= i < manifest.features@.len() ==> (#[trigger] r->Ok_0.features@[i]).name@
                        == manifest.features@[i].name@ && resource_views(r->Ok_0.features@[i].resources@)
                        == deduped_resources(resource_views(manifest.features@[i].resources@))
            },
    {
        if !manifest.matches_wasm(wasm_bytes) {
            return Err(LoadError::HashMismatch);
        }
        let mut features: Vec<LoadedFeature> = Vec::new();
        let mut i: usize = 0;
        while i < manifest.features.len()
            invariant
                0 <= i <= manifest.features@.len(),
                features@.len() == i,
                manifest.wasm_hash.0@ == truncated_sha256(wasm_bytes@),
                forall|j: int| 0 <= j < i ==> descriptors_load((#[trigger] manifest.features@[j]).schedules@),
                forall|j: int|
                    0 <= j < i ==> (#[trigger] features@[j]).name@ == manifest.features@[j].name@ && resource_views(
                        features@[j].resources@,
                    ) == deduped_resources(resource_views(manifest.features@[j].resources@)),
            decreases manifest.features@.len() - i,
        {
            match LoadedFeature::try_from_descriptor(&manifest.features[i]) {
                Ok(f) => features.push(f),
                Err(e) => {
                    return Err(LoadError::Scheduling(e));
                },
            }
            i += 1;
        }
        let manifest_hash = FileHash::of_bytes(manifest_bytes);
        Ok(LoadedMod { manifest_hash, features })
    }
}

} // verus!
