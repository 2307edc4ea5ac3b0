use vstd::prelude::*;
use crate::ids::{FileHash, StableId, StableIdView};
use crate::manifest::{FeatureDescriptor, ModManifest};
use crate::registry::{ids_unique, is_container, registered, SchemaType, TypeSignatures};
use crate::schedule::{Constraint, Schedule, ScheduleDescriptor, System};
use crate::type_signature::TypeSignature;

verus! {

/// How many types a mod may declare.
pub const MAX_TYPES: usize = 1024;

/// How many resources a mod may declare.
pub const MAX_RESOURCES: usize = 128;

/// How many schedules a mod may declare.
pub const MAX_SCHEDULES: usize = 128;

/// What a mod declares, in declaration order: its name, its types, its
/// resources with their encoded default values, and its schedules with
/// their labels.
#[derive(Debug)]
pub struct Schema {
    pub name: Option<String>,
    pub types: Vec<SchemaType>,
    pub resources: Vec<(StableId, Vec<u8>)>,
    pub schedules: Vec<(StableId, Schedule)>,
}

impl Schema {
    /// The declarations stay within their capacities.
    pub open spec fn wf(&self) -> bool {
        &&& self.types@.len() <= MAX_TYPES
        &&& self.resources@.len() <= MAX_RESOURCES
        &&& self.schedules@.len() <= MAX_SCHEDULES
    }

    pub fn new() -> (r: Schema)
        ensures
            r.wf(),
            r.name is None,
            r.types@.len() == 0,
            r.resources@.len() == 0,
            r.schedules@.len() == 0,
    {
        Schema { name: None, types: Vec::new(), resources: Vec::new(), schedules: Vec::new() }
    }

    pub fn name(&self) -> (r: &Option<String>)
        ensures
            *r == self.name,
    {
        &self.name
    }

    pub fn types(&self) -> (r: &Vec<SchemaType>)
        ensures
            *r == self.types,
    {
        &self.types
    }

    pub fn resources(&self) -> (r: &Vec<(StableId, Vec<u8>)>)
        ensures
            *r == self.resources,
    {
        &self.resources
    }

    pub fn schedules(&self) -> (r: &Vec<(StableId, Schedule)>)
        ensures
            *r == self.schedules,
    {
        &self.schedules
    }
}

/// Builds the schema of a mod, one declaration at a time.
#[derive(Debug)]
pub struct Mod {
    pub schema: Schema,
}

impl Mod {
    pub fn new(name: &str) -> (r: Mod)
        ensures
            r.schema.wf(),
            r.schema.name is Some && r.schema.name->0@ == name@,
            r.schema.types@.len() == 0,
            r.schema.resources@.len() == 0,
            r.schema.schedules@.len() == 0,
    {
        let mut schema = Schema::new();
        schema.name = Some(name.to_owned());
        Mod { schema }
    }

    pub fn into_schema(self) -> (r: Schema)
        ensures
            r == self.schema,
    {
        self.schema
    }

    /// Declares a type.
    pub fn register_type(&mut self, ty: SchemaType)
        requires
            old(self).schema.wf(),
            old(self).schema.types@.len() < MAX_TYPES,
        ensures
            final(self).schema.wf(),
            final(self).schema.types@ == old(self).schema.types@.push(ty),
            final(self).schema.name == old(self).schema.name,
            final(self).schema.resources == old(self).schema.resources,
            final(self).schema.schedules == old(self).schema.schedules,
    {
        self.schema.types.push(ty);
    }

    /// Declares a resource, with its default value encoded, and its type.
    pub fn add_resource(&mut self, ty: SchemaType, default_value: Vec<u8>)
        requires
            old(self).schema.wf(),
            old(self).schema.types@.len() < MAX_TYPES,
            old(self).schema.resources@.len() < MAX_RESOURCES,
        ensures
            final(self).schema.wf(),
            final(self).schema.types@ == old(self).schema.types@.push(ty),
            final(self).schema.resources@ == old(self).schema.resources@.push((ty.info.ty, default_value)),
            final(self).schema.name == old(self).schema.name,
            final(self).schema.schedules == old(self).schema.schedules,
    {
        let id = ty.info.ty.duplicate();
        self.schema.resources.push((id, default_value));
        self.schema.types.push(ty);
    }

    /// Declares systems and constraints in the schedule with the label.
    pub fn add_systems(&mut self, label: StableId, schedule: Schedule)
        requires
            old(self).schema.wf(),
            old(self).schema.schedules@.len() < MAX_SCHEDULES,
        ensures
            final(self).schema.wf(),
            final(self).schema.schedules@ == old(self).schema.schedules@.push((label, schedule)),
            final(self).schema.name == old(self).schema.name,
            final(self).schema.types == old(self).schema.types,
            final(self).schema.resources == old(self).schema.resources,
    {
        self.schema.schedules.push((label, schedule));
    }
}

/// The signatures after registering each declared type, in order.
pub open spec fn registered_all(types: Seq<SchemaType>) -> Seq<TypeSignature>
    decreases types.len(),
{
    if types.len() == 0 {
        Seq::empty()
    } else {
        let t = types.last();
        registered(registered_all(types.drop_last()), t.info, Some(t.size), Some(t.align))
    }
}

/// The position of the entry with the identifier, if any.
pub open spec fn find_key<V>(entries: Seq<(StableIdView, V)>, id: StableIdView) -> Option<int> {
    if exists|i: int| 0 <= i < entries.len() && (#[trigger] entries[i]).0 == id {
        Some(choose|i: int| 0 <= i < entries.len() && (#[trigger] entries[i]).0 == id)
    } else {
        None
    }
}

/// What a list of resources holds, by views.
pub open spec fn resource_views(rs: Seq<(StableId, Vec<u8>)>) -> Seq<(StableIdView, Seq<u8>)> {
    rs.map_values(|e: (StableId, Vec<u8>)| (e.0@, e.1@))
}

/// The resources with one entry per type: the last declared value of each
/// type, at the place of its first declaration.
pub open spec fn deduped_resources(rs: Seq<(StableIdView, Seq<u8>)>) -> Seq<(StableIdView, Seq<u8>)>
    decreases rs.len(),
{
    if rs.len() == 0 {
        Seq::empty()
    } else {
        let prev = deduped_resources(rs.drop_last());
        let r = rs.last();
        match find_key(prev, r.0) {
            Some(i) => prev.update(i, r),
            None => prev.push(r),
        }
    }
}

/// The schedules with one entry per label, at the place of the label's first
/// declaration, with the systems and constraints of all its declarations
/// concatenated in order.
pub open spec fn grouped_schedules(ss: Seq<(StableId, Schedule)>) -> Seq<(StableIdView, (Seq<System>, Seq<Constraint>))>
    decreases ss.len(),
{
    if ss.len() == 0 {
        Seq::empty()
    } else {
        let prev = grouped_schedules(ss.drop_last());
        let s = ss.last();
        match find_key(prev, s.0@) {
            Some(i) => prev.update(
                i,
                (prev[i].0, (prev[i].1.0 + s.1.systems@, prev[i].1.1 + s.1.constraints@)),
            ),
            None => prev.push((s.0@, (s.1.systems@, s.1.constraints@))),
        }
    }
}

fn find_resource(out: &Vec<(StableId, Vec<u8>)>, id: &StableId) -> (r: Option<usize>)
    requires
        forall|a: int, b: int| 0 <= a < b < out@.len() ==> (#[trigger] out@[a]).0@ != (#[trigger] out@[b]).0@,
    ensures
        r is Some <==> find_key(out@.map_values(|e: (StableId, Vec<u8>)| (e.0@, e.1@)), id@) is Some,
        r is Some ==> r->0 < out@.len() && r->0 as int == find_key(
            out@.map_values(|e: (StableId, Vec<u8>)| (e.0@, e.1@)),
            id@,
        )->0,
{
    let ghost v = out@.map_values(|e: (StableId, Vec<u8>)| (e.0@, e.1@));
    let mut i: usize = 0;
    while i < out.len()
        invariant
            0 <= i <= out@.len(),
            v == out@.map_values(|e: (StableId, Vec<u8>)| (e.0@, e.1@)),
            forall|a: int, b: int| 0 <= a < b < out@.len() ==> (#[trigger] out@[a]).0@ != (#[trigger] out@[b]).0@,
            forall|j: int| 0 <= j < i ==> (#[trigger] out@[j]).0@ != id@,
        decreases out@.len() - i,
    {
        if out[i].0.same_as(id) {
            proof {
                assert(v[i as int].0 == id@);
                let k = find_key(v, id@)->0;
                if k != i as int {
                    if k < i {
                        assert(out@[k].0@ != id@);
                    } else {
                        assert(out@[i as int].0@ != out@[k].0@);
                    }
                }
            }
            return Some(i);
        }
        i += 1;
    }
    proof {
        assert forall|j: int| 0 <= j < v.len() implies (#[trigger] v[j]).0 != id@ by {
            assert(out@[j].0@ != id@);
        }
    }
    None
}

pub(crate) fn dedup_resources(resources: Vec<(StableId, Vec<u8>)>) -> (r: Vec<(StableId, Vec<u8>)>)
    ensures
        resource_views(r@) == deduped_resources(resource_views(resources@)),
{
    let ghost orig = resources@;
    let ghost ov = resource_views(resources@);
    let mut rest = resources;
    let mut out: Vec<(StableId, Vec<u8>)> = Vec::new();
    let mut k: usize = 0;
    let n = rest.len();
    while rest.len() > 0
        invariant
            k + rest@.len() == n,
            n == orig.len(),
            rest@ == orig.subrange(k as int, n as int),
            ov == resource_views(orig),
            resource_views(out@) == deduped_resources(ov.subrange(0, k as int)),
            forall|a: int, b: int| 0 <= a < b < out@.len() ==> (#[trigger] out@[a]).0@ != (#[trigger] out@[b]).0@,
        decreases rest@.len(),
    {
        let item = rest.remove(0);
        let ghost prev = out@.map_values(|e: (StableId, Vec<u8>)| (e.0@, e.1@));
        let ghost pre = ov.subrange(0, k as int + 1);
        proof {
            assert(item == orig[k as int]);
            assert(pre.drop_last() =~= ov.subrange(0, k as int));
            assert(pre.last() == (item.0@, item.1@));
        }
        match find_resource(&out, &item.0) {
            Some(i) => {
                let ghost before = out@;
                let _old = out.remove(i);
                out.insert(i, item);
                proof {
                    assert(out@ =~= before.update(i as int, item));
                    assert(out@.map_values(|e: (StableId, Vec<u8>)| (e.0@, e.1@)) =~= prev.update(i as int, (item.0@, item.1@)));
                    assert forall|a: int, b: int| 0 <= a < b < out@.len() implies (#[trigger] out@[a]).0@ != (#[trigger] out@[b]).0@ by {
                        assert(before[a].0@ != before[b].0@);
                        assert(out@[i as int].0@ == before[i as int].0@);
                    }
                }
            },
            None => {
                let ghost before = out@;
                out.push(item);
                proof {
                    assert(out@.map_values(|e: (StableId, Vec<u8>)| (e.0@, e.1@)) =~= prev.push((item.0@, item.1@)));
                    assert forall|a: int, b: int| 0 <= a < b < out@.len() implies (#[trigger] out@[a]).0@ != (#[trigger] out@[b]).0@ by {
                        if b == before.len() {
                            assert(prev[a].0 != item.0@);
                        } else {
                            assert(before[a].0@ != before[b].0@);
                        }
                    }
                }
            },
        }
        k += 1;
        proof {
            assert(rest@ =~= orig.subrange(k as int, n as int));
        }
    }
    assert(ov.subrange(0, k as int) =~= ov);
    out
}

/// What a schedule descriptor holds, by views.
pub open spec fn descriptor_view(d: ScheduleDescriptor) -> (StableIdView, (Seq<System>, Seq<Constraint>)) {
    (d.id@, (d.schedule.systems@, d.schedule.constraints@))
}

fn find_label(out: &Vec<ScheduleDescriptor>, id: &StableId) -> (r: Option<usize>)
    requires
        forall|a: int, b: int| 0 <= a < b < out@.len() ==> (#[trigger] out@[a]).id@ != (#[trigger] out@[b]).id@,
    ensures
        r is Some <==> find_key(out@.map_values(|d: ScheduleDescriptor| descriptor_view(d)), id@) is Some,
        r is Some ==> r->0 < out@.len() && r->0 as int == find_key(
            out@.map_values(|d: ScheduleDescriptor| descriptor_view(d)),
            id@,
        )->0,
{
    let ghost v = out@.map_values(|d: ScheduleDescriptor| descriptor_view(d));
    let mut i: usize = 0;
    while i < out.len()
        invariant
            0 <= i <= out@.len(),
            v == out@.map_values(|d: ScheduleDescriptor| descriptor_view(d)),
            forall|a: int, b: int| 0 <= a < b < out@.len() ==> (#[trigger] out@[a]).id@ != (#[trigger] out@[b]).id@,
            forall|j: int| 0 <= j < i ==> (#[trigger] out@[j]).id@ != id@,
        decreases out@.len() - i,
    {
        if out[i].id.same_as(id) {
            proof {
                assert(v[i as int].0 == id@);
                let k = find_key(v, id@)->0;
                if k != i as int {
                    if k < i {
                        assert(out@[k].id@ != id@);
                    } else {
                        assert(out@[i as int].id@ != out@[k].id@);
                    }
                }
            }
            return Some(i);
        }
        i += 1;
    }
    proof {
        assert forall|j: int| 0 <= j < v.len() implies (#[trigger] v[j]).0 != id@ by {
            assert(out@[j].id@ != id@);
        }
    }
    None
}

fn group_schedules(schedules: Vec<(StableId, Schedule)>) -> (r: Vec<ScheduleDescriptor>)
    ensures
        r@.map_values(|d: ScheduleDescriptor| descriptor_view(d)) == grouped_schedules(schedules@),
{
    let ghost orig = schedules@;
    let mut rest = schedules;
    let mut out: Vec<ScheduleDescriptor> = Vec::new();
    let mut k: usize = 0;
    let n = rest.len();
    while rest.len() > 0
        invariant
            k + rest@.len() == n,
            n == orig.len(),
            rest@ == orig.subrange(k as int, n as int),
            out@.map_values(|d: ScheduleDescriptor| descriptor_view(d)) == grouped_schedules(orig.subrange(0, k as int)),
            forall|a: int, b: int| 0 <= a < b < out@.len() ==> (#[trigger] out@[a]).id@ != (#[trigger] out@[b]).id@,
        decreases rest@.len(),
    {
        let (label, schedule) = rest.remove(0);
        let ghost item = orig[k as int];
        let ghost prev = out@.map_values(|d: ScheduleDescriptor| descriptor_view(d));
        let ghost pre = orig.subrange(0, k as int + 1);
        proof {
            assert(pre.drop_last() =~= orig.subrange(0, k as int));
            assert(pre.last() == item);
        }
        match find_label(&out, &label) {
            Some(i) => {
                let ghost before = out@;
                let mut d = out.remove(i);
                let Schedule { systems, constraints } = schedule;
                let mut systems = systems;
                let mut constraints = constraints;
                d.schedule.systems.append(&mut systems);
                d.schedule.constraints.append(&mut constraints);
                out.insert(i, d);
                proof {
                    assert(out@ =~= before.update(i as int, d));
                    assert(out@.map_values(|d: ScheduleDescriptor| descriptor_view(d)) =~= prev.update(
                        i as int,
                        (prev[i as int].0, (prev[i as int].1.0 + item.1.systems@, prev[i as int].1.1 + item.1.constraints@)),
                    ));
                    assert forall|a: int, b: int| 0 <= a < b < out@.len() implies (#[trigger] out@[a]).id@ != (#[trigger] out@[b]).id@ by {
                        assert(before[a].id@ != before[b].id@);
                        assert(out@[i as int].id@ == before[i as int].id@);
                    }
                }
            },
            None => {
                let ghost before = out@;
                out.push(ScheduleDescriptor { id: label, schedule });
                proof {
                    assert(out@.map_values(|d: ScheduleDescriptor| descriptor_view(d)) =~= prev.push(
                        (item.0@, (item.1.systems@, item.1.constraints@)),
                    ));
                    assert forall|a: int, b: int| 0 <= a < b < out@.len() implies (#[trigger] out@[a]).id@ != (#[trigger] out@[b]).id@ by {
                        if b == before.len() {
                            assert(prev[a].0 != item.0@);
                        } else {
                            assert(before[a].id@ != before[b].id@);
                        }
                    }
                }
            },
        }
        k += 1;
        proof {
            assert(rest@ =~= orig.subrange(k as int, n as int));
        }
    }
    assert(orig.subrange(0, k as int) =~= orig);
    out
}

fn register_all(types: Vec<SchemaType>) -> (r: Vec<TypeSignature>)
    requires
        forall|i: int| 0 <= i < types@.len() ==> !is_container((#[trigger] types@[i]).info.shape),
    ensures
        r@ == registered_all(types@),
{
    let ghost orig = types@;
    let mut rest = types;
    let mut sigs = TypeSignatures::new();
    let mut k: usize = 0;
    let n = rest.len();
    while rest.len() > 0
        invariant
            k + rest@.len() == n,
            n == orig.len(),
            rest@ == orig.subrange(k as int, n as int),
            ids_unique(sigs.entries@),
            sigs.entries@ == registered_all(orig.subrange(0, k as int)),
            forall|i: int| 0 <= i < orig.len() ==> !is_container((#[trigger] orig[i]).info.shape),
        decreases rest@.len(),
    {
        let t = rest.remove(0);
        proof {
            let pre = orig.subrange(0, k as int + 1);
            assert(pre.drop_last() =~= orig.subrange(0, k as int));
            assert(pre.last() == t);
        }
        sigs.register_type(t);
        k += 1;
        proof {
            assert(rest@ =~= orig.subrange(k as int, n as int));
        }
    }
    assert(orig.subrange(0, k as int) =~= orig);
    sigs.into_vec()
}

/// Builds a mod's manifest from its schema: its types registered in order,
/// one resource per type with the last declared default, and one schedule
/// per label gathering all its declarations, in a single feature named
/// after the mod ("unknown" if it has no name). The wasm hash is left empty.
/// A declared type of a container kind would carry a layout, which
/// container kinds never do.
pub fn schema_to_manifest(schema: Schema) -> (r: ModManifest)
    requires
        forall|i: int| 0 <= i < schema.types@.len() ==> !is_container((#[trigger] schema.types@[i]).info.shape),
    ensures
        r.wasm_hash.0@ == Seq::new(16, |i: int| 0u8),
        r.types@ == registered_all(schema.types@),
        r.features@.len() == 1,
        schema.name is Some ==> r.features@[0].name@ == schema.name->0@,
        schema.name is None ==> r.features@[0].name@ == "unknown"@,
        resource_views(r.features@[0].resources@) == deduped_resources(resource_views(schema.resources@)),
        r.features@[0].schedules@.map_values(|d: ScheduleDescriptor| descriptor_view(d))
            == grouped_schedules(schema.schedules@),
{
    let Schema { name, types, resources, schedules } = schema;
    let types = register_all(types);
    let resources = dedup_resources(resources);
    let schedules = group_schedules(schedules);
    let name = match name {
        Some(n) => n,
        None => "unknown".to_owned(),
    };
    let mut features: Vec<FeatureDescriptor> = Vec::new();
    features.push(FeatureDescriptor { name, resources, schedules });
    ModManifest { wasm_hash: FileHash::empty(), types, features }
}

} // verus!
