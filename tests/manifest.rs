use harmonize::api::{extract_system_name, EntityCommands, Sys, SystemSet as DeclaredSet};
use harmonize::{
    classify_line, Level, exports_systems, imports_components, manifest_drifted, schema_to_manifest, to_hex, update_label,
    FeatureDescriptor, FileHash, LoadError, LoadedMod, Mod, ModManifest, ModSource, Param,
    RawWasmVec, Schedule, ScheduleDescriptor, SchemaType, StableId, System, SystemId, SystemSet,
    TypeAddress, TypeInfo, TypeShape, TypeSignature, TypeSignatures,
};

fn u32_info() -> TypeInfo {
    TypeInfo { ty: StableId::new("core", "u32"), generics: vec![], shape: TypeShape::Opaque, field_types: vec![] }
}

fn count_frames() -> SchemaType {
    SchemaType {
        info: TypeInfo {
            ty: StableId::new("my_cube", "CountFrames"),
            generics: vec![],
            shape: TypeShape::TupleStruct { fields: vec![StableId::new("core", "u32")] },
            field_types: vec![u32_info()],
        },
        size: 4,
        align: 4,
    }
}

fn res_param() -> Param {
    Param::Res { mutable: false, id: StableId::new("my_cube", "CountFrames") }
}

#[test]
fn manifest_of_a_mod_with_one_resource_and_one_system() {
    let zero = bincode::encode_to_vec(0u32, bincode::config::standard()).unwrap();
    let mut m = Mod::new("my_cube");
    m.add_resource(count_frames(), zero.clone());
    m.add_systems(
        update_label(),
        Schedule {
            systems: vec![System { id: SystemId(7), name: "update_frame_count".to_string(), params: vec![res_param()] }],
            constraints: vec![],
        },
    );
    let manifest = schema_to_manifest(m.into_schema());
    assert_eq!(manifest.wasm_hash, FileHash::empty());
    assert_eq!(manifest.features.len(), 1);
    let f = &manifest.features[0];
    assert_eq!(f.name, "my_cube");
    assert_eq!(f.resources.len(), 1);
    assert_eq!(f.resources[0].0, StableId::new("my_cube", "CountFrames"));
    assert_eq!(f.resources[0].1, zero);
    assert_eq!(f.resources[0].1, vec![0u8]);
    assert_eq!(f.schedules.len(), 1);
    assert_eq!(f.schedules[0].id, update_label());
    let systems = &f.schedules[0].schedule.systems;
    assert_eq!(systems.len(), 1);
    assert_eq!(systems[0].name, "update_frame_count");
    assert!(matches!(systems[0].params.as_slice(), [Param::Res { mutable: false, id }] if *id == StableId::new("my_cube", "CountFrames")));
    // the field type is registered first, without layout, then the resource type
    assert_eq!(manifest.types.len(), 2);
    assert_eq!(manifest.types[0].stable_id(), StableId::new("core", "u32"));
    assert_eq!(manifest.types[0].size(), None);
    assert_eq!(manifest.types[1].size(), Some(4));
    assert_eq!(manifest.types[1].align(), Some(4));
}

#[test]
fn later_layout_replaces_field_registration() {
    let mut sigs = TypeSignatures::new();
    sigs.register_type(count_frames());
    sigs.register_type(SchemaType { info: u32_info(), size: 4, align: 4 });
    let v = sigs.into_vec();
    assert_eq!(v.len(), 2);
    assert_eq!(v[0].stable_id(), StableId::new("core", "u32"));
    assert_eq!(v[0].size(), Some(4));
}

#[test]
fn resources_keep_last_default_and_schedules_merge() {
    let mut m = Mod::new("m");
    m.add_resource(count_frames(), vec![1]);
    m.add_resource(count_frames(), vec![2]);
    let s = |id: u64| Schedule {
        systems: vec![System { id: SystemId(id), name: format!("s{}", id), params: vec![] }],
        constraints: vec![],
    };
    m.add_systems(update_label(), s(1));
    m.add_systems(StableId::new("common", "Start"), s(2));
    m.add_systems(update_label(), s(3));
    let manifest = schema_to_manifest(m.into_schema());
    let f = &manifest.features[0];
    assert_eq!(f.resources.len(), 1);
    assert_eq!(f.resources[0].1, vec![2]);
    assert_eq!(f.schedules.len(), 2);
    let ids: Vec<u64> = f.schedules[0].schedule.systems.iter().map(|x| x.id.0).collect();
    assert_eq!(ids, vec![1, 3]);
}

#[test]
fn unnamed_schema_gives_unknown_feature() {
    let manifest = schema_to_manifest(harmonize::Schema::new());
    assert_eq!(manifest.features[0].name, "unknown");
}

fn manifest_with_systems(ids: &[&[u64]]) -> ModManifest {
    let schedules = ids
        .iter()
        .map(|list| ScheduleDescriptor {
            id: update_label(),
            schedule: Schedule {
                systems: list.iter().map(|i| System { id: SystemId(*i), name: format!("s{}", i), params: vec![] }).collect(),
                constraints: vec![],
            },
        })
        .collect();
    ModManifest {
        wasm_hash: FileHash::empty(),
        types: vec![],
        features: vec![FeatureDescriptor { name: "f".to_string(), resources: vec![], schedules }],
    }
}

#[test]
fn systems_are_listed_once_in_order() {
    let m = manifest_with_systems(&[&[3, 1], &[1, 2, 3]]);
    let ids: Vec<u64> = m.systems().iter().map(|s| s.id.0).collect();
    assert_eq!(ids, vec![3, 1, 2]);
    let exports = exports_systems(&m.systems());
    assert_eq!(exports.len(), 3);
    assert_eq!(exports[2].id, 2);
    assert_eq!(exports[2].name, "s2");
}

#[test]
fn stamped_hash_matches_final_wasm() {
    let mut m = manifest_with_systems(&[]);
    let wasm = b"\0asm\x01\0\0\0".to_vec();
    assert!(!m.matches_wasm(&wasm));
    m.stamp_wasm_hash(&wasm);
    assert!(m.matches_wasm(&wasm));
    assert!(!m.matches_wasm(b"other"));
    assert_ne!(m.wasm_hash, FileHash::empty());
}

#[test]
fn file_hash_of_empty_input() {
    let h = FileHash::of_bytes(b"");
    assert_eq!(to_hex(&h.0), "e3b0c44298fc1c149afbf4c8996fb924");
    let mut digest = [0u8; 32];
    for (i, b) in digest.iter_mut().enumerate() {
        *b = i as u8;
    }
    assert_eq!(FileHash::from_sha256(digest).0, [0, 1, 2, 3, 4, 5, 6, 7, 8, 9, 10, 11, 12, 13, 14, 15]);
    assert_eq!(FileHash::empty().0, [0u8; 16]);
}

#[test]
fn loading_checks_the_wasm_hash() {
    let mut m = manifest_with_systems(&[&[1]]);
    let wasm = b"wasm bytes".to_vec();
    let manifest_bytes = b"manifest bytes".to_vec();
    assert!(matches!(LoadedMod::try_from_manifest(&m, &manifest_bytes, &wasm), Err(LoadError::HashMismatch)));
    m.stamp_wasm_hash(&wasm);
    let loaded = LoadedMod::try_from_manifest(&m, &manifest_bytes, &wasm).unwrap();
    assert_eq!(loaded.manifest_hash, FileHash::of_bytes(&manifest_bytes));
    assert_eq!(loaded.features.len(), 1);
    assert_eq!(loaded.features[0].name, "f");
}

#[test]
fn package_name_from_stem_and_path() {
    let source = ModSource::new("My Cube", b"");
    assert_eq!(source.name, "my_cube_e3b0c442");
    assert!(!source.finished_codegen);
    assert_eq!(source.get_packages(), vec!["my_cube_e3b0c442_export_manifest".to_string()]);
    let mut done = source.clone();
    done.finished_codegen = true;
    assert_eq!(done.get_packages()[1], "my_cube_e3b0c442_export_systems");
    done.observe_manifest(Some(&vec![1, 2]), &vec![1, 2]);
    assert!(done.finished_codegen);
    done.observe_manifest(Some(&vec![1, 2]), &vec![1, 3]);
    assert!(!done.finished_codegen);
}

#[test]
fn drift_is_any_byte_change_or_no_previous_manifest() {
    assert!(manifest_drifted(None, &vec![]));
    assert!(!manifest_drifted(Some(&vec![4, 5]), &vec![4, 5]));
    assert!(manifest_drifted(Some(&vec![4, 5]), &vec![4]));
}

#[test]
fn hex_digits_are_lowercase() {
    assert_eq!(to_hex(&[0x00, 0x0f, 0xa0, 0xff]), "000fa0ff");
}

#[test]
fn system_name_is_extracted() {
    assert_eq!(extract_system_name("FunctionSystem<fn(), my_mod::update_frame_count>"), "my_mod::update_frame_count");
    assert_eq!(extract_system_name("Wrapper<inner>"), "Wrapper<inner");
    assert_eq!(extract_system_name("plain_name"), "plain_name");
}

#[test]
fn packed_pointer_and_length() {
    let v = RawWasmVec::from_u64((5u64 << 32) | 1024);
    assert_eq!(v.ptr, 1024);
    assert_eq!(v.len, 5);
    assert_eq!(v.into_range(), 1024..1029);
    assert_eq!(v.into_u64(), (5u64 << 32) | 1024);
}

#[test]
fn components_follow_address_order() {
    let s = TypeSignature::Opaque { ty: StableId::new("c", "R"), size: Some(8), align: Some(8), generics: vec![] };
    let addresses = vec![TypeAddress { signature: &s, address: 100..108 }];
    let c = imports_components(&addresses);
    assert_eq!(c.len(), 1);
    assert_eq!(c[0].id, 0);
    assert_eq!(c[0].address, 100);
    assert_eq!(c[0].crate_name, "c");
    assert_eq!(c[0].name, "R");
}

#[test]
fn declared_sets_split_into_schedule_sets() {
    let named = StableId::new("m", "N");
    let set = DeclaredSet(vec![Sys::Anonymous(SystemId(1)), Sys::Named(named.clone()), Sys::Anonymous(SystemId(2))]);
    let min = set.into_min_sets();
    assert_eq!(min.len(), 2);
    assert!(matches!(&min[0], SystemSet::Named(n) if *n == named));
    assert!(matches!(&min[1], SystemSet::Anonymous(v) if *v == vec![SystemId(1), SystemId(2)]));
    let set = DeclaredSet(vec![Sys::Anonymous(SystemId(1)), Sys::Named(named.clone())]);
    let max = set.into_max_sets();
    assert_eq!(max.len(), 2);
    assert!(matches!(&max[0], SystemSet::Anonymous(v) if *v == vec![SystemId(1)]));
}

#[test]
fn system_ids_are_deterministic() {
    fn a() {}
    fn b() {}
    assert_eq!(SystemId::of::<fn()>(), SystemId::of::<fn()>());
    let _ = (a, b);
    assert_ne!(SystemId::of::<u8>(), SystemId::of::<u16>());
    let e = EntityCommands(9, std::marker::PhantomData);
    assert_eq!(e.id().0, 9);
}

#[test]
fn compiler_output_levels() {
    assert_eq!(classify_line(Level::Info, "warning: unused variable"), (Level::Warn, Level::Warn));
    assert_eq!(classify_line(Level::Warn, "  --> src/lib.rs:3:9"), (Level::Warn, Level::Warn));
    assert_eq!(classify_line(Level::Warn, ""), (Level::Warn, Level::Info));
    assert_eq!(classify_line(Level::Info, "error[E0425]: cannot find value"), (Level::Error, Level::Error));
    assert_eq!(classify_line(Level::Info, "   Compiling foo"), (Level::Info, Level::Info));
}

#[test]
fn field_registration_keeps_known_layout() {
    let mut sigs = TypeSignatures::new();
    sigs.register_type(SchemaType { info: u32_info(), size: 4, align: 4 });
    sigs.register_type(count_frames());
    let v = sigs.into_vec();
    assert_eq!(v.len(), 2);
    assert_eq!(v[0].stable_id(), StableId::new("core", "u32"));
    assert_eq!(v[0].size(), Some(4));
    assert_eq!(v[0].align(), Some(4));
}

struct Tick;

impl harmonize::api::HasStableId for Tick {
    const STABLE_ID: &'static str = "my_mod::Tick";
}

impl harmonize::api::ScheduleLabel for Tick {}

#[test]
fn schedule_label_names_its_type() {
    use_label(&Tick);
}

fn use_label<L: harmonize::api::ScheduleLabel>(label: &L) {
    assert_eq!(label.id(), "my_mod::Tick");
}

#[test]
fn fallback_builds_manifest_exports_only() {
    let a = ModSource::new("a", b"x");
    let b = ModSource::new("b", b"y");
    let packages = harmonize::fallback_packages(&vec![a.clone(), b.clone()]);
    assert_eq!(packages, vec![format!("{}_export_manifest", a.name), format!("{}_export_manifest", b.name)]);
}

#[test]
fn negative_constant_is_an_address_high_in_memory() {
    let s = TypeSignature::Opaque { ty: StableId::new("c", "R"), size: Some(256), align: Some(256), generics: vec![] };
    let addresses = vec![TypeAddress { signature: &s, address: 0xFFFF_FE00..0xFFFF_FF00 }];
    let mut t = harmonize::Retargeter::new(&addresses);
    t.visit(harmonize::WasmInstr::I32Const(-512));
    assert_eq!(t.carry, Some(0xFFFF_FE00));
    assert_eq!(
        t.visit(harmonize::WasmInstr::Access(harmonize::MemArg { offset: 4, memory: 0 })),
        harmonize::WasmInstr::Access(harmonize::MemArg { offset: 4, memory: 1 })
    );
}

#[test]
fn short_names_stay_whole() {
    assert_eq!(extract_system_name("abcd"), "abcd");
    assert_eq!(extract_system_name("é>é"), "é>é");
}
