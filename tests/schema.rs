use harmonize::{
    schema_to_manifest, start_label, update_label, Constraint, FeatureDescriptor, FieldSignature,
    Mod, ModManifest, Schedule, ScheduleDescriptor, Schema, SchemaType, StableId, System, SystemId,
    SystemSet, TypeInfo, TypeShape, TypeSignature, VariantSignature,
};

fn opaque(crate_name: &str, name: &str) -> TypeInfo {
    TypeInfo { ty: StableId::new(crate_name, name), generics: vec![], shape: TypeShape::Opaque, field_types: vec![] }
}

fn sys(id: u64, name: &str) -> System {
    System { id: SystemId(id), name: name.to_string(), params: vec![] }
}

#[test]
fn name() {
    let schema = Mod::new("A custom name").into_schema();
    assert_eq!(schema.name, Some("A custom name".to_string()));
}

#[test]
fn add_resource() {
    let test_resource = SchemaType {
        info: TypeInfo {
            ty: StableId::new("tests", "TestResource"),
            generics: vec![],
            shape: TypeShape::TupleStruct { fields: vec![StableId::new("core", "u32")] },
            field_types: vec![opaque("core", "u32")],
        },
        size: 4,
        align: 4,
    };
    let mut m = Mod::new("Test add_resource");
    m.add_resource(test_resource, vec![123]);
    let Schema { types, resources, .. } = m.into_schema();

    // add_resource registers the type too
    assert_eq!(types.len(), 1);

    assert_eq!(resources.len(), 1);
    let (stable_id, default_value) = &resources[0];
    assert_eq!(stable_id.name, "TestResource");
    assert_eq!(default_value, &vec![123]);
}

#[test]
fn register_type() {
    let mut m = Mod::new("Test register_type");
    m.register_type(SchemaType { info: opaque("tests", "TestType"), size: 0, align: 1 });
    let Schema { types, .. } = m.into_schema();
    assert_eq!(types.len(), 1);
    assert_eq!(types[0].info.ty, StableId::new("tests", "TestType"));
}

#[test]
fn add_systems() {
    let mut m = Mod::new("Test add_systems");
    m.add_systems(start_label(), Schedule { systems: vec![sys(1, "system1")], constraints: vec![] });
    m.add_systems(
        update_label(),
        Schedule {
            systems: vec![sys(2, "system2"), sys(3, "system3")],
            constraints: vec![Constraint::Order {
                before: SystemSet::Anonymous(vec![SystemId(2)]),
                after: SystemSet::Anonymous(vec![SystemId(3)]),
            }],
        },
    );
    let Schema { types, schedules, .. } = m.into_schema();

    assert_eq!(types.len(), 0);

    assert_eq!(schedules.len(), 2);
    assert_eq!(schedules[0].0, start_label());
    assert_eq!(schedules[0].1.systems.len(), 1);
    assert_eq!(schedules[0].1.constraints.len(), 0);

    assert_eq!(schedules[1].0, update_label());
    assert_eq!(schedules[1].1.systems.len(), 2);
    assert_eq!(schedules[1].1.constraints.len(), 1);
}

#[test]
fn schema_check_size() {
    // Assume any size over 1MB is too big
    assert!(std::mem::size_of::<Schema>() < 1024 * 1024);
}

#[test]
fn manifest_from_schema() {
    let my_enum = TypeInfo {
        ty: StableId::new("tests", "MyEnum"),
        generics: vec![],
        shape: TypeShape::Enum {
            variants: vec![
                VariantSignature::Unit { name: "Left".to_string() },
                VariantSignature::Tuple { name: "Middle".to_string(), fields: vec![StableId::new("core", "u32")] },
                VariantSignature::Struct {
                    name: "Right".to_string(),
                    fields: vec![FieldSignature { name: "string".to_string(), ty: StableId::new("alloc", "String") }],
                },
            ],
        },
        field_types: vec![opaque("core", "u32"), opaque("alloc", "String")],
    };
    let my_struct = SchemaType {
        info: TypeInfo {
            ty: StableId::new("tests", "MyStruct"),
            generics: vec![],
            shape: TypeShape::Struct {
                fields: vec![
                    FieldSignature { name: "foo".to_string(), ty: StableId::new("core", "u32") },
                    FieldSignature { name: "bar".to_string(), ty: StableId::new("tests", "MyEnum") },
                ],
            },
            field_types: vec![opaque("core", "u32"), my_enum],
        },
        size: 8,
        align: 4,
    };

    let mut m = Mod::new("A custom name");
    m.add_resource(my_struct, vec![4, 2, 0]);
    m.add_systems(start_label(), Schedule { systems: vec![sys(1, "system1")], constraints: vec![] });
    m.add_systems(start_label(), Schedule { systems: vec![sys(2, "system2")], constraints: vec![] });
    m.register_type(SchemaType { info: opaque("core", "u32"), size: 4, align: 4 });

    let ModManifest { types, features, wasm_hash: _wasm_hash } = schema_to_manifest(m.into_schema());

    assert_eq!(types.len(), 4);
    assert!(types.contains(&TypeSignature::Struct {
        ty: StableId::new("tests", "MyStruct"),
        size: Some(8),
        align: Some(4),
        generics: Vec::new(),
        fields: vec![
            FieldSignature { name: "foo".to_string(), ty: StableId::new("core", "u32") },
            FieldSignature { name: "bar".to_string(), ty: StableId::new("tests", "MyEnum") },
        ]
    }));
    assert!(types.contains(&TypeSignature::Enum {
        ty: StableId::new("tests", "MyEnum"),
        size: None,
        align: None,
        generics: Vec::new(),
        variants: vec![
            VariantSignature::Unit { name: "Left".to_string() },
            VariantSignature::Tuple { name: "Middle".to_string(), fields: vec![StableId::new("core", "u32")] },
            VariantSignature::Struct {
                name: "Right".to_string(),
                fields: vec![FieldSignature { name: "string".to_string(), ty: StableId::new("alloc", "String") }],
            }
        ]
    }));
    assert!(types.contains(&TypeSignature::Opaque {
        ty: StableId::new("core", "u32"),
        // First it's registered as a dependency of MyStruct without size/alignment
        // But then it's registered again with register_type with size/alignment
        size: Some(4),
        align: Some(4),
        generics: Vec::new(),
    }));
    assert!(types.contains(&TypeSignature::Opaque {
        ty: StableId::new("alloc", "String"),
        size: None,
        align: None,
        generics: Vec::new()
    }));

    assert_eq!(
        features,
        vec![FeatureDescriptor {
            name: "A custom name".to_string(),
            resources: vec![(StableId::new("tests", "MyStruct"), vec![4, 2, 0])],
            schedules: vec![ScheduleDescriptor {
                id: start_label(),
                schedule: Schedule { systems: vec![sys(1, "system1"), sys(2, "system2")], constraints: Vec::new() }
            }],
        }]
    )
}
