use harmonize::{
    resource_imports, retarget_body, MemArg, Retargeter, StableId, TypeAddress, TypeSignature,
    WasmInstr, RESOURCE_MODULE,
};

fn sig(name: &str) -> TypeSignature {
    TypeSignature::Opaque {
        ty: StableId::new("my_mod", name),
        size: Some(256),
        align: Some(256),
        generics: vec![],
    }
}

#[test]
fn constant_then_load_is_retargeted() {
    let s = sig("CountFrames");
    let addresses = vec![TypeAddress { signature: &s, address: 0xFFFF_FE00..0xFFFF_FF00 }];
    let body = vec![
        WasmInstr::I32Const(0xFFFF_FE00u32 as i32),
        WasmInstr::Access(MemArg { offset: 4, memory: 0 }),
    ];
    let out = retarget_body(&addresses, &body);
    assert_eq!(out[0], body[0]);
    assert_eq!(out[1], WasmInstr::Access(MemArg { offset: 4, memory: 1 }));
}

#[test]
fn bare_load_outside_ranges_is_unchanged() {
    let s = sig("CountFrames");
    let addresses = vec![TypeAddress { signature: &s, address: 0xFFFF_FE00..0xFFFF_FF00 }];
    let body = vec![WasmInstr::Access(MemArg { offset: 4, memory: 0 })];
    assert_eq!(retarget_body(&addresses, &body), body);
}

#[test]
fn other_instruction_clears_the_constant() {
    let s = sig("A");
    let addresses = vec![TypeAddress { signature: &s, address: 0xFFFF_FE00..0xFFFF_FF00 }];
    let body = vec![
        WasmInstr::I32Const(0xFFFF_FE00u32 as i32),
        WasmInstr::Other,
        WasmInstr::Access(MemArg { offset: 4, memory: 0 }),
    ];
    assert_eq!(retarget_body(&addresses, &body)[2], WasmInstr::Access(MemArg { offset: 4, memory: 0 }));
}

#[test]
fn second_range_gets_second_memory_and_offset_wraps() {
    let a = sig("A");
    let b = sig("B");
    let addresses = vec![
        TypeAddress { signature: &a, address: 0xFFFF_FF00..0xFFFF_FFFF },
        TypeAddress { signature: &b, address: 0x0000_0000..0x0000_0010 },
    ];
    let mut t = Retargeter::new(&addresses);
    assert_eq!(t.visit(WasmInstr::I32Const(-1)), WasmInstr::I32Const(-1));
    // 0xFFFF_FFFF + 3 wraps to 2, inside the second range
    assert_eq!(
        t.visit(WasmInstr::Access(MemArg { offset: 3, memory: 0 })),
        WasmInstr::Access(MemArg { offset: 3, memory: 2 })
    );
    assert_eq!(t.carry, None);
}

#[test]
fn imports_name_each_type_in_order() {
    let a = sig("A");
    let b = TypeSignature::Opaque { ty: StableId::new("other", "B"), size: Some(4), align: Some(4), generics: vec![] };
    let addresses = vec![
        TypeAddress { signature: &a, address: 0..4 },
        TypeAddress { signature: &b, address: 4..8 },
    ];
    let imports = resource_imports(&addresses);
    assert_eq!(imports.len(), 2);
    assert_eq!(imports[0].module, RESOURCE_MODULE);
    assert_eq!(imports[0].module, "bevy");
    assert_eq!(imports[0].name, "my_mod::A");
    assert_eq!(imports[1].name, "other::B");
    assert_eq!(imports[1].min, 0);
    assert_eq!(imports[1].max, None);
    assert_eq!(imports[1].page_size_log2, 0);
}
