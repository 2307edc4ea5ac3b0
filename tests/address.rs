use harmonize::{StableId, TypeAddress, TypeSignature};

fn new(ty: &StableId, size: Option<usize>, align: Option<usize>) -> TypeSignature {
    TypeSignature::Struct {
        ty: ty.clone(),
        size,
        align,
        generics: vec![],
        fields: vec![],
    }
}

#[test]
fn address_from_type_signatures() {
    let crate_name = "test_crate";
    let id1 = StableId::new(crate_name, "id1");
    let id2 = StableId::new(crate_name, "id2");
    let id3 = StableId::new(crate_name, "id3");
    let id4 = StableId::new(crate_name, "id4");
    let invalid = StableId::new(crate_name, "invalid");

    let types = vec![
        new(&id1, Some(256), Some(128)),
        new(&id2, Some(1), Some(1)),
        new(&id3, Some(32), Some(16)),
        new(&id4, Some(8), Some(8)),
        new(&invalid, None, None),
        new(&invalid, None, Some(4)),
        new(&invalid, Some(4), None),
        new(&invalid, Some(4), Some(0)),
        new(&invalid, Some(3), Some(3)),
        new(&invalid, Some(4), Some(8)),
        new(&invalid, Some(256), Some(256)),
    ];

    let addresses = TypeAddress::from_type_signatures(&types);
    assert_eq!(addresses.len(), 4);

    let lower = u32::MAX - 127 - 256;
    assert_eq!(addresses[0].signature.stable_id(), id1);
    assert_eq!(addresses[0].address, lower..lower + 256);

    let lower = u32::MAX - 127 - 256 - 1;
    assert_eq!(addresses[1].signature.stable_id(), id2);
    assert_eq!(addresses[1].address, lower..lower + 1);

    let lower = u32::MAX - 127 - 256 - 48;
    assert_eq!(addresses[2].signature.stable_id(), id3);
    assert_eq!(addresses[2].address, lower..lower + 32);

    let lower = u32::MAX - 127 - 256 - 48 - 8;
    assert_eq!(addresses[3].signature.stable_id(), id4);
    assert_eq!(addresses[3].address, lower..lower + 8);
}

fn single(size: usize, align: usize) -> usize {
    let id = StableId::new("c", "t");
    let types = vec![new(&id, Some(size), Some(align))];
    TypeAddress::from_type_signatures(&types).len()
}

#[test]
fn largest_alignment_is_accepted() {
    assert_eq!(single(128, 128), 1);
    assert_eq!(single(256, 256), 0);
}

#[test]
fn zero_size_or_alignment_is_rejected() {
    assert_eq!(single(0, 4), 0);
    assert_eq!(single(4, 0), 0);
    assert_eq!(single(0, 0), 0);
}

#[test]
fn alignment_that_is_no_power_of_two_is_rejected() {
    assert_eq!(single(3, 3), 0);
    assert_eq!(single(6, 3), 0);
}

#[test]
fn size_that_is_no_multiple_of_alignment_is_rejected() {
    assert_eq!(single(4, 8), 0);
    assert_eq!(single(12, 8), 0);
}

#[test]
fn container_kinds_get_no_address() {
    let id = StableId::new("c", "list");
    let types = vec![TypeSignature::List {
        ty: id.clone(),
        generics: vec![],
        item_ty: StableId::new("c", "u8"),
    }];
    assert!(TypeAddress::from_type_signatures(&types).is_empty());
}

#[test]
fn ranges_are_aligned_sized_disjoint_and_descending() {
    let sizes = [(4usize, 4usize), (3, 1), (16, 16), (64, 64), (2, 2), (128, 128), (24, 8)];
    let types: Vec<TypeSignature> = sizes
        .iter()
        .enumerate()
        .map(|(i, (s, a))| new(&StableId::new("c", &format!("t{}", i)), Some(*s), Some(*a)))
        .collect();
    let addresses = TypeAddress::from_type_signatures(&types);
    assert_eq!(addresses.len(), sizes.len());
    for (i, t) in addresses.iter().enumerate() {
        let (size, align) = sizes[i];
        assert_eq!((t.address.end - t.address.start) as usize, size);
        assert_eq!(t.address.start as usize % align, 0);
        if i + 1 < addresses.len() {
            let next = &addresses[i + 1];
            assert!(next.address.end <= t.address.start);
            assert!(t.address.end >= next.address.end);
        }
    }
}

#[test]
fn placement_rounds_down_to_alignment() {
    let types = vec![
        new(&StableId::new("c", "a"), Some(1), Some(1)),
        new(&StableId::new("c", "b"), Some(8), Some(8)),
    ];
    let addresses = TypeAddress::from_type_signatures(&types);
    assert_eq!(addresses[0].address, (u32::MAX - 1)..u32::MAX);
    assert_eq!(addresses[1].address, (u32::MAX - 15)..(u32::MAX - 7));
}
