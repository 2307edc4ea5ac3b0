use harmonize::ConstVec;

#[test]
fn into_slice() {
    let mut vec = ConstVec::<u8, 128>::from_slice(&[1, 2, 3]);
    assert!(vec.len() == 3);

    vec.push(4);
    assert_eq!(vec.len(), 4);
    assert_eq!(vec.into_slice(), &[1, 2, 3, 4]);
}

#[test]
fn append() {
    let mut vec = ConstVec::<u32, 4>::from_slice(&[1, 2]);
    vec.extend(ConstVec::<u32, 10>::from_slice(&[3, 4]));
    assert_eq!(vec.into_slice(), &[1, 2, 3, 4]);
}

#[test]
fn get_index() {
    let vec = ConstVec::<u32, 4>::from_slice(&[1, 2, 3, 4]);
    assert_eq!(vec.get(0), 1);
    assert_eq!(vec.get(1), 2);
    assert_eq!(vec.get(2), 3);
    assert_eq!(vec.get(3), 4);
}

#[test]
fn set_index() {
    let mut vec = ConstVec::<u32, 4>::from_slice(&[1, 2, 3, 4]);
    vec.set(0, 5);
    vec.set(1, 6);
    vec.set(2, 7);
    vec.set(3, 8);

    assert_eq!(vec.into_slice(), &[5, 6, 7, 8]);
}

#[test]
fn iter_walks_items_in_order() {
    let vec = ConstVec::<u32, 4>::from_slice(&[7, 8]);
    let mut it = vec.iter();
    assert_eq!(it.next(), Some(&7));
    assert_eq!(it.next(), Some(&8));
    assert_eq!(it.next(), None);
    assert!(ConstVec::<u32, 4>::new().len() == 0);
}
