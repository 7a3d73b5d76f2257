use rogue::common::dyn_vec::{DynVec, DynVecCloneable, DynVecIter, TypeInfo, TypeInfoCloneable};

#[test]
fn type_info_stride_adds_leftover_alignment() {
    let t = TypeInfo::new(1, 6, 4);
    assert_eq!(t.stride(), 8);
    // A size that is already a multiple of the alignment gets a whole extra alignment.
    let u = TypeInfo::new(2, 8, 4);
    assert_eq!(u.stride(), 12);
    assert_eq!((u.type_id(), u.size(), u.alignment()), (2, 8, 4));
}

#[test]
fn type_info_cloneable_stride_rounds_up() {
    assert_eq!(TypeInfoCloneable::new(1, 6, 4).stride(), 8);
    assert_eq!(TypeInfoCloneable::new(1, 8, 4).stride(), 8);
    assert_eq!(TypeInfoCloneable::new(1, 0, 1).stride(), 0);
}

#[test]
fn type_info_equality_is_by_id() {
    assert!(TypeInfo::new(7, 1, 1) == TypeInfo::new(7, 4, 4));
    assert!(TypeInfo::new(7, 1, 1) != TypeInfo::new(8, 1, 1));
}

#[test]
fn dyn_vec_push_get_write() {
    let mut v = DynVec::new(TypeInfo::new(1, 2, 2));
    assert!(v.is_empty());
    v.push_unchecked(&[1, 2, 9]);
    v.push_unchecked(&[3, 4]);
    assert_eq!(v.len(), 2);
    // stride is 4: two value bytes and two zero padding bytes
    assert_eq!(v.get_bytes(0), &[1, 2, 0, 0]);
    assert_eq!(v.get_bytes(1), &[3, 4, 0, 0]);
    v.write_unchecked(0, &[7, 8]);
    assert_eq!(v.get_bytes(0), &[7, 8, 0, 0]);
    let mut it: DynVecIter<u16> = v.iter();
    assert_eq!(it.next(), Some(&[7u8, 8, 0, 0][..]));
    assert_eq!(it.next(), Some(&[3u8, 4, 0, 0][..]));
    assert_eq!(it.next(), None);
    v.clear();
    assert_eq!(v.len(), 0);
}

#[test]
fn dyn_vec_cloneable_clone_keeps_records() {
    let mut v = DynVecCloneable::new(TypeInfoCloneable::new(3, 3, 1));
    v.push_unchecked(&[1, 2, 3]);
    let w = v.clone();
    assert_eq!(w.len(), 1);
    assert_eq!(w.get_bytes(0), &[1, 2, 3]);
}
