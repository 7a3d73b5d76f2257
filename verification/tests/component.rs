use rogue::engine::entity::component::{ComponentBorrowMap, ComponentTypeBorrow};

#[test]
fn borrow_states() {
    let free = ComponentTypeBorrow::free();
    assert!(free.is_writeabe());
    assert!(free.is_readable());
    let read = free.inc();
    assert!(read.is_readable());
    assert!(!read.is_writeabe());
    assert!(read.unborrow() == free);
    let write = ComponentTypeBorrow::write_locked();
    assert!(!write.is_readable());
    assert!(!write.is_writeabe());
    assert!(write.unborrow() == free);
    assert!(free.unborrow() == free);
    assert!(ComponentTypeBorrow::from_raw(3).unborrow() == ComponentTypeBorrow::from_raw(2));
}

#[test]
fn borrow_map() {
    let mut m = ComponentBorrowMap::new();
    m.ensure_type_exists(&7);
    let b = m.borrow_type(&7);
    assert!(b == ComponentTypeBorrow::from_raw(1));
    let b2 = m.borrow_type(&7);
    assert!(b2 == ComponentTypeBorrow::from_raw(2));
    m.ensure_type_exists(&7);
    let b3 = m.borrow_type(&7);
    assert!(b3 == ComponentTypeBorrow::from_raw(3));
    m.ensure_type_exists(&8);
    let w = m.borrow_type_mut(&8);
    assert!(w == ComponentTypeBorrow::write_locked());
}
