use rogue::common::freelist::{FreeList, FreeListHandle, FreeListNode};

#[test]
fn push_then_get() {
    let mut list: FreeList<u32> = FreeList::new();
    let a = list.push(10);
    let b = list.push(20);
    assert_eq!(a.index(), 0);
    assert_eq!(b.index(), 1);
    assert_eq!(a.generation(), 0);
    assert_eq!(list.get(a), Some(&10));
    assert_eq!(list.get(b), Some(&20));
}

#[test]
fn remove_then_push_reuses_slot() {
    let mut list: FreeList<u32> = FreeList::new();
    let a = list.push(10);
    let _b = list.push(20);
    assert_eq!(list.remove(a), 10);
    let next = list.next_free_handle();
    assert_eq!(next.index(), 0);
    let c = list.push(30);
    assert!(c == next);
    assert_eq!(list.get(c), Some(&30));
}

#[test]
fn next_free_handle_at_end() {
    let mut list: FreeList<&str> = FreeList::new();
    assert_eq!(list.next_free_handle().index(), 0);
    list.push("a");
    let h = list.next_free_handle();
    assert_eq!((h.index(), h.generation()), (1, 0));
}

#[test]
fn insert_in_place_grows_with_null_slots() {
    let mut list: FreeList<u32> = FreeList::new();
    list.insert_in_place(FreeListHandle::new(3, 7), 99);
    assert!(list.is_free(FreeListHandle::new(0, 0)));
    assert!(list.is_free(FreeListHandle::new(2, 0)));
    assert!(!list.is_free(FreeListHandle::new(3, 7)));
    assert_eq!(list.get(FreeListHandle::new(3, 7)), Some(&99));
    assert_eq!(list.get(FreeListHandle::new(1, 0)), None);
}

#[test]
fn set_overwrites() {
    let mut list: FreeList<u32> = FreeList::new();
    let a = list.push(1);
    list.set(FreeListHandle::new(a.index(), 5), 2);
    assert_eq!(list.get(a), Some(&2));
    let mut it = list.iter_with_handle();
    let (h, v) = it.next().unwrap();
    assert_eq!((h.index(), h.generation(), *v), (0, 5, 2));
    assert!(it.next().is_none());
}

#[test]
fn get_mut_changes_value() {
    let mut list: FreeList<u32> = FreeList::new();
    let a = list.push(1);
    *list.get_mut(a).unwrap() = 11;
    assert_eq!(list.get(a), Some(&11));
}

#[test]
fn iteration_skips_null_slots() {
    let mut list: FreeList<u32> = FreeList::new();
    list.insert_in_place(FreeListHandle::new(2, 0), 5);
    list.push(6);
    let mut it = list.iter();
    assert_eq!(it.next(), Some(&5));
    assert_eq!(it.next(), Some(&6));
    assert_eq!(it.next(), None);
}

#[test]
fn mutable_iteration_skips_freed_slots() {
    let mut list: FreeList<u32> = FreeList::new();
    let a = list.push(1);
    let _b = list.push(2);
    list.remove(a);
    let mut it = list.iter_with_handle_mut();
    let h = it.next(&list).unwrap();
    assert_eq!(h.index(), 1);
    assert!(it.next(&list).is_none());
}

#[test]
fn dangling_handle() {
    let d: FreeListHandle<u8> = FreeListHandle::dangling();
    assert!(d.is_null());
    assert!(!FreeListHandle::<u8>::new(0, 0).is_null());
    let u = FreeListHandle::<u8>::new(4, 2).as_untyped();
    assert_eq!((u.index(), u.generation()), (4, 2));
    let t: FreeListHandle<i64> = u.as_typed();
    assert_eq!(t.index(), 4);
}

#[test]
fn null_node() {
    let n: FreeListNode<u8> = FreeListNode::new_null();
    assert!(n.is_null());
}

#[test]
fn handle_walk_skips_only_freed_slots() {
    let mut list: FreeList<u32> = FreeList::new();
    list.insert_in_place(FreeListHandle::new(2, 0), 9);
    let mut it = list.iter_with_handle_mut();
    let hs: Vec<u32> = std::iter::from_fn(|| it.next(&list).map(|h| h.index())).collect();
    assert_eq!(hs, vec![0, 1, 2]);
}
