use rogue::common::archetype::Archetype;
use rogue::common::dyn_vec::{TypeInfo, TypeInfoCloneable};
use rogue::common::freelist::FreeListHandle;
use rogue::engine::entity::archetype::ComponentArchetype;
use rogue::engine::entity::ecs_world::Entity;

#[test]
fn component_archetype_sorts_types() {
    let a = ComponentArchetype::new(vec![TypeInfo::new(9, 4, 4), TypeInfo::new(2, 1, 1), TypeInfo::new(5, 2, 2)]);
    let ids: Vec<u64> = a.type_infos().iter().map(|t| t.type_id()).collect();
    assert_eq!(ids, vec![2, 5, 9]);
    assert!(a.has_type_id(5));
    assert!(!a.has_type_id(6));
    assert_eq!(a.len(), 0);
}

#[test]
fn component_archetype_insert_take() {
    let mut a = ComponentArchetype::new(vec![TypeInfo::new(1, 1, 1), TypeInfo::new(2, 2, 2)]);
    let e: Entity = FreeListHandle::new(4, 0);
    let slot = a.insert_raw(e, vec![vec![7], vec![8, 9]]);
    assert_eq!(slot, 0);
    assert_eq!(a.len(), 1);
    assert!(a.get_entity(0) == e);
    assert_eq!(a.get(&TypeInfo::new(2, 2, 2), 0), &[8, 9, 0, 0]);
    let taken = a.take_raw(0);
    assert_eq!(taken, vec![vec![7, 0], vec![8, 9, 0, 0]]);
    assert_eq!(a.len(), 0);
    // slots are not reused
    let slot2 = a.insert_raw(e, vec![vec![1], vec![2, 3]]);
    assert_eq!(slot2, 1);
}

#[test]
fn component_archetype_borrows() {
    let mut a = ComponentArchetype::new(vec![TypeInfo::new(1, 1, 1)]);
    let b = a.borrow_type(&1);
    assert!(b.is_readable());
    assert!(!b.is_writeabe());
    let mut c = ComponentArchetype::new(vec![TypeInfo::new(1, 1, 1)]);
    let w = c.borrow_type_mut(&1);
    assert!(!w.is_readable());
}

#[test]
fn archetype_insert_iterate_remove() {
    let ty = TypeInfoCloneable::new(1, 2, 2);
    let mut a = Archetype::new(vec![ty]);
    let h = FreeListHandle::<()>::new(0, 0);
    assert_eq!(a.insert(h, vec![(ty, vec![5, 6])]), 0);
    assert_eq!(a.get_raw(&ty, 0), &[5, 6]);
    assert_eq!(a.length(), 0); // one element divided by a size of two
    {
        let mut it = a.iter();
        let (gh, recs) = it.next().unwrap();
        assert!(gh == h);
        assert_eq!(recs.len(), 1);
        assert_eq!(recs[0].1, &[5, 6]);
        assert!(it.next().is_none());
    }
    a.remove(0);
    let mut it = a.iter();
    assert!(it.next().is_none());
}
