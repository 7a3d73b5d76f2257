use rogue::common::dyn_vec::TypeInfo;
use rogue::engine::entity::ecs_world::{ECSError, ECSWorld, Entity};

#[derive(Debug, PartialEq)]
struct SimpleComponent(f32);

fn simple_info() -> TypeInfo {
    TypeInfo::new(1, 4, 4)
}

fn simple_bytes(c: &SimpleComponent) -> Vec<u8> {
    c.0.to_ne_bytes().to_vec()
}

fn simple_from(bytes: &[u8]) -> SimpleComponent {
    SimpleComponent(f32::from_ne_bytes([bytes[0], bytes[1], bytes[2], bytes[3]]))
}

fn query_simple(ecs: &ECSWorld) -> Vec<((u32, u32), SimpleComponent)> {
    let archetypes = ecs.query_archetypes(&vec![simple_info().type_id()], &vec![]);
    let mut out = Vec::new();
    for &a in archetypes.iter().rev() {
        let mut members = Vec::new();
        let mut iter = ecs.entities.iter_with_handle();
        while let Some((entity, info)) = iter.next() {
            if info.archetype_ptr == a {
                members.push((info.index, entity));
            }
        }
        members.sort_by_key(|m| m.0);
        for (slot, entity) in members {
            let bytes = ecs.archetypes[a].get(&simple_info(), slot);
            out.push(((entity.index(), entity.generation()), simple_from(bytes)));
        }
    }
    out
}

#[test]
fn query_reads_archetypes_with_all_and_none_excluded() {
    let mut ecs = ECSWorld::new();
    let a = TypeInfo::new(1, 4, 4);
    let b = TypeInfo::new(2, 4, 4);
    let c = TypeInfo::new(3, 4, 4);
    ecs.spawn_raw(vec![(a, vec![0; 4])]);
    ecs.spawn_raw(vec![(a, vec![0; 4]), (b, vec![0; 4])]);
    ecs.spawn_raw(vec![(b, vec![0; 4]), (c, vec![0; 4])]);
    ecs.spawn_raw(vec![(a, vec![0; 4]), (c, vec![0; 4])]);
    assert_eq!(ecs.query_archetypes(&vec![1], &vec![]), vec![0, 1, 3]);
    assert_eq!(ecs.query_archetypes(&vec![1, 2], &vec![]), vec![1]);
    assert_eq!(ecs.query_archetypes(&vec![1], &vec![3]), vec![0, 1]);
    assert_eq!(ecs.query_archetypes(&vec![2], &vec![1]), vec![2]);
    assert_eq!(ecs.query_archetypes(&vec![], &vec![]), Vec::<usize>::new());
    assert_eq!(ecs.query_archetypes(&vec![4], &vec![]), Vec::<usize>::new());
}

#[test]
fn query_one_checks_the_entity_archetype() {
    let mut ecs = ECSWorld::new();
    let a = TypeInfo::new(1, 4, 4);
    let b = TypeInfo::new(2, 4, 4);
    let e0 = ecs.spawn_raw(vec![(a, vec![0; 4])]);
    let e1 = ecs.spawn_raw(vec![(a, vec![1; 4]), (b, vec![2; 4])]);
    let e2 = ecs.spawn_raw(vec![(a, vec![3; 4])]);
    assert_eq!(ecs.query_one(e2, &vec![1], &vec![]), Some(1));
    assert_eq!(ecs.query_one(e0, &vec![1, 2], &vec![]), None);
    assert_eq!(ecs.query_one(e1, &vec![1], &vec![2]), None);
    assert_eq!(ecs.query_one(e1, &vec![], &vec![]), Some(0));
}

#[test]
fn basic_test() {
    let mut ecs = ECSWorld::new();
    let e = ecs.spawn_raw(vec![(simple_info(), simple_bytes(&SimpleComponent(5.0)))]);

    // Get component directly;
    let Ok(component) = ecs.get(e, &simple_info()) else {
        panic!("Component should exist.");
    };
    assert_eq!(simple_from(component).0, 5.0);

    // Get component through iterative query;
    let mut component_query = query_simple(&ecs).into_iter();
    assert_eq!(component_query.next(), Some(((e.index(), e.generation()), SimpleComponent(5.0))));
    assert_eq!(component_query.next(), None);

    // Get component through single entity query;
    let Some(slot) = ecs.query_one(e, &vec![simple_info().type_id()], &vec![]) else {
        panic!("Component should exist");
    };
    let component = ecs.find_archetype(e).get(&simple_info(), slot);
    assert_eq!(simple_from(component).0, 5.0);
}

#[test]
fn spawn_sorts_components_and_shares_archetypes() {
    let mut ecs = ECSWorld::new();
    let a = TypeInfo::new(7, 1, 1);
    let b = TypeInfo::new(3, 2, 2);
    let e1 = ecs.spawn_raw(vec![(a, vec![11]), (b, vec![21, 22])]);
    let e2 = ecs.spawn_raw(vec![(b, vec![31, 32]), (a, vec![41])]);
    assert_eq!((e1.index(), e1.generation()), (0, 0));
    assert_eq!((e2.index(), e2.generation()), (1, 0));
    assert_eq!(ecs.archetypes.len(), 1);
    let ids: Vec<u64> = ecs.find_archetype(e1).type_infos().iter().map(|t| t.type_id()).collect();
    assert_eq!(ids, vec![3, 7]);
    assert_eq!(ecs.get(e1, &a), Ok(&[11u8, 0][..]));
    assert_eq!(ecs.get(e1, &b), Ok(&[21u8, 22, 0, 0][..]));
    assert_eq!(ecs.get(e2, &a), Ok(&[41u8, 0][..]));
    assert_eq!(ecs.get(e2, &b), Ok(&[31u8, 32, 0, 0][..]));
    assert_eq!(ecs.component_archetypes.get(&3), Some(&vec![0usize]));
    assert_eq!(ecs.component_archetypes.get(&7), Some(&vec![0usize]));
}

#[test]
fn get_missing_component_is_an_error() {
    let mut ecs = ECSWorld::new();
    let e = ecs.spawn_raw(vec![(simple_info(), simple_bytes(&SimpleComponent(1.5)))]);
    assert_eq!(ecs.get(e, &TypeInfo::new(2, 1, 1)), Err(ECSError::MissingComponent));
}

#[test]
fn insert_one_moves_entity_to_new_archetype() {
    let mut ecs = ECSWorld::new();
    let e = ecs.spawn_raw(vec![(simple_info(), simple_bytes(&SimpleComponent(2.0)))]);
    let other = ecs.spawn_raw(vec![(simple_info(), simple_bytes(&SimpleComponent(3.0)))]);
    let tag = TypeInfo::new(0, 1, 1);
    assert_eq!(ecs.insert_one(e, tag, vec![9]), Ok(()));
    assert_eq!(ecs.archetypes.len(), 2);
    let ids: Vec<u64> = ecs.find_archetype(e).type_infos().iter().map(|t| t.type_id()).collect();
    assert_eq!(ids, vec![0, 1]);
    assert_eq!(ecs.get(e, &tag), Ok(&[9u8, 0][..]));
    assert_eq!(simple_from(ecs.get(e, &simple_info()).unwrap()), SimpleComponent(2.0));
    assert_eq!(simple_from(ecs.get(other, &simple_info()).unwrap()), SimpleComponent(3.0));
    assert_eq!(ecs.get(other, &tag), Err(ECSError::MissingComponent));
    // the old archetype keeps one live entity
    assert_eq!(ecs.archetypes[0].len(), 1);
    assert_eq!(ecs.archetypes[1].len(), 1);
    assert_eq!(ecs.component_archetypes.get(&1), Some(&vec![0usize, 1]));
    assert_eq!(ecs.component_archetypes.get(&0), Some(&vec![1usize]));
}

#[test]
fn insert_one_replaces_existing_component() {
    let mut ecs = ECSWorld::new();
    let e = ecs.spawn_raw(vec![(simple_info(), simple_bytes(&SimpleComponent(2.0)))]);
    assert_eq!(ecs.insert_one(e, simple_info(), simple_bytes(&SimpleComponent(8.5))), Ok(()));
    assert_eq!(ecs.archetypes.len(), 1);
    assert_eq!(simple_from(ecs.get(e, &simple_info()).unwrap()), SimpleComponent(8.5));
}

#[test]
fn despawn_frees_the_slot_for_the_next_spawn() {
    let mut ecs = ECSWorld::new();
    let e1 = ecs.spawn_raw(vec![(simple_info(), simple_bytes(&SimpleComponent(1.0)))]);
    let e2 = ecs.spawn_raw(vec![(simple_info(), simple_bytes(&SimpleComponent(2.0)))]);
    ecs.despawn(e1);
    assert_eq!(ecs.archetypes[0].len(), 1);
    assert_eq!(query_simple(&ecs), vec![((e2.index(), e2.generation()), SimpleComponent(2.0))]);
    let next: Entity = ecs.entities.next_free_handle();
    assert_eq!((next.index(), next.generation()), (0, 0));
    let e3 = ecs.spawn_raw(vec![(simple_info(), simple_bytes(&SimpleComponent(3.0)))]);
    assert!(e3 == next);
    assert_eq!(simple_from(ecs.get(e3, &simple_info()).unwrap()), SimpleComponent(3.0));
    assert_eq!(simple_from(ecs.get(e2, &simple_info()).unwrap()), SimpleComponent(2.0));
}

#[test]
fn get_or_create_archetype_finds_existing() {
    let mut ecs = ECSWorld::new();
    let i1 = ecs.get_or_create_archetype(vec![TypeInfo::new(1, 1, 1), TypeInfo::new(2, 1, 1)]);
    let i2 = ecs.get_or_create_archetype(vec![TypeInfo::new(1, 1, 1)]);
    let i3 = ecs.get_or_create_archetype(vec![TypeInfo::new(1, 1, 1), TypeInfo::new(2, 1, 1)]);
    assert_eq!((i1, i2, i3), (0, 1, 0));
    assert_eq!(ecs.archetypes.len(), 2);
    assert_eq!(ecs.component_archetypes.get(&1), Some(&vec![0usize, 1]));
    assert_eq!(ecs.component_archetypes.get(&2), Some(&vec![0usize]));
}
