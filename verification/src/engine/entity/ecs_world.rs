use vstd::prelude::*;
use std::collections::HashMap;

use crate::common::dyn_vec::{TypeInfo, record_of};
use crate::common::freelist::{
    FreeList, FreeListHandle, free_after_push, lookup_of, next_handle_of, nodes_after_push,
};
use crate::engine::entity::archetype::{
    ComponentArchetype, firsts, has_id, ids_of, infos_agree, lemma_map_same_multiset, lemma_type_index_of,
    sort_components, sorted_by_id, stored_all, type_index_of,
};
use crate::engine::event::EventReader;

verus! {

broadcast use vstd::std_specs::hash::group_hash_axioms, vstd::seq_lib::group_to_multiset_ensures,
    vstd::multiset::group_multiset_properties;

/// An entity: a handle into the world's list of entity infos.
pub type Entity = FreeListHandle<EntityInfo>;

/// The event that an entity is to be despawned.
pub struct EventEntityDespawn(pub Entity);

/// Where an entity's components live.
#[derive(Debug)]
pub struct EntityInfo {
    pub components: Vec<TypeInfo>,
    /// Index of the archetype.
    pub archetype_ptr: usize,
    /// Index in the archetype.
    pub index: usize,
}

/// Why a component lookup failed.
#[derive(Debug, PartialEq, Eq, Structural)]
pub enum ECSError {
    /// The entity does not have a component of the asked type.
    MissingComponent,
}

/// The entities of a game world and their components, stored by archetype:
/// all entities with the same set of component types share one archetype.
pub struct ECSWorld {
    pub archetypes: Vec<ComponentArchetype>,
    /// For each component type, the archetypes that hold it.
    pub component_archetypes: HashMap<u64, Vec<usize>>,
    pub entities: FreeList<EntityInfo>,
    pub despawn_event_reader: EventReader<EventEntityDespawn>,
}

/// The list kept for a type identifier, or the empty list.
pub open spec fn list_or_empty(m: Map<u64, Vec<usize>>, k: u64) -> Seq<usize> {
    if m.contains_key(k) {
        m[k]@
    } else {
        Seq::empty()
    }
}

/// Whether the two lists of type infos have the same identifiers, in order.
fn ids_match(a: &[TypeInfo], b: &[TypeInfo]) -> (r: bool)
    ensures
        r == (ids_of(a@) == ids_of(b@)),
{
    if a.len() != b.len() {
        proof {
            assert(ids_of(a@).len() != ids_of(b@).len());
        }
        return false;
    }
    let mut i: usize = 0;
    while i < a.len()
        invariant
            i <= a@.len(),
            a@.len() == b@.len(),
            forall|k: int| 0 <= k < i ==> a@[k].id() == b@[k].id(),
        decreases a@.len() - i,
    {
        if a[i].type_id() != b[i].type_id() {
            proof {
                assert(ids_of(a@)[i as int] != ids_of(b@)[i as int]);
            }
            return false;
        }
        i = i + 1;
    }
    assert(ids_of(a@) =~= ids_of(b@));
    true
}

/// Some archetype has types with exactly these identifiers, in order.
pub open spec fn has_archetype_of(archetypes: Seq<ComponentArchetype>, ids: Seq<u64>) -> bool {
    exists|a: int| 0 <= a < archetypes.len() && ids_of((#[trigger] archetypes[a]).type_seq()) == ids
}

/// The archetype whose types have the identifiers of `type_infos`, in order,
/// made and appended when there is none yet; gives its index. A new
/// archetype is listed under each of its type identifiers.
pub fn get_or_create_archetype_static(
    archetypes: &mut Vec<ComponentArchetype>,
    component_archetypes: &mut HashMap<u64, Vec<usize>>,
    type_infos: Vec<TypeInfo>,
) -> (r: usize)
    requires
        sorted_by_id(type_infos@),
        infos_agree(type_infos@, type_infos@),
    ensures
        has_archetype_of(old(archetypes)@, ids_of(type_infos@)) ==> {
            &&& r < old(archetypes)@.len()
            &&& ids_of(old(archetypes)@[r as int].type_seq()) == ids_of(type_infos@)
            &&& forall|a: int| 0 <= a < r ==> ids_of((#[trigger] old(archetypes)@[a]).type_seq()) != ids_of(type_infos@)
            &&& final(archetypes)@ == old(archetypes)@
            &&& final(component_archetypes)@ == old(component_archetypes)@
        },
        !has_archetype_of(old(archetypes)@, ids_of(type_infos@)) ==> {
            &&& r == old(archetypes)@.len()
            &&& final(archetypes)@.len() == r + 1
            &&& forall|a: int| 0 <= a < r ==> #[trigger] final(archetypes)@[a] == old(archetypes)@[a]
            &&& final(archetypes)@[r as int].wf()
            &&& final(archetypes)@[r as int].type_seq() == type_infos@
            &&& final(archetypes)@[r as int].entities() == Seq::<(u32, u32)>::empty()
            &&& final(archetypes)@[r as int].slot_count() == 0
            &&& final(archetypes)@[r as int].live_count() == 0
            &&& final(archetypes)@[r as int].borrow_states() == Seq::new(type_infos@.len(), |i: int| 0u32)
            &&& forall|k: u64|
                #[trigger] final(component_archetypes)@.contains_key(k) <==> (old(component_archetypes)@.contains_key(k)
                    || ids_of(type_infos@).contains(k))
            &&& forall|k: u64|
                #[trigger] final(component_archetypes)@.contains_key(k) ==> final(component_archetypes)@[k]@
                    == list_or_empty(old(component_archetypes)@, k) + Seq::new(
                    ids_of(type_infos@).to_multiset().count(k),
                    |j: int| r,
                )
        },
{
    let mut a: usize = 0;
    while a < archetypes.len()
        invariant
            a <= archetypes@.len(),
            archetypes@ == old(archetypes)@,
            component_archetypes@ == old(component_archetypes)@,
            forall|b: int| 0 <= b < a ==> ids_of((#[trigger] archetypes@[b]).type_seq()) != ids_of(type_infos@),
        decreases archetypes@.len() - a,
    {
        if ids_match(archetypes[a].type_infos(), type_infos.as_slice()) {
            return a;
        }
        a = a + 1;
    }
    let last_index = archetypes.len();
    let ghost ids = ids_of(type_infos@);
    proof {
        assert(ids.subrange(0, 0).to_multiset() =~= vstd::multiset::Multiset::<u64>::empty());
        assert forall|k: u64| #[trigger] component_archetypes@.contains_key(k) implies component_archetypes@[k]@
            == list_or_empty(old(component_archetypes)@, k) + Seq::new(
            ids.subrange(0, 0).to_multiset().count(k),
            |x: int| last_index,
        ) by {
            assert(list_or_empty(old(component_archetypes)@, k) + Seq::new(
                ids.subrange(0, 0).to_multiset().count(k),
                |x: int| last_index,
            ) =~= component_archetypes@[k]@);
        }
    }
    let mut j: usize = 0;
    while j < type_infos.len()
        invariant
            j <= type_infos@.len(),
            ids == ids_of(type_infos@),
            last_index == archetypes@.len(),
            archetypes@ == old(archetypes)@,
            !has_archetype_of(old(archetypes)@, ids),
            forall|k: u64|
                #[trigger] component_archetypes@.contains_key(k) <==> (old(component_archetypes)@.contains_key(k)
                    || ids.subrange(0, j as int).contains(k)),
            forall|k: u64|
                #[trigger] component_archetypes@.contains_key(k) ==> component_archetypes@[k]@ == list_or_empty(
                    old(component_archetypes)@,
                    k,
                ) + Seq::new(ids.subrange(0, j as int).to_multiset().count(k), |x: int| last_index),
        decreases type_infos@.len() - j,
    {
        let id = type_infos[j].type_id();
        let ghost before = component_archetypes@;
        let mut list: Vec<usize> = match component_archetypes.get(&id) {
            Some(v) => v.clone(),
            None => Vec::new(),
        };
        proof {
            assert(list@ == list_or_empty(before, id)) by {
                if before.contains_key(id) {
                    assert(list@ =~= before[id]@);
                }
            }
        }
        list.push(last_index);
        component_archetypes.insert(id, list);
        proof {
            let pre = ids.subrange(0, j as int);
            let post = ids.subrange(0, j + 1);
            assert(post =~= pre.push(id));
            assert(post.to_multiset() =~= pre.to_multiset().insert(id));
            assert forall|k: u64| #[trigger] component_archetypes@.contains_key(k) <==> (old(
                component_archetypes,
            )@.contains_key(k) || post.contains(k)) by {
                if k != id {
                    assert(post.contains(k) <==> pre.contains(k)) by {
                        if post.contains(k) {
                            let w = choose|w: int| 0 <= w < post.len() && post[w] == k;
                            assert(pre[w] == k);
                        }
                        if pre.contains(k) {
                            let w = choose|w: int| 0 <= w < pre.len() && pre[w] == k;
                            assert(post[w] == k);
                        }
                    }
                } else {
                    assert(post[j as int] == k);
                }
            }
            assert forall|k: u64| #[trigger] component_archetypes@.contains_key(k) implies component_archetypes@[k]@
                == list_or_empty(old(component_archetypes)@, k) + Seq::new(
                post.to_multiset().count(k),
                |x: int| last_index,
            ) by {
                if k == id {
                    if before.contains_key(id) {
                        assert(list_or_empty(old(component_archetypes)@, k) + Seq::new(
                            post.to_multiset().count(k),
                            |x: int| last_index,
                        ) =~= (list_or_empty(old(component_archetypes)@, k) + Seq::new(
                            pre.to_multiset().count(k),
                            |x: int| last_index,
                        )).push(last_index));
                    } else {
                        assert(!pre.contains(k));
                        assert(pre.to_multiset().count(k) == 0);
                        assert(!old(component_archetypes)@.contains_key(k));
                        assert(list_or_empty(old(component_archetypes)@, k) + Seq::new(
                            post.to_multiset().count(k),
                            |x: int| last_index,
                        ) =~= seq![last_index]);
                    }
                } else {
                    assert(component_archetypes@[k] == before[k]);
                }
            }
        }
        j = j + 1;
    }
    proof {
        assert(ids.subrange(0, type_infos@.len() as int) =~= ids);
    }
    let archetype = ComponentArchetype::new(type_infos);
    proof {
        archetype.lemma_types_sorted();
        let t = archetype.type_seq();
        let f = |x: TypeInfo| x.id();
        crate::engine::entity::archetype::lemma_map_same_multiset(t, type_infos@, f);
        assert(ids_of(t) =~= t.map_values(f));
        crate::engine::entity::archetype::lemma_ascending_unique(ids_of(t), ids);
        assert forall|c: int| 0 <= c < t.len() implies #[trigger] t[c] == type_infos@[c] by {
            assert(ids_of(t)[c] == ids[c]);
            assert(t.contains(t[c]));
            assert(t.to_multiset().count(t[c]) > 0);
            assert(type_infos@.contains(t[c]));
            let k = choose|k: int| 0 <= k < type_infos@.len() && type_infos@[k] == t[c];
            assert(type_infos@[k].id() == type_infos@[c].id());
        }
        assert(t =~= type_infos@);
    }
    archetypes.push(archetype);
    last_index
}

/// Where a type with identifier `id` goes among types in identifier order:
/// after the leading types whose identifiers are below it.
pub open spec fn insertion_point(s: Seq<TypeInfo>, id: u64) -> int
    decreases s.len(),
{
    if s.len() == 0 {
        0
    } else if s[0].id() < id {
        1 + insertion_point(s.drop_first(), id)
    } else {
        0
    }
}

/// The position where the identifier goes among the type infos, which are
/// in identifier order.
fn find_insertion_point(s: &Vec<TypeInfo>, id: u64) -> (r: usize)
    ensures
        r == insertion_point(s@, id),
        r <= s@.len(),
        forall|k: int| 0 <= k < r ==> (#[trigger] s@[k]).id() < id,
        r < s@.len() ==> s@[r as int].id() >= id,
{
    let n = s.len();
    let mut p: usize = 0;
    proof {
        assert(s@.subrange(0, n as int) =~= s@);
    }
    while p < n && s[p].type_id() < id
        invariant
            p <= n,
            n == s@.len(),
            forall|k: int| 0 <= k < p ==> (#[trigger] s@[k]).id() < id,
            insertion_point(s@, id) == p + insertion_point(s@.subrange(p as int, n as int), id),
        decreases n - p,
    {
        proof {
            let sub = s@.subrange(p as int, n as int);
            assert(sub[0] == s@[p as int]);
            assert(sub.drop_first() =~= s@.subrange(p + 1, n as int));
        }
        p = p + 1;
    }
    proof {
        let sub = s@.subrange(p as int, n as int);
        if p < n {
            assert(sub[0] == s@[p as int]);
        }
    }
    p
}

impl ECSWorld {
    /// Slot `i` of the entity list holds an entity.
    pub open spec fn live_at(&self, i: int) -> bool {
        0 <= i < self.entities.nodes().len() && lookup_of(self.entities.nodes(), i) is Some
    }

    /// The entity is in the world.
    pub open spec fn is_live(&self, entity: Entity) -> bool {
        self.live_at(entity@.0 as int)
    }

    /// The info of the entity in slot `i`.
    pub open spec fn info_at(&self, i: int) -> EntityInfo {
        lookup_of(self.entities.nodes(), i)->Some_0
    }

    /// The archetype of the entity in slot `i`.
    pub open spec fn archetype_at(&self, i: int) -> ComponentArchetype {
        self.archetypes@[self.info_at(i).archetype_ptr as int]
    }

    /// The component types of the entity in slot `i`, in identifier order.
    pub open spec fn types_at(&self, i: int) -> Seq<TypeInfo> {
        self.archetype_at(i).type_seq()
    }

    /// The record of the component number `c` of the entity in slot `i`.
    pub open spec fn record_at(&self, i: int, c: int) -> Seq<u8> {
        self.archetype_at(i).record(c, self.info_at(i).index as int)
    }

    /// The components of the entity in slot `i`: each type with its record.
    pub open spec fn components_at(&self, i: int) -> Seq<(TypeInfo, Seq<u8>)> {
        self.archetype_at(i).slot_pairs(self.info_at(i).index as int)
    }

    /// The type infos agree with those of every archetype.
    pub open spec fn agrees_with(&self, infos: Seq<TypeInfo>) -> bool {
        forall|a: int| 0 <= a < self.archetypes@.len() ==> infos_agree(infos, (#[trigger] self.archetypes@[a]).type_seq())
    }

    /// Room for one more entity in any archetype: a new slot index fits in a
    /// handle, and one more record fits in every column.
    pub open spec fn has_room(&self) -> bool {
        &&& self.entities.nodes().len() < u32::MAX
        &&& forall|a: int| 0 <= a < self.archetypes@.len() ==> #[trigger] self.has_room_at(a)
    }

    /// One more record fits in every column of archetype `a`.
    pub open spec fn has_room_at(&self, a: int) -> bool {
        &&& self.archetypes@[a].slot_count() + 1 < usize::MAX
        &&& forall|c: int|
            0 <= c < self.archetypes@[a].type_seq().len() ==> (self.archetypes@[a].slot_count() + 1) * (
            #[trigger] self.archetypes@[a].type_seq()[c]).stride_spec() <= usize::MAX
    }

    /// The entity of slot `i` sits in the slot of its archetype that its
    /// info names, and that slot names it back.
    pub closed spec fn placed(&self, i: int) -> bool {
        let info = self.info_at(i);
        &&& info.archetype_ptr < self.archetypes@.len()
        &&& info.index < self.archetypes@[info.archetype_ptr as int].slot_count()
        &&& self.archetypes@[info.archetype_ptr as int].entities()[info.index as int].0 == i as u32
        &&& info.components@ == self.archetypes@[info.archetype_ptr as int].type_seq()
    }

    /// Every archetype holding a type is listed under the type's identifier,
    /// and every listed archetype exists.
    pub closed spec fn index_complete(&self) -> bool {
        &&& forall|a: int, c: int|
            0 <= a < self.archetypes@.len() && 0 <= c < self.archetypes@[a].type_seq().len() ==> {
                &&& self.component_archetypes@.contains_key((#[trigger] self.archetypes@[a].type_seq()[c]).id())
                &&& self.component_archetypes@[self.archetypes@[a].type_seq()[c].id()]@.contains(a as usize)
            }
        &&& forall|k: u64, j: int|
            self.component_archetypes@.contains_key(k) && 0 <= j < self.component_archetypes@[k]@.len()
                ==> #[trigger] self.component_archetypes@[k]@[j] < self.archetypes@.len()
    }

    /// The world's invariant.
    pub closed spec fn wf(&self) -> bool {
        &&& self.entities.wf()
        &&& self.entities.nodes().len() <= u32::MAX
        &&& forall|i: int| 0 <= i < self.entities.nodes().len() ==> (#[trigger] self.entities.nodes()[i]).0 == 0
        &&& self.entities.free_stack().no_duplicates()
        &&& forall|j: int| 0 <= j < self.entities.free_stack().len() ==> !self.live_at(
            #[trigger] self.entities.free_stack()[j] as int,
        )
        &&& forall|a: int| 0 <= a < self.archetypes@.len() ==> (#[trigger] self.archetypes@[a]).wf()
        &&& forall|a: int, b: int|
            0 <= a < self.archetypes@.len() && 0 <= b < self.archetypes@.len() ==> infos_agree(
                (#[trigger] self.archetypes@[a]).type_seq(),
                (#[trigger] self.archetypes@[b]).type_seq(),
            )
        &&& forall|i: int| #[trigger] self.live_at(i) ==> self.placed(i)
        &&& self.index_complete()
    }

    /// An empty world.
    pub fn new() -> (r: Self)
        ensures
            r.wf(),
            r.archetypes@.len() == 0,
            r.entities.nodes().len() == 0,
            r.component_archetypes@ == Map::<u64, Vec<usize>>::empty(),
            r.entities.free_stack() == Seq::<usize>::empty(),
            r.despawn_event_reader.last_read() == 0,
    {
        let r = ECSWorld {
            archetypes: Vec::new(),
            component_archetypes: HashMap::new(),
            entities: FreeList::new(),
            despawn_event_reader: EventReader::new(),
        };
        assert(r.component_archetypes@ =~= Map::<u64, Vec<usize>>::empty());
        r
    }

    /// The archetype whose types have the identifiers of `type_infos`, in
    /// order, made and appended when there is none yet; gives its index.
    pub fn get_or_create_archetype(&mut self, type_infos: Vec<TypeInfo>) -> (r: usize)
        requires
            old(self).wf(),
            sorted_by_id(type_infos@),
            infos_agree(type_infos@, type_infos@),
            old(self).agrees_with(type_infos@),
        ensures
            final(self).wf(),
            final(self).entities == old(self).entities,
            r < final(self).archetypes@.len(),
            final(self).archetypes@[r as int].type_seq() == type_infos@,
            forall|a: int| 0 <= a < old(self).archetypes@.len() ==> #[trigger] final(self).archetypes@[a] == old(self).archetypes@[a],
            has_archetype_of(old(self).archetypes@, ids_of(type_infos@)) ==> {
                &&& forall|a: int| 0 <= a < r ==> ids_of((#[trigger] old(self).archetypes@[a]).type_seq()) != ids_of(type_infos@)
                &&& final(self).archetypes@ == old(self).archetypes@
                &&& final(self).component_archetypes@ == old(self).component_archetypes@
            },
            !has_archetype_of(old(self).archetypes@, ids_of(type_infos@)) ==> {
                &&& r == old(self).archetypes@.len()
                &&& final(self).archetypes@.len() == r + 1
                &&& final(self).archetypes@[r as int].entities() == Seq::<(u32, u32)>::empty()
                &&& final(self).archetypes@[r as int].slot_count() == 0
                &&& final(self).archetypes@[r as int].live_count() == 0
                &&& final(self).archetypes@[r as int].borrow_states() == Seq::new(type_infos@.len(), |i: int| 0u32)
                &&& forall|k: u64|
                    #[trigger] final(self).component_archetypes@.contains_key(k) ==> final(self).component_archetypes@[k]@
                        == list_or_empty(old(self).component_archetypes@, k) + Seq::new(
                        ids_of(type_infos@).to_multiset().count(k),
                        |j: int| r,
                    )
            },
    {
        let ghost t = type_infos@;
        let r = get_or_create_archetype_static(&mut self.archetypes, &mut self.component_archetypes, type_infos);
        proof {
            if has_archetype_of(old(self).archetypes@, ids_of(t)) {
                let arch = old(self).archetypes@[r as int];
                Self::lemma_wf_same_views(old(self), self);
                assert(infos_agree(t, old(self).archetypes@[r as int].type_seq()));
                arch.lemma_types_sorted();
                assert(arch.type_seq().len() == t.len()) by {
                    assert(ids_of(arch.type_seq()).len() == ids_of(t).len());
                }
                assert forall|c: int| 0 <= c < t.len() implies #[trigger] arch.type_seq()[c] == t[c] by {
                    assert(ids_of(arch.type_seq())[c] == ids_of(t)[c]);
                    assert(arch.type_seq()[c].id() == t[c].id());
                }
                assert(arch.type_seq() =~= t);
            } else {
                Self::lemma_wf_after_new_archetype(old(self), self, t);
            }
        }
        r
    }

    /// A world whose parts have the same views as a well-formed one is well formed.
    proof fn lemma_wf_same_views(w0: &Self, w1: &Self)
        requires
            w0.wf(),
            w1.entities == w0.entities,
            w1.archetypes@ == w0.archetypes@,
            w1.component_archetypes@ == w0.component_archetypes@,
        ensures
            w1.wf(),
    {
        assert forall|i: int| #[trigger] w1.live_at(i) implies w1.placed(i) by {
            assert(w0.live_at(i));
            assert(w0.placed(i));
        }
    }

    /// Appending an empty archetype, listed under its type identifiers,
    /// keeps the world well formed.
    proof fn lemma_wf_after_new_archetype(w0: &Self, w1: &Self, t: Seq<TypeInfo>)
        requires
            w0.wf(),
            infos_agree(t, t),
            w0.agrees_with(t),
            w1.entities == w0.entities,
            w1.archetypes@.len() == w0.archetypes@.len() + 1,
            forall|a: int| 0 <= a < w0.archetypes@.len() ==> #[trigger] w1.archetypes@[a] == w0.archetypes@[a],
            w1.archetypes@[w0.archetypes@.len() as int].wf(),
            w1.archetypes@[w0.archetypes@.len() as int].type_seq() == t,
            forall|k: u64|
                #[trigger] w1.component_archetypes@.contains_key(k) <==> (w0.component_archetypes@.contains_key(k)
                    || ids_of(t).contains(k)),
            forall|k: u64|
                #[trigger] w1.component_archetypes@.contains_key(k) ==> w1.component_archetypes@[k]@
                    == list_or_empty(w0.component_archetypes@, k) + Seq::new(
                    ids_of(t).to_multiset().count(k),
                    |j: int| w0.archetypes@.len() as usize,
                ),
        ensures
            w1.wf(),
    {
        let n = w0.archetypes@.len() as int;
        assert forall|a: int, b: int|
            0 <= a < w1.archetypes@.len() && 0 <= b < w1.archetypes@.len() implies infos_agree(
            (#[trigger] w1.archetypes@[a]).type_seq(),
            (#[trigger] w1.archetypes@[b]).type_seq(),
        ) by {
            if a < n && b < n {
                assert(infos_agree(w0.archetypes@[a].type_seq(), w0.archetypes@[b].type_seq()));
            } else if a < n {
                assert(infos_agree(t, w0.archetypes@[a].type_seq()));
            } else if b < n {
                assert(infos_agree(t, w0.archetypes@[b].type_seq()));
            }
        }
        assert forall|i: int| #[trigger] w1.live_at(i) implies w1.placed(i) by {
            assert(w0.live_at(i));
            assert(w0.placed(i));
        }
        assert forall|a: int, c: int|
            0 <= a < w1.archetypes@.len() && 0 <= c < w1.archetypes@[a].type_seq().len() implies {
            &&& w1.component_archetypes@.contains_key((#[trigger] w1.archetypes@[a].type_seq()[c]).id())
            &&& w1.component_archetypes@[w1.archetypes@[a].type_seq()[c].id()]@.contains(a as usize)
        } by {
            let k = w1.archetypes@[a].type_seq()[c].id();
            if a < n {
                assert(w0.component_archetypes@.contains_key(k));
                let l0 = w0.component_archetypes@[k]@;
                assert(l0.contains(a as usize));
                let w = choose|w: int| 0 <= w < l0.len() && l0[w] == a as usize;
                assert(w1.component_archetypes@.contains_key(k));
                assert(list_or_empty(w0.component_archetypes@, k) == l0);
                let tail = Seq::new(ids_of(t).to_multiset().count(k), |j: int| w0.archetypes@.len() as usize);
                assert(w1.component_archetypes@[k]@ == l0 + tail);
                assert((l0 + tail)[w] == l0[w]);
                assert(w1.component_archetypes@[k]@.contains(a as usize));
            } else {
                assert(ids_of(t)[c] == k);
                assert(ids_of(t).contains(k));
                assert(ids_of(t).to_multiset().count(k) > 0);
                let l0 = list_or_empty(w0.component_archetypes@, k);
                assert(w1.component_archetypes@.contains_key(k));
                let tail = Seq::new(ids_of(t).to_multiset().count(k), |j: int| w0.archetypes@.len() as usize);
                assert(w1.component_archetypes@[k]@ == l0 + tail);
                assert((l0 + tail)[l0.len() as int] == tail[0]);
                assert(w1.component_archetypes@[k]@.contains(a as usize));
            }
        }
        assert forall|k: u64, j: int|
            w1.component_archetypes@.contains_key(k) && 0 <= j < w1.component_archetypes@[k]@.len()
                implies #[trigger] w1.component_archetypes@[k]@[j] < w1.archetypes@.len() by {
            let l0 = list_or_empty(w0.component_archetypes@, k);
            if j < l0.len() {
                assert(w0.component_archetypes@.contains_key(k));
                assert(w1.component_archetypes@[k]@[j] == w0.component_archetypes@[k]@[j]);
            }
        }
    }

    /// Every element of a permutation of components is one of the originals.
    proof fn lemma_perm_members(s1: Seq<(TypeInfo, Vec<u8>)>, s2: Seq<(TypeInfo, Vec<u8>)>)
        requires
            s1.to_multiset() == s2.to_multiset(),
        ensures
            forall|c: int| 0 <= c < s2.len() ==> s1.contains(#[trigger] s2[c]),
    {
        assert forall|c: int| 0 <= c < s2.len() implies s1.contains(#[trigger] s2[c]) by {
            assert(s2.contains(s2[c]));
            assert(s2.to_multiset().count(s2[c]) > 0);
            assert(s1.contains(s2[c]));
            let k = choose|k: int| 0 <= k < s1.len() && s1[k] == s2[c];
            assert(s1[k] == s2[c]);
        }
    }

    /// Takes the components (type info and bytes, in any order) and spawns an
    /// entity with them, in the archetype of their types, made when there is
    /// none yet; gives the entity, the handle that `next_free_handle` named.
    pub fn spawn_raw(&mut self, data: Vec<(TypeInfo, Vec<u8>)>) -> (r: Entity)
        requires
            old(self).wf(),
            old(self).has_room(),
            infos_agree(firsts(data@), firsts(data@)),
            old(self).agrees_with(firsts(data@)),
            forall|k: int| 0 <= k < data@.len() ==> (#[trigger] data@[k]).1@.len() >= data@[k].0.size_spec(),
        ensures
            final(self).wf(),
            r@ == next_handle_of(old(self).entities.nodes(), old(self).entities.free_stack()),
            !old(self).live_at(r@.0 as int),
            final(self).is_live(r),
            sorted_by_id(final(self).types_at(r@.0 as int)),
            final(self).components_at(r@.0 as int).to_multiset() == stored_all(data@).to_multiset(),
            forall|i: int| i != r@.0 ==> #[trigger] final(self).live_at(i) == old(self).live_at(i),
            forall|i: int|
                i != r@.0 && old(self).live_at(i) ==> #[trigger] final(self).components_at(i)
                    == old(self).components_at(i),
    {
        let ghost orig = data@;
        let mut data = data;
        sort_components(&mut data);
        let ghost sorted = data@;
        let mut type_infos: Vec<TypeInfo> = Vec::new();
        let mut k: usize = 0;
        while k < data.len()
            invariant
                k <= data@.len(),
                data@ == sorted,
                type_infos@ == firsts(sorted).subrange(0, k as int),
            decreases data@.len() - k,
        {
            type_infos.push(data[k].0);
            k = k + 1;
            assert(type_infos@ =~= firsts(sorted).subrange(0, k as int));
        }
        proof {
            assert(type_infos@ =~= firsts(sorted));
            Self::lemma_perm_members(orig, sorted);
            let t = type_infos@;
            assert forall|c: int, d: int| 0 <= c < t.len() && 0 <= d < t.len() && (#[trigger] t[c]).id() == (#[trigger] t[d]).id() implies t[c] == t[d] by {
                let kc = choose|k: int| 0 <= k < orig.len() && orig[k] == sorted[c];
                let kd = choose|k: int| 0 <= k < orig.len() && orig[k] == sorted[d];
                assert(firsts(orig)[kc] == t[c]);
                assert(firsts(orig)[kd] == t[d]);
            }
            assert forall|a: int| 0 <= a < self.archetypes@.len() implies infos_agree(t, (#[trigger] self.archetypes@[a]).type_seq()) by {
                assert(infos_agree(firsts(orig), self.archetypes@[a].type_seq()));
                assert forall|c: int, d: int| 0 <= c < t.len() && 0 <= d < self.archetypes@[a].type_seq().len() && (#[trigger] t[c]).id() == (#[trigger] self.archetypes@[a].type_seq()[d]).id() implies t[c] == self.archetypes@[a].type_seq()[d] by {
                    let kc = choose|k: int| 0 <= k < orig.len() && orig[k] == sorted[c];
                    assert(firsts(orig)[kc] == t[c]);
                }
            }
        }
        let entity_id = self.entities.next_free_handle();
        let archetype_ptr = self.get_or_create_archetype(type_infos.clone());
        let ghost w1 = *self;
        proof {
            assert forall|c: int| 0 <= c < sorted.len() implies (#[trigger] sorted[c]).1@.len() >= sorted[c].0.size_spec() by {
                let kc = choose|k: int| 0 <= k < orig.len() && orig[k] == sorted[c];
                assert(orig[kc] == sorted[c]);
            }
            assert(firsts(sorted) == self.archetypes@[archetype_ptr as int].type_seq());
            assert(self.archetypes@[archetype_ptr as int].wf());
            assert(self.has_room_at(archetype_ptr as int)) by {
                if archetype_ptr < old(self).archetypes@.len() {
                    assert(self.archetypes@[archetype_ptr as int] == old(self).archetypes@[archetype_ptr as int]);
                    assert(old(self).has_room_at(archetype_ptr as int));
                } else {
                    assert(self.archetypes@[archetype_ptr as int].slot_count() == 0);
                    assert forall|c: int| 0 <= c < self.archetypes@[archetype_ptr as int].type_seq().len() implies
                        (self.archetypes@[archetype_ptr as int].slot_count() + 1) * (#[trigger] self.archetypes@[archetype_ptr as int].type_seq()[c]).stride_spec() <= usize::MAX by {
                        let st = self.archetypes@[archetype_ptr as int].type_seq()[c].stride_spec();
                        assert((0 + 1) * st == st) by (nonlinear_arith);
                    }
                }
            }
        }
        let archetype_index = self.archetypes[archetype_ptr].insert(entity_id, data);
        let info = EntityInfo { components: type_infos, archetype_ptr, index: archetype_index };
        let ghost ginfo = info;
        let ghost w2 = *self;
        let _pushed = self.entities.push(info);
        proof {
            let g = |p: (TypeInfo, Vec<u8>)|
                (p.0, record_of(p.1@, p.0.size_spec() as nat, p.0.stride_spec() as nat));
            lemma_map_same_multiset(sorted, orig, g);
            assert(stored_all(sorted) =~= sorted.map_values(g));
            assert(stored_all(orig) =~= orig.map_values(g));
            Self::lemma_wf_after_spawn(old(self), &w1, self, entity_id, archetype_ptr, archetype_index, ginfo);
        }
        entity_id
    }

    /// Storing a new entity in a fresh slot of an archetype and in the next
    /// free slot of the entity list keeps the world well formed and leaves the
    /// other entities as they were.
    proof fn lemma_wf_after_spawn(
        w0: &Self,
        w1: &Self,
        w2: &Self,
        entity: Entity,
        ptr: usize,
        index: usize,
        info: EntityInfo,
    )
        requires
            w0.wf(),
            w0.has_room(),
            w1.wf(),
            w1.entities == w0.entities,
            w0.archetypes@.len() <= w1.archetypes@.len(),
            forall|a: int| 0 <= a < w0.archetypes@.len() ==> #[trigger] w1.archetypes@[a] == w0.archetypes@[a],
            entity@ == next_handle_of(w0.entities.nodes(), w0.entities.free_stack()),
            ptr < w1.archetypes@.len(),
            index == w1.archetypes@[ptr as int].slot_count(),
            w2.archetypes@.len() == w1.archetypes@.len(),
            forall|a: int| 0 <= a < w1.archetypes@.len() && a != ptr ==> #[trigger] w2.archetypes@[a] == w1.archetypes@[a],
            w2.archetypes@[ptr as int].wf(),
            w2.archetypes@[ptr as int].type_seq() == w1.archetypes@[ptr as int].type_seq(),
            w2.archetypes@[ptr as int].entities() == w1.archetypes@[ptr as int].entities().push(entity@),
            w2.archetypes@[ptr as int].slot_count() == index + 1,
            forall|c: int, s: int|
                0 <= c < w1.archetypes@[ptr as int].type_seq().len() && 0 <= s < index ==> #[trigger] w2.archetypes@[ptr as int].record(c, s)
                    == w1.archetypes@[ptr as int].record(c, s),
            w2.component_archetypes@ == w1.component_archetypes@,
            w2.entities.wf(),
            w2.entities.nodes() == nodes_after_push(w1.entities.nodes(), w1.entities.free_stack(), info),
            w2.entities.free_stack() == free_after_push(w1.entities.free_stack()),
            info.components@ == w1.archetypes@[ptr as int].type_seq(),
            info.archetype_ptr == ptr,
            info.index == index,
        ensures
            w2.wf(),
            !w0.live_at(entity@.0 as int),
            w2.live_at(entity@.0 as int),
            forall|i: int| i != entity@.0 ==> #[trigger] w2.live_at(i) == w0.live_at(i),
            forall|i: int| i != entity@.0 && w0.live_at(i) ==> #[trigger] w2.components_at(i) == w0.components_at(i),
            w2.types_at(entity@.0 as int) == w1.archetypes@[ptr as int].type_seq(),
            w2.components_at(entity@.0 as int) == w2.archetypes@[ptr as int].slot_pairs(index as int),
    {
        let e = entity@.0 as int;
        let n0 = w0.entities.nodes();
        let f0 = w0.entities.free_stack();
        let n2 = w2.entities.nodes();
        w1.archetypes@[ptr as int].lemma_entities_len();
        if f0.len() > 0 {
            assert(e == f0.last() as int);
            assert(f0[f0.len() - 1] == f0.last());
            assert(!w0.live_at(f0[f0.len() - 1] as int));
            assert(n2 == n0.update(e, (n0[e].0, Some(info))));
        } else {
            assert(e == n0.len());
            assert(n2 == n0.push((0u32, Some(info))));
        }
        assert(n2.len() <= u32::MAX);
        assert(entity@.1 == 0);
        assert forall|i: int| i != e implies #[trigger] w2.live_at(i) == w0.live_at(i) by {
            if 0 <= i < n0.len() {
                assert(n2[i] == n0[i]);
            }
        }
        assert(n2[e] == (0u32, Some(info)));
        assert(w2.live_at(e));
        assert(w2.info_at(e) == info);
        assert forall|i: int| 0 <= i < n2.len() implies (#[trigger] n2[i]).0 == 0 by {
            if i != e {
                assert(n2[i] == n0[i]);
            }
        }
        let f2 = w2.entities.free_stack();
        assert(f2.no_duplicates()) by {
            assert forall|x: int, y: int| 0 <= x < f2.len() && 0 <= y < f2.len() && x != y implies f2[x] != f2[y] by {
                assert(f2[x] == f0[x] && f2[y] == f0[y]);
            }
        }
        assert forall|j: int| 0 <= j < f2.len() implies !w2.live_at(#[trigger] f2[j] as int) by {
            assert(f2[j] == f0[j]);
            assert(!w0.live_at(f0[j] as int));
            if f0.len() > 0 {
                assert(f0[j] != f0[f0.len() - 1]);
            }
        }
        assert forall|a: int| 0 <= a < w2.archetypes@.len() implies (#[trigger] w2.archetypes@[a]).wf() by {
            if a != ptr as int {
                assert(w1.archetypes@[a].wf());
            }
        }
        assert forall|a: int| 0 <= a < w2.archetypes@.len() implies (#[trigger] w2.archetypes@[a]).type_seq() == w1.archetypes@[a].type_seq() by {
        }
        assert forall|a: int, b: int|
            0 <= a < w2.archetypes@.len() && 0 <= b < w2.archetypes@.len() implies infos_agree(
            (#[trigger] w2.archetypes@[a]).type_seq(),
            (#[trigger] w2.archetypes@[b]).type_seq(),
        ) by {
            assert(infos_agree(w1.archetypes@[a].type_seq(), w1.archetypes@[b].type_seq()));
        }
        assert forall|i: int| #[trigger] w2.live_at(i) implies w2.placed(i) && (i != e ==> w2.components_at(i) == w0.components_at(i)) by {
            if i == e {
                w2.archetypes@[ptr as int].lemma_entities_len();
                assert(w2.archetypes@[ptr as int].entities()[index as int] == entity@);
                assert(entity@.0 as int == e);
            } else {
                assert(w0.live_at(i));
                assert(w0.placed(i));
                assert(w2.info_at(i) == w0.info_at(i)) by {
                    assert(n2[i] == n0[i]);
                }
                let inf = w0.info_at(i);
                assert(w1.archetypes@[inf.archetype_ptr as int] == w0.archetypes@[inf.archetype_ptr as int]);
                if inf.archetype_ptr == ptr {
                    assert(w2.archetypes@[ptr as int].entities()[inf.index as int] == w1.archetypes@[ptr as int].entities()[inf.index as int]);
                    assert(w2.components_at(i) =~= w0.components_at(i));
                } else {
                    assert(w2.archetypes@[inf.archetype_ptr as int] == w1.archetypes@[inf.archetype_ptr as int]);
                }
            }
        }
        assert(w2.index_complete()) by {
            assert(w1.index_complete());
            assert forall|a: int, c: int|
                0 <= a < w2.archetypes@.len() && 0 <= c < w2.archetypes@[a].type_seq().len() implies {
                    &&& w2.component_archetypes@.contains_key((#[trigger] w2.archetypes@[a].type_seq()[c]).id())
                    &&& w2.component_archetypes@[w2.archetypes@[a].type_seq()[c].id()]@.contains(a as usize)
                } by {
                assert(w2.archetypes@[a].type_seq() == w1.archetypes@[a].type_seq());
                assert(w1.archetypes@[a].type_seq()[c] == w2.archetypes@[a].type_seq()[c]);
            }
        }
    }

    /// Overwriting one record of an entity keeps the world well formed and
    /// leaves the other entities as they were.
    proof fn lemma_wf_after_write(w0: &Self, w1: &Self, e: int, ptr: usize, index: usize, col: int)
        requires
            w0.wf(),
            w0.live_at(e),
            w0.info_at(e).archetype_ptr == ptr,
            w0.info_at(e).index == index,
            w1.entities == w0.entities,
            w1.component_archetypes@ == w0.component_archetypes@,
            w1.archetypes@.len() == w0.archetypes@.len(),
            forall|a: int| 0 <= a < w0.archetypes@.len() && a != ptr ==> #[trigger] w1.archetypes@[a] == w0.archetypes@[a],
            w1.archetypes@[ptr as int].wf(),
            w1.archetypes@[ptr as int].type_seq() == w0.archetypes@[ptr as int].type_seq(),
            w1.archetypes@[ptr as int].entities() == w0.archetypes@[ptr as int].entities(),
            w1.archetypes@[ptr as int].slot_count() == w0.archetypes@[ptr as int].slot_count(),
            forall|c: int, s: int|
                0 <= c < w0.archetypes@[ptr as int].type_seq().len() && 0 <= s < w0.archetypes@[ptr as int].slot_count() && (c != col
                    || s != index) ==> #[trigger] w1.archetypes@[ptr as int].record(c, s) == w0.archetypes@[ptr as int].record(c, s),
        ensures
            w1.wf(),
            forall|i: int| #[trigger] w1.live_at(i) == w0.live_at(i),
            forall|i: int| i != e && w0.live_at(i) ==> #[trigger] w1.components_at(i) == w0.components_at(i),
            w1.info_at(e) == w0.info_at(e),
    {
        assert(w0.placed(e));
        assert forall|a: int| 0 <= a < w1.archetypes@.len() implies (#[trigger] w1.archetypes@[a]).wf() && w1.archetypes@[a].type_seq() == w0.archetypes@[a].type_seq() by {
            if a != ptr as int {
                assert(w1.archetypes@[a] == w0.archetypes@[a]);
            }
        }
        assert forall|a: int, b: int|
            0 <= a < w1.archetypes@.len() && 0 <= b < w1.archetypes@.len() implies infos_agree(
            (#[trigger] w1.archetypes@[a]).type_seq(),
            (#[trigger] w1.archetypes@[b]).type_seq(),
        ) by {
            assert(infos_agree(w0.archetypes@[a].type_seq(), w0.archetypes@[b].type_seq()));
        }
        assert forall|i: int| #[trigger] w1.live_at(i) implies w1.placed(i) && (i != e ==> w1.components_at(i) == w0.components_at(i)) by {
            assert(w0.live_at(i));
            assert(w0.placed(i));
            let inf = w0.info_at(i);
            if inf.archetype_ptr == ptr {
                if i != e {
                    if inf.index == index {
                        assert(w0.archetypes@[ptr as int].entities()[index as int].0 == i as u32);
                        assert(w0.archetypes@[ptr as int].entities()[index as int].0 == e as u32);
                    }
                    assert(w1.components_at(i) =~= w0.components_at(i));
                }
            } else {
                assert(w1.archetypes@[inf.archetype_ptr as int] == w0.archetypes@[inf.archetype_ptr as int]);
            }
        }
        assert(w1.index_complete()) by {
            assert(w0.index_complete());
            assert forall|a: int, c: int|
                0 <= a < w1.archetypes@.len() && 0 <= c < w1.archetypes@[a].type_seq().len() implies {
                    &&& w1.component_archetypes@.contains_key((#[trigger] w1.archetypes@[a].type_seq()[c]).id())
                    &&& w1.component_archetypes@[w1.archetypes@[a].type_seq()[c].id()]@.contains(a as usize)
                } by {
                assert(w0.archetypes@[a].type_seq()[c] == w1.archetypes@[a].type_seq()[c]);
            }
        }
    }

    /// Moving an entity's records from its archetype to another keeps the
    /// world well formed and leaves the other entities as they were.
    proof fn lemma_wf_after_move(
        w0: &Self,
        w1: &Self,
        w2: &Self,
        entity: Entity,
        ptr: usize,
        index: usize,
        new_ptr: usize,
        new_index: usize,
        info: EntityInfo,
    )
        requires
            w0.wf(),
            w0.is_live(entity),
            w0.info_at(entity@.0 as int).archetype_ptr == ptr,
            w0.info_at(entity@.0 as int).index == index,
            w1.wf(),
            w1.entities == w0.entities,
            w0.archetypes@.len() <= w1.archetypes@.len(),
            forall|a: int| 0 <= a < w0.archetypes@.len() ==> #[trigger] w1.archetypes@[a] == w0.archetypes@[a],
            new_ptr < w1.archetypes@.len(),
            new_ptr != ptr,
            new_index == w1.archetypes@[new_ptr as int].slot_count(),
            w2.archetypes@.len() == w1.archetypes@.len(),
            forall|a: int|
                0 <= a < w1.archetypes@.len() && a != ptr && a != new_ptr ==> #[trigger] w2.archetypes@[a] == w1.archetypes@[a],
            w2.archetypes@[ptr as int].wf(),
            w2.archetypes@[ptr as int].type_seq() == w1.archetypes@[ptr as int].type_seq(),
            w2.archetypes@[ptr as int].entities() == w1.archetypes@[ptr as int].entities().update(index as int, (u32::MAX, u32::MAX)),
            w2.archetypes@[ptr as int].slot_count() == w1.archetypes@[ptr as int].slot_count(),
            forall|c: int, s: int| #[trigger] w2.archetypes@[ptr as int].record(c, s) == w1.archetypes@[ptr as int].record(c, s),
            w2.archetypes@[new_ptr as int].wf(),
            w2.archetypes@[new_ptr as int].type_seq() == w1.archetypes@[new_ptr as int].type_seq(),
            w2.archetypes@[new_ptr as int].entities() == w1.archetypes@[new_ptr as int].entities().push(entity@),
            w2.archetypes@[new_ptr as int].slot_count() == new_index + 1,
            forall|c: int, s: int|
                0 <= c < w1.archetypes@[new_ptr as int].type_seq().len() && 0 <= s < new_index ==> #[trigger] w2.archetypes@[new_ptr as int].record(c, s)
                    == w1.archetypes@[new_ptr as int].record(c, s),
            w2.component_archetypes@ == w1.component_archetypes@,
            w2.entities.wf(),
            w2.entities.nodes() == w1.entities.nodes().update(
                entity@.0 as int,
                (w1.entities.nodes()[entity@.0 as int].0, Some(info)),
            ),
            w2.entities.free_stack() == w1.entities.free_stack(),
            info.components@ == w1.archetypes@[new_ptr as int].type_seq(),
            info.archetype_ptr == new_ptr,
            info.index == new_index,
        ensures
            w2.wf(),
            forall|i: int| #[trigger] w2.live_at(i) == w0.live_at(i),
            forall|i: int| i != entity@.0 && w0.live_at(i) ==> #[trigger] w2.components_at(i) == w0.components_at(i),
            w2.info_at(entity@.0 as int) == info,
    {
        let e = entity@.0 as int;
        let n0 = w0.entities.nodes();
        let n2 = w2.entities.nodes();
        assert(w0.placed(e));
        w1.archetypes@[ptr as int].lemma_entities_len();
        w1.archetypes@[new_ptr as int].lemma_entities_len();
        assert forall|i: int| #[trigger] w2.live_at(i) == w0.live_at(i) by {
            if 0 <= i < n0.len() && i != e {
                assert(n2[i] == n0[i]);
            }
        }
        assert forall|i: int| 0 <= i < n2.len() implies (#[trigger] n2[i]).0 == 0 by {
            if i != e {
                assert(n2[i] == n0[i]);
            }
        }
        assert forall|j: int| 0 <= j < w2.entities.free_stack().len() implies !w2.live_at(
            #[trigger] w2.entities.free_stack()[j] as int,
        ) by {
            assert(!w0.live_at(w0.entities.free_stack()[j] as int));
        }
        assert(w2.info_at(e) == info);
        assert forall|a: int| 0 <= a < w2.archetypes@.len() implies (#[trigger] w2.archetypes@[a]).wf() && w2.archetypes@[a].type_seq() == w1.archetypes@[a].type_seq() by {
            if a != ptr as int && a != new_ptr as int {
                assert(w2.archetypes@[a] == w1.archetypes@[a]);
            }
        }
        assert forall|a: int, b: int|
            0 <= a < w2.archetypes@.len() && 0 <= b < w2.archetypes@.len() implies infos_agree(
            (#[trigger] w2.archetypes@[a]).type_seq(),
            (#[trigger] w2.archetypes@[b]).type_seq(),
        ) by {
            assert(infos_agree(w1.archetypes@[a].type_seq(), w1.archetypes@[b].type_seq()));
        }
        assert forall|i: int| #[trigger] w2.live_at(i) implies w2.placed(i) && (i != e ==> w2.components_at(i) == w0.components_at(i)) by {
            if i == e {
                assert(w2.archetypes@[new_ptr as int].entities()[new_index as int] == entity@);
            } else {
                assert(w0.live_at(i));
                assert(w0.placed(i));
                assert(w2.info_at(i) == w0.info_at(i)) by {
                    assert(n2[i] == n0[i]);
                }
                let inf = w0.info_at(i);
                assert(w1.archetypes@[inf.archetype_ptr as int] == w0.archetypes@[inf.archetype_ptr as int]);
                if inf.archetype_ptr == ptr {
                    if inf.index == index {
                        assert(w0.archetypes@[ptr as int].entities()[index as int].0 == i as u32);
                        assert(w0.archetypes@[ptr as int].entities()[index as int].0 == e as u32);
                    }
                    assert(w2.archetypes@[ptr as int].entities()[inf.index as int] == w1.archetypes@[ptr as int].entities()[inf.index as int]);
                    assert(w2.components_at(i) =~= w0.components_at(i));
                } else if inf.archetype_ptr == new_ptr {
                    assert(w2.archetypes@[new_ptr as int].entities()[inf.index as int] == w1.archetypes@[new_ptr as int].entities()[inf.index as int]);
                    assert(w2.components_at(i) =~= w0.components_at(i));
                } else {
                    assert(w2.archetypes@[inf.archetype_ptr as int] == w1.archetypes@[inf.archetype_ptr as int]);
                }
            }
        }
        assert(w2.index_complete()) by {
            assert(w1.index_complete());
            assert forall|a: int, c: int|
                0 <= a < w2.archetypes@.len() && 0 <= c < w2.archetypes@[a].type_seq().len() implies {
                    &&& w2.component_archetypes@.contains_key((#[trigger] w2.archetypes@[a].type_seq()[c]).id())
                    &&& w2.component_archetypes@[w2.archetypes@[a].type_seq()[c].id()]@.contains(a as usize)
                } by {
                assert(w1.archetypes@[a].type_seq()[c] == w2.archetypes@[a].type_seq()[c]);
            }
        }
    }

    /// Gives the entity the component (type info and bytes), replacing the
    /// one of the same type. A new type moves the entity, with its other
    /// components, to the archetype of its new set of types.
    #[verifier::spinoff_prover]
    #[verifier::rlimit(40)]
    pub fn insert_one(&mut self, entity_id: Entity, type_info: TypeInfo, component: Vec<u8>) -> (r: Result<(), ECSError>)
        requires
            old(self).wf(),
            old(self).is_live(entity_id),
            old(self).has_room(),
            old(self).agrees_with(seq![type_info]),
            component@.len() >= type_info.size_spec(),
        ensures
            r is Ok,
            final(self).wf(),
            final(self).is_live(entity_id),
            has_id(final(self).types_at(entity_id@.0 as int), type_info.id()),
            final(self).record_at(
                entity_id@.0 as int,
                type_index_of(final(self).types_at(entity_id@.0 as int), type_info.id()),
            ).subrange(0, type_info.size_spec() as int) == component@.subrange(0, type_info.size_spec() as int),
            forall|i: int| #[trigger] final(self).live_at(i) == old(self).live_at(i),
            forall|i: int|
                i != entity_id@.0 && old(self).live_at(i) ==> #[trigger] final(self).components_at(i)
                    == old(self).components_at(i),
            ({
                let e = entity_id@.0 as int;
                let t0 = old(self).types_at(e);
                let col = type_index_of(t0, type_info.id());
                has_id(t0, type_info.id()) ==> {
                    &&& final(self).types_at(e) == t0
                    &&& final(self).record_at(e, col) == component@.subrange(0, type_info.size_spec() as int)
                        + old(self).record_at(e, col).subrange(type_info.size_spec() as int, type_info.stride_spec() as int)
                    &&& forall|c: int| 0 <= c < t0.len() && c != col ==> #[trigger] final(self).record_at(e, c) == old(self).record_at(e, c)
                }
            }),
            ({
                let e = entity_id@.0 as int;
                let t0 = old(self).types_at(e);
                let p = insertion_point(t0, type_info.id());
                !has_id(t0, type_info.id()) ==> {
                    &&& final(self).types_at(e) == t0.insert(p, type_info)
                    &&& final(self).record_at(e, p) == record_of(component@, type_info.size_spec() as nat, type_info.stride_spec() as nat)
                    &&& forall|c: int| 0 <= c < p ==> #[trigger] final(self).record_at(e, c) == record_of(
                        old(self).record_at(e, c),
                        t0[c].size_spec() as nat,
                        t0[c].stride_spec() as nat,
                    )
                    &&& forall|c: int| p < c <= t0.len() ==> #[trigger] final(self).record_at(e, c) == record_of(
                        old(self).record_at(e, c - 1),
                        t0[c - 1].size_spec() as nat,
                        t0[c - 1].stride_spec() as nat,
                    )
                }
            }),
    {
        let ghost e = entity_id@.0 as int;
        let entity_info = self.entities.get(entity_id).unwrap();
        let ptr = entity_info.archetype_ptr;
        let index = entity_info.index;
        let old_type_infos = entity_info.components.clone();
        let ghost t0 = old(self).types_at(e);
        proof {
            assert(self.placed(e));
            assert(old_type_infos@ =~= t0);
            self.archetypes@[ptr as int].lemma_types_sorted();
            assert(infos_agree(seq![type_info], t0));
        }
        if self.archetypes[ptr].has_type_id(type_info.type_id()) {
            proof {
                let col = type_index_of(t0, type_info.id());
                lemma_type_index_of(t0, type_info.id());
                assert(seq![type_info][0] == type_info);
                assert(t0[col].id() == type_info.id());
                assert(t0[col] == type_info);
            }
            self.archetypes[ptr].write_component(&type_info, index, component.as_slice());
            proof {
                let col = type_index_of(t0, type_info.id());
                Self::lemma_wf_after_write(old(self), self, e, ptr, index, col);
                self.archetypes@[ptr as int].lemma_record_len(col, index as int);
                old(self).archetypes@[ptr as int].lemma_record_len(col, index as int);
                assert(self.types_at(e) == t0);
                let rec = self.record_at(e, col);
                let size = type_info.size_spec() as int;
                assert(rec.subrange(0, size) =~= component@.subrange(0, size));
            }
            return Ok(());
        }
        let p = find_insertion_point(&old_type_infos, type_info.type_id());
        let mut new_type_infos = old_type_infos;
        new_type_infos.insert(p, type_info);
        let ghost t1 = new_type_infos@;
        proof {
            assert(t1 =~= t0.insert(p as int, type_info));
            assert(sorted_by_id(t1)) by {
                assert forall|a: int, b: int| 0 <= a < b < t1.len() implies t1[a].id() <= t1[b].id() by {
                    if b < p {
                    } else if b == p {
                    } else if a < p {
                        assert(t1[b] == t0[b - 1]);
                        if p < t0.len() {
                            assert(t0[p as int].id() <= t0[b - 1].id());
                        }
                    } else if a == p {
                        assert(t1[b] == t0[b - 1]);
                        assert(t0[p as int].id() <= t0[b - 1].id());
                    } else {
                        assert(t1[a] == t0[a - 1] && t1[b] == t0[b - 1]);
                    }
                }
            }
            assert(infos_agree(t0, t0)) by {
                assert(infos_agree(old(self).archetypes@[ptr as int].type_seq(), old(self).archetypes@[ptr as int].type_seq()));
            }
            assert forall|x: int| 0 <= x < t1.len() implies (#[trigger] t1[x]) == type_info || (exists|y: int| 0 <= y < t0.len() && t0[y] == t1[x]) by {
                if x < p {
                    assert(t0[x] == t1[x]);
                } else if x > p {
                    assert(t0[x - 1] == t1[x]);
                }
            }
            assert forall|a: int| 0 <= a < self.archetypes@.len() implies infos_agree(t1, (#[trigger] self.archetypes@[a]).type_seq()) by {
                let ta = self.archetypes@[a].type_seq();
                assert(infos_agree(seq![type_info], ta));
                assert(infos_agree(t0, ta)) by {
                    assert(infos_agree(old(self).archetypes@[ptr as int].type_seq(), ta));
                }
                assert forall|x: int, y: int| 0 <= x < t1.len() && 0 <= y < ta.len() && (#[trigger] t1[x]).id() == (#[trigger] ta[y]).id() implies t1[x] == ta[y] by {
                    if t1[x] == type_info {
                        assert(seq![type_info][0] == t1[x]);
                    } else {
                        let z = choose|z: int| 0 <= z < t0.len() && t0[z] == t1[x];
                    }
                }
            }
            assert(infos_agree(t1, t1)) by {
                assert forall|x: int, y: int| 0 <= x < t1.len() && 0 <= y < t1.len() && (#[trigger] t1[x]).id() == (#[trigger] t1[y]).id() implies t1[x] == t1[y] by {
                    if t1[x] == type_info && t1[y] == type_info {
                    } else if t1[x] == type_info {
                        let zy = choose|z: int| 0 <= z < t0.len() && t0[z] == t1[y];
                        assert(seq![type_info][0] == t1[x]);
                    } else if t1[y] == type_info {
                        let zx = choose|z: int| 0 <= z < t0.len() && t0[z] == t1[x];
                        assert(seq![type_info][0] == t1[y]);
                    } else {
                        let zx = choose|z: int| 0 <= z < t0.len() && t0[z] == t1[x];
                        let zy = choose|z: int| 0 <= z < t0.len() && t0[z] == t1[y];
                    }
                }
            }
        }
        let new_ptr = self.get_or_create_archetype(new_type_infos.clone());
        let ghost w1 = *self;
        proof {
            assert(self.archetypes@[ptr as int] == old(self).archetypes@[ptr as int]);
            assert(new_ptr != ptr) by {
                if new_ptr == ptr {
                    assert(t1.len() == t0.len() + 1);
                }
            }
            self.archetypes@[ptr as int].lemma_entities_len();
        }
        let mut new_ptrs = self.archetypes[ptr].take_raw(index);
        let ghost taken = new_ptrs@;
        new_ptrs.insert(p, component);
        proof {
            let na = self.archetypes@[new_ptr as int];
            assert(na == w1.archetypes@[new_ptr as int]);
            assert(na.type_seq() == t1);
            assert forall|c: int| 0 <= c < new_ptrs@.len() implies (#[trigger] new_ptrs@[c])@.len() >= na.type_seq()[c].size_spec() by {
                if c < p {
                    assert(new_ptrs@[c] == taken[c]);
                    w1.archetypes@[ptr as int].lemma_record_len(c, index as int);
                } else if c > p {
                    assert(new_ptrs@[c] == taken[c - 1]);
                    w1.archetypes@[ptr as int].lemma_record_len(c - 1, index as int);
                }
            }
            assert(w1.has_room_at(new_ptr as int)) by {
                if new_ptr < old(self).archetypes@.len() {
                    assert(old(self).has_room_at(new_ptr as int));
                } else {
                    assert forall|c: int| 0 <= c < na.type_seq().len() implies (na.slot_count() + 1) * (#[trigger] na.type_seq()[c]).stride_spec() <= usize::MAX by {
                        let st = na.type_seq()[c].stride_spec();
                        assert((0 + 1) * st == st) by (nonlinear_arith);
                    }
                }
            }
        }
        let new_index = self.archetypes[new_ptr].insert_raw(entity_id, new_ptrs);
        let info = EntityInfo { components: new_type_infos, archetype_ptr: new_ptr, index: new_index };
        let ghost ginfo = info;
        match self.entities.get_mut(entity_id) {
            Some(slot) => {
                *slot = info;
            },
            None => {},
        }
        proof {
            Self::lemma_wf_after_move(old(self), &w1, self, entity_id, ptr, index, new_ptr, new_index, ginfo);
            assert(self.types_at(e) == t1);
            assert(t1[p as int] == type_info);
            assert(has_id(t1, type_info.id()));
            lemma_type_index_of(t1, type_info.id());
            let q = type_index_of(t1, type_info.id());
            if q < p {
                assert(t1[q] == t0[q]);
            }
            assert(q == p);
            let size = type_info.size_spec() as int;
            assert(record_of(component@, type_info.size_spec() as nat, type_info.stride_spec() as nat).subrange(0, size)
                =~= component@.subrange(0, size));
        }
        Ok(())
    }

    /// Removes the entity and drops its components; its slot in the entity
    /// list is freed for the next spawn.
    pub fn despawn(&mut self, entity: Entity)
        requires
            old(self).wf(),
            old(self).is_live(entity),
        ensures
            final(self).wf(),
            !final(self).is_live(entity),
            final(self).archetypes@.len() == old(self).archetypes@.len(),
            final(self).entities.free_stack() == old(self).entities.free_stack().push(entity@.0 as usize),
            forall|i: int| i != entity@.0 ==> #[trigger] final(self).live_at(i) == old(self).live_at(i),
            forall|i: int|
                i != entity@.0 && old(self).live_at(i) ==> #[trigger] final(self).components_at(i)
                    == old(self).components_at(i),
    {
        let entity_info = self.entities.get(entity).unwrap();
        let ptr = entity_info.archetype_ptr;
        let index = entity_info.index;
        let ghost e = entity@.0 as int;
        proof {
            assert(old(self).placed(e));
        }
        self.archetypes[ptr].remove(index);
        self.entities.remove(entity);
        proof {
            let w0 = old(self);
            assert forall|i: int| i != e implies #[trigger] self.live_at(i) == w0.live_at(i) by {
                if 0 <= i < self.entities.nodes().len() {
                    assert(self.entities.nodes()[i] == w0.entities.nodes()[i]);
                }
            }
            assert forall|i: int| 0 <= i < self.entities.nodes().len() implies (#[trigger] self.entities.nodes()[i]).0 == 0 by {
                if i != e {
                    assert(self.entities.nodes()[i] == w0.entities.nodes()[i]);
                } else {
                    assert(w0.entities.nodes()[e].0 == 0);
                }
            }
            assert(!self.live_at(e));
            assert(!w0.entities.free_stack().contains(e as usize)) by {
                if w0.entities.free_stack().contains(e as usize) {
                    let j = choose|j: int| 0 <= j < w0.entities.free_stack().len() && w0.entities.free_stack()[j] == e as usize;
                    assert(!w0.live_at(w0.entities.free_stack()[j] as int));
                }
            }
            assert(self.entities.free_stack().no_duplicates()) by {
                let fs = self.entities.free_stack();
                assert forall|x: int, y: int| 0 <= x < fs.len() && 0 <= y < fs.len() && x != y implies fs[x] != fs[y] by {
                    if x == fs.len() - 1 {
                        assert(w0.entities.free_stack()[y] == fs[y]);
                    } else if y == fs.len() - 1 {
                        assert(w0.entities.free_stack()[x] == fs[x]);
                    } else {
                        assert(w0.entities.free_stack()[x] == fs[x]);
                        assert(w0.entities.free_stack()[y] == fs[y]);
                    }
                }
            }
            assert forall|j: int| 0 <= j < self.entities.free_stack().len() implies !self.live_at(
                #[trigger] self.entities.free_stack()[j] as int,
            ) by {
                if j < w0.entities.free_stack().len() {
                    assert(self.entities.free_stack()[j] == w0.entities.free_stack()[j]);
                    assert(!w0.live_at(w0.entities.free_stack()[j] as int));
                }
            }
            assert forall|a: int| 0 <= a < self.archetypes@.len() implies (#[trigger] self.archetypes@[a]).wf() by {
                if a != ptr as int {
                    assert(self.archetypes@[a] == w0.archetypes@[a]);
                }
            }
            assert forall|a: int| 0 <= a < self.archetypes@.len() implies (#[trigger] self.archetypes@[a]).type_seq() == w0.archetypes@[a].type_seq() by {
                if a != ptr as int {
                    assert(self.archetypes@[a] == w0.archetypes@[a]);
                }
            }
            assert forall|i: int| #[trigger] self.live_at(i) implies self.placed(i) && self.components_at(i) == w0.components_at(i) by {
                assert(i != e);
                assert(w0.live_at(i));
                assert(w0.placed(i));
                assert(self.info_at(i) == w0.info_at(i)) by {
                    assert(self.entities.nodes()[i] == w0.entities.nodes()[i]);
                }
                let info = w0.info_at(i);
                if info.archetype_ptr == ptr {
                    if info.index == index {
                        assert(w0.archetypes@[ptr as int].entities()[index as int].0 == i as u32);
                        assert(w0.archetypes@[ptr as int].entities()[index as int].0 == e as u32);
                        assert(false);
                    }
                    w0.archetypes@[ptr as int].lemma_entities_len();
                    assert(self.archetypes@[ptr as int].entities()[info.index as int] == w0.archetypes@[ptr as int].entities()[info.index as int]);
                    assert(self.components_at(i) =~= w0.components_at(i));
                } else {
                    assert(self.archetypes@[info.archetype_ptr as int] == w0.archetypes@[info.archetype_ptr as int]);
                }
            }
            assert forall|i: int| i != e && w0.live_at(i) implies #[trigger] self.components_at(i) == w0.components_at(i) by {
                assert(self.live_at(i));
            }
            assert(self.index_complete()) by {
                assert forall|a: int, c: int|
                    0 <= a < self.archetypes@.len() && 0 <= c < self.archetypes@[a].type_seq().len() implies {
                        &&& self.component_archetypes@.contains_key((#[trigger] self.archetypes@[a].type_seq()[c]).id())
                        &&& self.component_archetypes@[self.archetypes@[a].type_seq()[c].id()]@.contains(a as usize)
                    } by {
                    assert(self.archetypes@[a].type_seq() == w0.archetypes@[a].type_seq());
                    assert(w0.archetypes@[a].type_seq()[c] == self.archetypes@[a].type_seq()[c]);
                }
            }
            assert forall|a: int, b: int|
                0 <= a < self.archetypes@.len() && 0 <= b < self.archetypes@.len() implies infos_agree(
                (#[trigger] self.archetypes@[a]).type_seq(),
                (#[trigger] self.archetypes@[b]).type_seq(),
            ) by {
                assert(infos_agree(w0.archetypes@[a].type_seq(), w0.archetypes@[b].type_seq()));
            }
        }
    }

    /// The archetype that holds the entity's components, for writing.
    pub fn find_archetype_mut(&mut self, entity: Entity) -> (r: &mut ComponentArchetype)
        requires
            old(self).wf(),
            old(self).is_live(entity),
        ensures
            *r == old(self).archetype_at(entity@.0 as int),
            final(self).archetypes@ == old(self).archetypes@.update(
                old(self).info_at(entity@.0 as int).archetype_ptr as int,
                *final(r),
            ),
            final(self).entities == old(self).entities,
            final(self).component_archetypes@ == old(self).component_archetypes@,
    {
        let entity_info = self.entities.get(entity).unwrap();
        let ptr = entity_info.archetype_ptr;
        proof {
            assert(self.placed(entity@.0 as int));
        }
        &mut self.archetypes[ptr]
    }

    /// The archetype that holds the entity's components.
    pub fn find_archetype(&self, entity: Entity) -> (r: &ComponentArchetype)
        requires
            self.wf(),
            self.is_live(entity),
        ensures
            *r == self.archetype_at(entity@.0 as int),
            r.wf(),
            sorted_by_id(r.type_seq()),
    {
        let entity_info = self.entities.get(entity).unwrap();
        proof {
            assert(self.placed(entity@.0 as int));
            self.archetypes@[entity_info.archetype_ptr as int].lemma_types_sorted();
        }
        &self.archetypes[entity_info.archetype_ptr]
    }

    /// The record of the entity's component of the type, or an error when the
    /// entity has no component of that type.
    pub fn get(&self, entity: Entity, type_info: &TypeInfo) -> (r: Result<&[u8], ECSError>)
        requires
            self.wf(),
            self.is_live(entity),
        ensures
            has_id(self.types_at(entity@.0 as int), type_info.id()) ==> (r matches Ok(bytes) && bytes@
                == self.record_at(
                entity@.0 as int,
                type_index_of(self.types_at(entity@.0 as int), type_info.id()),
            )),
            !has_id(self.types_at(entity@.0 as int), type_info.id()) ==> r == Err::<&[u8], ECSError>(
                ECSError::MissingComponent,
            ),
    {
        let archetype = self.find_archetype(entity);
        if !archetype.has_type_id(type_info.type_id()) {
            return Err(ECSError::MissingComponent);
        }
        let entity_info = self.entities.get(entity).unwrap();
        proof {
            assert(self.placed(entity@.0 as int));
        }
        Ok(archetype.get(type_info, entity_info.index))
    }

    /// Whether a query with the component types `with` and the excluded
    /// types `without` reads archetype `a`: `with` is not empty and the
    /// archetype fits the query (see `archetype_fits`).
    pub open spec fn query_reads(&self, with: Seq<u64>, without: Seq<u64>, a: int) -> bool {
        &&& with.len() > 0
        &&& 0 <= a < self.archetypes@.len()
        &&& archetype_fits(self.archetypes@[a].type_seq(), with, without)
    }

    /// The archetypes that a query reads (see `query_reads`), by ascending
    /// index; the query walks them from the last one back.
    pub fn query_archetypes(&self, with: &Vec<u64>, without: &Vec<u64>) -> (r: Vec<usize>)
        ensures
            forall|i: int, j: int| 0 <= i < j < r@.len() ==> r@[i] < r@[j],
            forall|i: int| 0 <= i < r@.len() ==> self.query_reads(with@, without@, #[trigger] r@[i] as int),
            forall|a: int| #[trigger] self.query_reads(with@, without@, a) ==> r@.contains(a as usize),
    {
        let mut out: Vec<usize> = Vec::new();
        if with.len() == 0 {
            return out;
        }
        let mut a: usize = 0;
        while a < self.archetypes.len()
            invariant
                with@.len() > 0,
                a <= self.archetypes@.len(),
                forall|i: int, j: int| 0 <= i < j < out@.len() ==> out@[i] < out@[j],
                forall|i: int| 0 <= i < out@.len() ==> out@[i] < a,
                forall|i: int| 0 <= i < out@.len() ==> self.query_reads(with@, without@, #[trigger] out@[i] as int),
                forall|b: int| 0 <= b < a && #[trigger] self.query_reads(with@, without@, b) ==> out@.contains(b as usize),
            decreases self.archetypes@.len() - a,
        {
            let reads = fits_query(&self.archetypes[a], with, without);
            let ghost before = out@;
            if reads {
                out.push(a);
                proof {
                    assert(out@.last() == a);
                    assert forall|b: int| 0 <= b < a + 1 && #[trigger] self.query_reads(with@, without@, b) implies out@.contains(b as usize) by {
                        if b < a {
                            let i = choose|i: int| 0 <= i < before.len() && before[i] == b as usize;
                            assert(out@[i] == b as usize);
                        } else {
                            assert(out@[out@.len() - 1] == a);
                        }
                    }
                }
            } else {
                proof {
                    assert forall|b: int| 0 <= b < a + 1 && #[trigger] self.query_reads(with@, without@, b) implies out@.contains(b as usize) by {
                        assert(b != a);
                    }
                }
            }
            a = a + 1;
        }
        out
    }

    /// The slot of a live entity in its archetype, when the archetype fits
    /// the query with the component types `with` and the excluded types
    /// `without` (see `archetype_fits`); nothing when it does not.
    pub fn query_one(&self, entity: Entity, with: &Vec<u64>, without: &Vec<u64>) -> (r: Option<usize>)
        requires
            self.wf(),
            self.is_live(entity),
        ensures
            r == (if archetype_fits(self.archetype_at(entity@.0 as int).type_seq(), with@, without@) {
                Some(self.info_at(entity@.0 as int).index)
            } else {
                None::<usize>
            }),
    {
        let archetype = self.find_archetype(entity);
        if !fits_query(archetype, with, without) {
            return None;
        }
        let entity_info = self.entities.get(entity).unwrap();
        Some(entity_info.index)
    }
}

/// Whether an archetype of the component types `types` fits a query with
/// the component types `with` and the excluded types `without`: it holds
/// every type of `with`, and none of its types is in `without`.
pub open spec fn archetype_fits(types: Seq<TypeInfo>, with: Seq<u64>, without: Seq<u64>) -> bool {
    &&& forall|k: int| 0 <= k < with.len() ==> has_id(types, #[trigger] with[k])
    &&& forall|j: int| 0 <= j < types.len() ==> !without.contains((#[trigger] types[j]).id())
}

fn fits_query(archetype: &ComponentArchetype, with: &Vec<u64>, without: &Vec<u64>) -> (r: bool)
    ensures
        r == archetype_fits(archetype.type_seq(), with@, without@),
{
    let mut reads = true;
    let mut k: usize = 0;
    while k < with.len()
        invariant
            k <= with@.len(),
            reads == forall|x: int| 0 <= x < k ==> has_id(archetype.type_seq(), #[trigger] with@[x]),
        decreases with@.len() - k,
    {
        if !archetype.has_type_id(with[k]) {
            reads = false;
        }
        k = k + 1;
    }
    let types = archetype.type_infos();
    let mut j: usize = 0;
    while j < types.len()
        invariant
            j <= types@.len(),
            types@ == archetype.type_seq(),
            reads ==> forall|x: int| 0 <= x < with@.len() ==> has_id(archetype.type_seq(), #[trigger] with@[x]),
            reads ==> forall|y: int| 0 <= y < j ==> !without@.contains((#[trigger] types@[y]).id()),
            !reads ==> !archetype_fits(archetype.type_seq(), with@, without@),
        decreases types@.len() - j,
    {
        let id = types[j].type_id();
        let mut w: usize = 0;
        let mut found = false;
        while w < without.len()
            invariant
                w <= without@.len(),
                found == exists|z: int| 0 <= z < w && without@[z] == id,
            decreases without@.len() - w,
        {
            if without[w] == id {
                found = true;
            }
            w = w + 1;
        }
        if found {
            proof {
                assert(without@.contains(types@[j as int].id()));
            }
            reads = false;
        } else {
            proof {
                assert(!without@.contains(types@[j as int].id()));
            }
        }
        j = j + 1;
    }
    reads
}

/// After a spawn, reading one of the entity's components gives back the
/// record made of the bytes it was spawned with, when no two of the spawned
/// components share a type.
pub proof fn law_spawn_then_get(w: ECSWorld, e: int, data: Seq<(TypeInfo, Vec<u8>)>, k: int)
    requires
        w.wf(),
        w.live_at(e),
        w.components_at(e).to_multiset() == stored_all(data).to_multiset(),
        ids_of(firsts(data)).no_duplicates(),
        0 <= k < data.len(),
    ensures
        has_id(w.types_at(e), data[k].0.id()),
        w.record_at(e, type_index_of(w.types_at(e), data[k].0.id())) == record_of(
            data[k].1@,
            data[k].0.size_spec() as nat,
            data[k].0.stride_spec() as nat,
        ),
{
    let comps = w.components_at(e);
    let st = stored_all(data);
    let types = w.types_at(e);
    let id = data[k].0.id();
    assert(st[k] == (data[k].0, record_of(data[k].1@, data[k].0.size_spec() as nat, data[k].0.stride_spec() as nat)));
    assert(st.contains(st[k]));
    assert(st.to_multiset().count(st[k]) > 0);
    assert(comps.contains(st[k]));
    let c = choose|c: int| 0 <= c < comps.len() && comps[c] == st[k];
    assert(types[c] == data[k].0);
    assert(has_id(types, id));
    let f = |p: (TypeInfo, Seq<u8>)| p.0.id();
    lemma_map_same_multiset(comps, st, f);
    assert(comps.map_values(f) =~= ids_of(types));
    assert(st.map_values(f) =~= ids_of(firsts(data)));
    ids_of(firsts(data)).lemma_multiset_has_no_duplicates();
    ids_of(types).lemma_multiset_has_no_duplicates_conv();
    lemma_type_index_of(types, id);
    let q = type_index_of(types, id);
    if q != c {
        assert(ids_of(types)[q] == ids_of(types)[c]);
    }
}

} // verus!
