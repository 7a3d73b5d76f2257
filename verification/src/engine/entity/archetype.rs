use vstd::prelude::*;

use crate::common::dyn_vec::{DynVec, TypeInfo, record_of};
use crate::engine::entity::component::{ComponentTypeBorrow, write_bit};
use crate::engine::entity::ecs_world::Entity;

verus! {

broadcast use vstd::seq_lib::group_to_multiset_ensures, vstd::multiset::group_multiset_properties;

/// The type infos are in ascending order of type identifier.
pub open spec fn sorted_by_id(s: Seq<TypeInfo>) -> bool {
    forall|a: int, b: int| 0 <= a < b < s.len() ==> s[a].id() <= s[b].id()
}

/// Sorts the type infos by type identifier, keeping the order of infos with
/// equal identifiers.
pub fn sort_type_infos(v: &mut Vec<TypeInfo>)
    ensures
        sorted_by_id(final(v)@),
        final(v)@.to_multiset() == old(v)@.to_multiset(),
        final(v)@.len() == old(v)@.len(),
{
    let n = v.len();
    if n == 0 {
        return;
    }
    let mut i: usize = 1;
    while i < n
        invariant
            1 <= i <= n,
            n == v@.len(),
            forall|a: int, b: int| 0 <= a < b < i ==> v@[a].id() <= v@[b].id(),
            v@.to_multiset() == old(v)@.to_multiset(),
        decreases n - i,
    {
        let mut j: usize = i;
        while j > 0 && v[j - 1].type_id() > v[j].type_id()
            invariant
                0 <= j <= i < n,
                n == v@.len(),
                forall|a: int, b: int|
                    0 <= a < b <= i && a != j && b != j ==> v@[a].id() <= v@[b].id(),
                forall|b: int| j < b <= i ==> v@[j as int].id() < v@[b].id(),
                v@.to_multiset() == old(v)@.to_multiset(),
            decreases j,
        {
            let a = v[j - 1];
            let b = v[j];
            let ghost s0 = v@;
            v.set(j - 1, b);
            v.set(j, a);
            proof {
                let s1 = s0.update(j - 1, b);
                assert(s1.to_multiset() == s0.to_multiset().insert(b).remove(a));
                assert(v@.to_multiset() == s1.to_multiset().insert(a).remove(s1[j as int]));
                assert(v@.to_multiset() =~= s0.to_multiset());
            }
            j = j - 1;
        }
        i = i + 1;
    }
}

/// The identifiers of type infos, in order.
pub open spec fn ids_of(s: Seq<TypeInfo>) -> Seq<u64> {
    s.map_values(|t: TypeInfo| t.id())
}

/// The type infos of components given as (type info, bytes) pairs.
pub open spec fn firsts(s: Seq<(TypeInfo, Vec<u8>)>) -> Seq<TypeInfo> {
    s.map_values(|p: (TypeInfo, Vec<u8>)| p.0)
}

/// Type infos with the same identifier are the same type info: the
/// identifier of a type fixes its layout.
pub open spec fn infos_agree(a: Seq<TypeInfo>, b: Seq<TypeInfo>) -> bool {
    forall|i: int, j: int|
        0 <= i < a.len() && 0 <= j < b.len() && (#[trigger] a[i]).id() == (#[trigger] b[j]).id() ==> a[i] == b[j]
}

/// Components as they are stored: each type info with the record made of its
/// bytes.
pub open spec fn stored_all(s: Seq<(TypeInfo, Vec<u8>)>) -> Seq<(TypeInfo, Seq<u8>)> {
    s.map_values(
        |p: (TypeInfo, Vec<u8>)|
            (p.0, record_of(p.1@, p.0.size_spec() as nat, p.0.stride_spec() as nat)),
    )
}

/// Identifiers in ascending order.
pub open spec fn ascending(s: Seq<u64>) -> bool {
    forall|a: int, b: int| 0 <= a < b < s.len() ==> s[a] <= s[b]
}

/// Two ascending sequences with the same elements are the same sequence.
pub proof fn lemma_ascending_unique(a: Seq<u64>, b: Seq<u64>)
    requires
        ascending(a),
        ascending(b),
        a.to_multiset() == b.to_multiset(),
    ensures
        a == b,
    decreases a.len(),
{
    assert(a.len() == a.to_multiset().len() && b.len() == b.to_multiset().len());
    if a.len() == 0 {
        assert(a =~= b);
    } else {
        assert(a.contains(a[0]));
        assert(a.to_multiset().count(a[0]) > 0);
        assert(b.contains(a[0]));
        let j = choose|j: int| 0 <= j < b.len() && b[j] == a[0];
        assert(b[0] <= a[0]);
        assert(b.contains(b[0]));
        assert(b.to_multiset().count(b[0]) > 0);
        assert(a.contains(b[0]));
        let k = choose|k: int| 0 <= k < a.len() && a[k] == b[0];
        assert(a[0] <= b[0]);
        vstd::seq_lib::to_multiset_remove(a, 0);
        vstd::seq_lib::to_multiset_remove(b, 0);
        lemma_ascending_unique(a.remove(0), b.remove(0));
        assert(a =~= seq![a[0]] + a.remove(0));
        assert(b =~= seq![b[0]] + b.remove(0));
    }
}

/// Mapping two sequences with the same elements gives sequences with the same
/// elements.
pub proof fn lemma_map_same_multiset<A, B>(s1: Seq<A>, s2: Seq<A>, f: spec_fn(A) -> B)
    requires
        s1.to_multiset() == s2.to_multiset(),
    ensures
        s1.map_values(f).to_multiset() == s2.map_values(f).to_multiset(),
    decreases s1.len(),
{
    assert(s1.len() == s1.to_multiset().len() && s2.len() == s2.to_multiset().len());
    if s1.len() == 0 {
        assert(s1.map_values(f) =~= Seq::<B>::empty());
        assert(s2.map_values(f) =~= Seq::<B>::empty());
    } else {
        let x = s1[0];
        assert(s1.contains(x));
        assert(s1.to_multiset().count(x) > 0);
        assert(s2.contains(x));
        let j = choose|j: int| 0 <= j < s2.len() && s2[j] == x;
        vstd::seq_lib::to_multiset_remove(s1, 0);
        vstd::seq_lib::to_multiset_remove(s2, j);
        lemma_map_same_multiset(s1.remove(0), s2.remove(j), f);
        let m1 = s1.map_values(f);
        let m2 = s2.map_values(f);
        assert(s1.remove(0).map_values(f) =~= m1.remove(0));
        assert(s2.remove(j).map_values(f) =~= m2.remove(j));
        vstd::seq_lib::to_multiset_remove(m1, 0);
        vstd::seq_lib::to_multiset_remove(m2, j);
        assert(m1.contains(f(x)));
        assert(m2.contains(f(x)));
        assert(m1.to_multiset().count(f(x)) > 0);
        assert(m2.to_multiset().count(f(x)) > 0);
        assert(m1.to_multiset() =~= m1.to_multiset().remove(f(x)).insert(f(x)));
        assert(m2.to_multiset() =~= m2.to_multiset().remove(f(x)).insert(f(x)));
    }
}

/// Sorts components by the identifier of their type, keeping every pair.
pub fn sort_components(v: &mut Vec<(TypeInfo, Vec<u8>)>)
    ensures
        sorted_by_id(firsts(final(v)@)),
        final(v)@.to_multiset() == old(v)@.to_multiset(),
        final(v)@.len() == old(v)@.len(),
{
    let n = v.len();
    if n == 0 {
        return;
    }
    let mut i: usize = 1;
    while i < n
        invariant
            1 <= i <= n,
            n == v@.len(),
            forall|a: int, b: int| 0 <= a < b < i ==> v@[a].0.id() <= v@[b].0.id(),
            v@.to_multiset() == old(v)@.to_multiset(),
        decreases n - i,
    {
        let mut j: usize = i;
        while j > 0 && v[j - 1].0.type_id() > v[j].0.type_id()
            invariant
                0 <= j <= i < n,
                n == v@.len(),
                forall|a: int, b: int|
                    0 <= a < b <= i && a != j && b != j ==> v@[a].0.id() <= v@[b].0.id(),
                forall|b: int| j < b <= i ==> v@[j as int].0.id() < v@[b].0.id(),
                v@.to_multiset() == old(v)@.to_multiset(),
            decreases j,
        {
            let ghost s0 = v@;
            let mut tmp: (TypeInfo, Vec<u8>) = (v[j].0, Vec::new());
            core::mem::swap(&mut tmp, &mut v[j]);
            core::mem::swap(&mut tmp, &mut v[j - 1]);
            core::mem::swap(&mut tmp, &mut v[j]);
            proof {
                let s1 = s0.update(j - 1, s0[j as int]);
                assert(v@ =~= s1.update(j as int, s0[j - 1]));
                assert(s1.to_multiset() == s0.to_multiset().insert(s0[j as int]).remove(s0[j - 1]));
                assert(v@.to_multiset() == s1.to_multiset().insert(s0[j - 1]).remove(s1[j as int]));
                assert(v@.to_multiset() =~= s0.to_multiset());
            }
            j = j - 1;
        }
        i = i + 1;
    }
}

/// Essentially a type erased Free List Allocator with knowledge of (X, Y, Z)'s TypeIds and sizes.
/// Useful for storing parallel heterogenous (X, Y, Z) tuples but being able to iterate over just
/// a specific type, such as X. Also stored the global index
///
/// Types are always sorted by TypeId, so index lookups are easier.
pub struct ComponentArchetype {
    pub types: Vec<TypeInfo>,
    pub borrows: Vec<ComponentTypeBorrow>,
    data: Vec<DynVec>,
    global_indices: Vec<Entity>,
    size: usize,
    // Counter of handed out slots; freed slots are not reused.
    temp: usize,
}

/// The types of an archetype are kept in identifier order.
#[verifier::opaque]
pub open spec fn types_in_order(s: Seq<TypeInfo>) -> bool {
    sorted_by_id(s)
}

/// The number of slots whose entity is not the dangling handle.
#[verifier::opaque]
pub open spec fn live_slot_count(s: Seq<(u32, u32)>) -> nat
    decreases s.len(),
{
    if s.len() == 0 {
        0
    } else {
        live_slot_count(s.drop_last()) + if s.last() != (u32::MAX, u32::MAX) {
            1nat
        } else {
            0nat
        }
    }
}

proof fn lemma_live_slot_count_push(s: Seq<(u32, u32)>, e: (u32, u32))
    ensures
        live_slot_count(s.push(e)) == live_slot_count(s) + if e != (u32::MAX, u32::MAX) {
            1nat
        } else {
            0nat
        },
{
    reveal(live_slot_count);
    assert(s.push(e).drop_last() =~= s);
}

proof fn lemma_live_slot_count_clear(s: Seq<(u32, u32)>, i: int)
    requires
        0 <= i < s.len(),
        s[i] != (u32::MAX, u32::MAX),
    ensures
        live_slot_count(s.update(i, (u32::MAX, u32::MAX))) + 1 == live_slot_count(s),
    decreases s.len(),
{
    reveal(live_slot_count);
    let t = s.update(i, (u32::MAX, u32::MAX));
    if i == s.len() - 1 {
        assert(t.drop_last() =~= s.drop_last());
    } else {
        lemma_live_slot_count_clear(s.drop_last(), i);
        assert(t.drop_last() =~= s.drop_last().update(i, (u32::MAX, u32::MAX)));
    }
}

/// The first position of a type identifier among type infos, if any.
pub open spec fn type_index_of(types: Seq<TypeInfo>, type_id: u64) -> int {
    choose|i: int| 0 <= i < types.len() && types[i].id() == type_id && forall|k: int| 0 <= k < i ==> types[k].id() != type_id
}

proof fn lemma_first_index(types: Seq<TypeInfo>, type_id: u64, i: int) -> (r: int)
    requires
        0 <= i <= types.len(),
        forall|k: int| 0 <= k < i ==> types[k].id() != type_id,
        exists|j: int| i <= j < types.len() && types[j].id() == type_id,
    ensures
        0 <= r < types.len(),
        types[r].id() == type_id,
        forall|k: int| 0 <= k < r ==> types[k].id() != type_id,
    decreases types.len() - i,
{
    if types[i].id() == type_id {
        i
    } else {
        lemma_first_index(types, type_id, i + 1)
    }
}

/// When some type info has the identifier, `type_index_of` names the first
/// one.
pub proof fn lemma_type_index_of(types: Seq<TypeInfo>, type_id: u64)
    requires
        has_id(types, type_id),
    ensures
        0 <= type_index_of(types, type_id) < types.len(),
        types[type_index_of(types, type_id)].id() == type_id,
        forall|k: int| 0 <= k < type_index_of(types, type_id) ==> types[k].id() != type_id,
{
    let w = lemma_first_index(types, type_id, 0);
    assert(0 <= w < types.len() && types[w].id() == type_id && forall|k: int| 0 <= k < w ==> types[k].id() != type_id);
}

/// Some type info has the identifier.
pub open spec fn has_id(types: Seq<TypeInfo>, type_id: u64) -> bool {
    exists|i: int| 0 <= i < types.len() && types[i].id() == type_id
}

impl ComponentArchetype {
    /// One column of records per type, one entity per slot.
    pub closed spec fn wf(&self) -> bool {
        &&& self.type_seq().len() == self.borrows@.len()
        &&& self.type_seq().len() == self.data@.len()
        &&& forall|i: int| 0 <= i < self.data@.len() ==> {
            &&& (#[trigger] self.data@[i]).wf()
            &&& self.data@[i].type_info_spec() == self.type_seq()[i]
            &&& self.data@[i].elements().len() == self.temp
        }
        &&& self.global_indices@.len() == self.temp
        &&& self.size <= self.temp
        &&& live_slot_count(self.entities()) <= self.size
        &&& types_in_order(self.type_seq())
    }

    /// Changing only the borrow states keeps an archetype well formed.
    proof fn lemma_wf_borrows(a: &Self, b: &Self)
        requires
            a.wf(),
            b.types == a.types,
            b.data == a.data,
            b.global_indices == a.global_indices,
            b.size == a.size,
            b.temp == a.temp,
            b.borrows@.len() == a.borrows@.len(),
        ensures
            b.wf(),
    {
        assert(b.entities() == a.entities());
    }

    /// The component types, in identifier order.
    pub closed spec fn type_seq(&self) -> Seq<TypeInfo> {
        self.types@
    }

    /// The record of slot `slot` in the column of type number `column`.
    pub closed spec fn record(&self, column: int, slot: int) -> Seq<u8> {
        self.data@[column].elements()[slot]
    }

    /// The entity of each slot, as a handle (index, generation); removed
    /// slots hold the dangling handle.
    pub closed spec fn entities(&self) -> Seq<(u32, u32)> {
        self.global_indices@.map_values(|e: Entity| e@)
    }

    /// The borrow state of each type.
    pub closed spec fn borrow_states(&self) -> Seq<u32> {
        self.borrows@.map_values(|b: ComponentTypeBorrow| b@)
    }

    /// The number of live entities.
    pub closed spec fn live_count(&self) -> nat {
        self.size as nat
    }

    /// The number of slots handed out so far.
    pub closed spec fn slot_count(&self) -> nat {
        self.temp as nat
    }

    /// An archetype of the given types, sorted by identifier, all free and
    /// without entities.
    pub fn new(types: Vec<TypeInfo>) -> (r: Self)
        ensures
            r.wf(),
            sorted_by_id(r.type_seq()),
            r.type_seq().to_multiset() == types@.to_multiset(),
            r.borrow_states() == Seq::new(types@.len(), |i: int| 0u32),
            r.entities() == Seq::<(u32, u32)>::empty(),
            r.live_count() == 0,
            r.slot_count() == 0,
    {
        let mut types = types;
        sort_type_infos(&mut types);
        let n = types.len();
        let mut borrows: Vec<ComponentTypeBorrow> = Vec::new();
        let mut data: Vec<DynVec> = Vec::new();
        let mut k: usize = 0;
        while k < n
            invariant
                k <= n,
                n == types@.len(),
                borrows@.len() == k,
                data@.len() == k,
                forall|i: int| 0 <= i < k ==> (#[trigger] borrows@[i])@ == 0u32,
                forall|i: int| 0 <= i < k ==> {
                    &&& (#[trigger] data@[i]).wf()
                    &&& data@[i].type_info_spec() == types@[i]
                    &&& data@[i].elements().len() == 0
                },
            decreases n - k,
        {
            borrows.push(ComponentTypeBorrow::free());
            data.push(DynVec::new(types[k]));
            k = k + 1;
        }
        let r = Self { types, borrows, data, global_indices: Vec::new(), size: 0, temp: 0 };
        proof {
            reveal(live_slot_count);
            reveal(types_in_order);
        }
        assert(r.borrow_states() =~= Seq::new(n as nat, |i: int| 0u32));
        assert(r.entities() =~= Seq::<(u32, u32)>::empty());
        r
    }

    /// The entity of slot `index`, which must not have been removed.
    pub fn get_entity(&self, index: usize) -> (r: Entity)
        requires
            self.wf(),
            index < self.slot_count(),
            self.entities()[index as int] != (u32::MAX, u32::MAX),
        ensures
            r@ == self.entities()[index as int],
    {
        let entity = self.global_indices[index];
        entity
    }

    /// The position of the first type with the identifier, which must be one
    /// of the archetype's types.
    fn get_type_index(&self, type_id: &u64) -> (r: usize)
        requires
            has_id(self.type_seq(), *type_id),
        ensures
            r == type_index_of(self.type_seq(), *type_id),
            r < self.type_seq().len(),
            self.type_seq()[r as int].id() == *type_id,
    {
        let mut i: usize = 0;
        while i < self.types.len()
            invariant
                i <= self.type_seq().len(),
                has_id(self.type_seq(), *type_id),
                forall|k: int| 0 <= k < i ==> self.type_seq()[k].id() != *type_id,
            decreases self.type_seq().len() - i,
        {
            if self.types[i].type_id() == *type_id {
                proof {
                    let w = type_index_of(self.type_seq(), *type_id);
                    assert(0 <= i < self.type_seq().len() && self.type_seq()[i as int].id() == *type_id
                        && forall|k: int| 0 <= k < i ==> self.type_seq()[k].id() != *type_id);
                    if w != i as int {
                        if w < i as int {
                        } else {
                            assert(self.type_seq()[i as int].id() != *type_id);
                        }
                    }
                }
                return i;
            }
            i = i + 1;
        }
        proof {
            let w = choose|w: int| 0 <= w < self.type_seq().len() && self.type_seq()[w].id() == *type_id;
            assert(self.type_seq()[w].id() != *type_id);
        }
        0
    }

    /// Whether one of the archetype's types has the identifier.
    pub fn has_type_id(&self, type_id: u64) -> (r: bool)
        ensures
            r == has_id(self.type_seq(), type_id),
    {
        let mut i: usize = 0;
        while i < self.types.len()
            invariant
                i <= self.type_seq().len(),
                forall|k: int| 0 <= k < i ==> self.type_seq()[k].id() != type_id,
            decreases self.type_seq().len() - i,
        {
            if self.types[i].type_id() == type_id {
                return true;
            }
            i = i + 1;
        }
        false
    }

    /// The record of slot `index` of the component type `type_info`.
    pub fn get(&self, type_info: &TypeInfo, index: usize) -> (r: &[u8])
        requires
            self.wf(),
            has_id(self.type_seq(), type_info.id()),
            index < self.slot_count(),
        ensures
            r@ == self.record(type_index_of(self.type_seq(), type_info.id()), index as int),
    {
        let i = self.get_type_index(&type_info.type_id());
        self.data[i].get_bytes(index)
    }

    /// Overwrites the component of type `type_info` in slot `index` with the
    /// first `size` bytes of `src`; the rest of the record is kept.
    pub fn write_component(&mut self, type_info: &TypeInfo, index: usize, src: &[u8])
        requires
            old(self).wf(),
            has_id(old(self).type_seq(), type_info.id()),
            index < old(self).slot_count(),
            src@.len() >= old(self).type_seq()[type_index_of(old(self).type_seq(), type_info.id())].size_spec(),
        ensures
            final(self).wf(),
            final(self).type_seq() == old(self).type_seq(),
            final(self).entities() == old(self).entities(),
            final(self).live_count() == old(self).live_count(),
            final(self).slot_count() == old(self).slot_count(),
            final(self).borrow_states() == old(self).borrow_states(),
            forall|c: int, s: int|
                0 <= c < old(self).type_seq().len() && 0 <= s < old(self).slot_count() && (c != type_index_of(
                    old(self).type_seq(),
                    type_info.id(),
                ) || s != index) ==> #[trigger] final(self).record(c, s) == old(self).record(c, s),
            ({
                let col = type_index_of(old(self).type_seq(), type_info.id());
                let size = old(self).type_seq()[col].size_spec() as int;
                let stride = old(self).type_seq()[col].stride_spec() as int;
                final(self).record(col, index as int) == src@.subrange(0, size) + old(self).record(col, index as int).subrange(size, stride)
            }),
    {
        let i = self.get_type_index(&type_info.type_id());
        self.data[i].write_unchecked(index, src);
        proof {
            assert forall|k: int| 0 <= k < self.data@.len() implies {
                &&& (#[trigger] self.data@[k]).wf()
                &&& self.data@[k].type_info_spec() == self.type_seq()[k]
                &&& self.data@[k].elements().len() == self.temp
            } by {
                if k != i as int {
                    assert(self.data@[k] == old(self).data@[k]);
                }
            }
            assert(self.entities() == old(self).entities());
            assert(self.borrow_states() == old(self).borrow_states());
        }
    }

    /// Takes a shared borrow of the component type, which must not be
    /// borrowed for writing; gives the new state.
    pub fn borrow_type(&mut self, type_id: &u64) -> (r: ComponentTypeBorrow)
        requires
            old(self).wf(),
            has_id(old(self).type_seq(), *type_id),
            old(self).borrow_states()[type_index_of(old(self).type_seq(), *type_id)] < write_bit(),
        ensures
            final(self).wf(),
            r@ == old(self).borrow_states()[type_index_of(old(self).type_seq(), *type_id)] + 1,
            final(self).borrow_states() == old(self).borrow_states().update(
                type_index_of(old(self).type_seq(), *type_id),
                r@,
            ),
            final(self).type_seq() == old(self).type_seq(),
            final(self).entities() == old(self).entities(),
            final(self).live_count() == old(self).live_count(),
            final(self).slot_count() == old(self).slot_count(),
            forall|c: int, s: int| #[trigger] final(self).record(c, s) == old(self).record(c, s),
    {
        let index = self.get_type_index(type_id);
        let borrow_val = self.borrows[index];
        proof {
            assert(old(self).borrow_states()[index as int] == old(self).borrows@[index as int]@);
        }
        let b = borrow_val.inc();
        self.borrows.set(index, b);
        proof {
            Self::lemma_wf_borrows(old(self), self);
            assert(self.borrow_states() =~= old(self).borrow_states().update(index as int, b@));
        }
        b
    }

    /// Takes the write borrow of the component type, which must not be
    /// borrowed at all; gives the new state.
    pub fn borrow_type_mut(&mut self, type_id: &u64) -> (r: ComponentTypeBorrow)
        requires
            old(self).wf(),
            has_id(old(self).type_seq(), *type_id),
            old(self).borrow_states()[type_index_of(old(self).type_seq(), *type_id)] == 0,
        ensures
            final(self).wf(),
            r@ == write_bit(),
            final(self).borrow_states() == old(self).borrow_states().update(
                type_index_of(old(self).type_seq(), *type_id),
                write_bit(),
            ),
            final(self).type_seq() == old(self).type_seq(),
            final(self).entities() == old(self).entities(),
            final(self).live_count() == old(self).live_count(),
            final(self).slot_count() == old(self).slot_count(),
            forall|c: int, s: int| #[trigger] final(self).record(c, s) == old(self).record(c, s),
    {
        let index = self.get_type_index(type_id);
        let b = ComponentTypeBorrow::write_locked();
        self.borrows.set(index, b);
        proof {
            Self::lemma_wf_borrows(old(self), self);
        }
        assert(self.borrow_states() =~= old(self).borrow_states().update(index as int, write_bit()));
        b
    }

    /// Hands out the next slot index; slots are not reused.
    fn allocate_entry(&mut self) -> (r: usize)
        requires
            old(self).temp < usize::MAX,
        ensures
            r == old(self).temp,
            final(self).temp == old(self).temp + 1,
            final(self).types == old(self).types,
            final(self).borrows == old(self).borrows,
            final(self).data == old(self).data,
            final(self).global_indices == old(self).global_indices,
            final(self).size == old(self).size,
    {
        let i = self.temp;
        self.temp = self.temp + 1;
        i
    }

    /// Stores one record per type (given in the archetype's type order) in a
    /// new slot owned by `entity_id`, and gives the slot's index.
    pub fn insert_raw(&mut self, entity_id: Entity, src_data: Vec<Vec<u8>>) -> (r: usize)
        requires
            old(self).wf(),
            src_data@.len() == old(self).type_seq().len(),
            forall|i: int| 0 <= i < src_data@.len() ==> (#[trigger] src_data@[i])@.len() >= old(self).type_seq()[i].size_spec(),
            old(self).slot_count() + 1 < usize::MAX,
            forall|i: int| 0 <= i < old(self).type_seq().len() ==> (old(self).slot_count() + 1) * (#[trigger] old(self).type_seq()[i]).stride_spec() <= usize::MAX,
        ensures
            final(self).wf(),
            r == old(self).slot_count(),
            final(self).slot_count() == old(self).slot_count() + 1,
            final(self).live_count() == old(self).live_count() + 1,
            final(self).entities() == old(self).entities().push(entity_id@),
            final(self).type_seq() == old(self).type_seq(),
            final(self).borrow_states() == old(self).borrow_states(),
            forall|c: int, s: int| 0 <= c < old(self).type_seq().len() && 0 <= s < old(self).slot_count() ==> #[trigger] final(self).record(c, s) == old(self).record(c, s),
            forall|c: int| 0 <= c < old(self).type_seq().len() ==> #[trigger] final(self).record(c, r as int) == record_of(
                src_data@[c]@,
                old(self).type_seq()[c].size_spec() as nat,
                old(self).type_seq()[c].stride_spec() as nat,
            ),
    {
        let index = self.allocate_entry();
        let n = self.data.len();
        let mut i: usize = 0;
        while i < n
            invariant
                i <= n,
                n == self.data@.len(),
                n == self.type_seq().len(),
                index == old(self).temp,
                self.types == old(self).types,
                self.borrows == old(self).borrows,
                self.global_indices == old(self).global_indices,
                self.temp == old(self).temp + 1,
                self.size == old(self).size,
                self.data@.len() == old(self).data@.len(),
                src_data@.len() == n,
                forall|k: int| 0 <= k < src_data@.len() ==> (#[trigger] src_data@[k])@.len() >= old(self).type_seq()[k].size_spec(),
                forall|k: int| 0 <= k < n ==> (index + 1) * (#[trigger] old(self).type_seq()[k]).stride_spec() <= usize::MAX,
                index < usize::MAX,
                forall|k: int| 0 <= k < n ==> {
                    &&& (#[trigger] self.data@[k]).wf()
                    &&& self.data@[k].type_info_spec() == self.type_seq()[k]
                },
                forall|k: int| i <= k < n ==> #[trigger] self.data@[k] == old(self).data@[k],
                forall|k: int| 0 <= k < n ==> (#[trigger] old(self).data@[k]).elements().len() == index
                    && old(self).data@[k].type_info_spec() == old(self).type_seq()[k],
                forall|k: int| 0 <= k < i ==> (#[trigger] self.data@[k]).elements() == old(self).data@[k].elements().push(
                    record_of(src_data@[k]@, self.type_seq()[k].size_spec() as nat, self.type_seq()[k].stride_spec() as nat),
                ),
            decreases n - i,
        {
            let mut column = self.data.remove(i);
            proof {
                assert(column == old(self).data@[i as int]);
            }
            column.push_unchecked(src_data[i].as_slice());
            self.data.insert(i, column);
            i = i + 1;
        }
        proof {
            lemma_live_slot_count_push(old(self).entities(), entity_id@);
        }
        self.global_indices.push(entity_id);
        self.size = self.size + 1;
        proof {
            assert(self.entities() =~= old(self).entities().push(entity_id@));
            assert forall|c: int, s: int| 0 <= c < old(self).type_seq().len() && 0 <= s < old(self).slot_count() implies #[trigger] self.record(c, s) == old(self).record(c, s) by {
                assert(self.data@[c].elements()[s] == old(self).data@[c].elements()[s]);
            }
        }
        index
    }

    /// Marks slot `index` as removed (its entity becomes the dangling
    /// handle) and gives back its records, one per type.
    pub fn take_raw(&mut self, index: usize) -> (r: Vec<Vec<u8>>)
        requires
            old(self).wf(),
            index < old(self).slot_count(),
            old(self).entities()[index as int] != (u32::MAX, u32::MAX),
        ensures
            final(self).wf(),
            r@.len() == old(self).type_seq().len(),
            forall|c: int| 0 <= c < r@.len() ==> (#[trigger] r@[c])@ == old(self).record(c, index as int),
            final(self).entities() == old(self).entities().update(index as int, (u32::MAX, u32::MAX)),
            final(self).live_count() == old(self).live_count() - 1,
            final(self).slot_count() == old(self).slot_count(),
            final(self).type_seq() == old(self).type_seq(),
            final(self).borrow_states() == old(self).borrow_states(),
            forall|c: int, s: int| #[trigger] final(self).record(c, s) == old(self).record(c, s),
    {
        let mut ptrs: Vec<Vec<u8>> = Vec::new();
        let mut i: usize = 0;
        while i < self.data.len()
            invariant
                i <= self.data@.len(),
                self.wf(),
                *self == *old(self),
                index < self.temp,
                ptrs@.len() == i,
                forall|c: int| 0 <= c < i ==> (#[trigger] ptrs@[c])@ == self.record(c, index as int),
            decreases self.data@.len() - i,
        {
            let bytes = self.data[i].get_bytes(index);
            ptrs.push(vstd::slice::slice_to_vec(bytes));
            i = i + 1;
        }
        proof {
            lemma_live_slot_count_clear(old(self).entities(), index as int);
        }
        self.global_indices.set(index, Entity::dangling());
        self.size = self.size - 1;
        assert(self.entities() =~= old(self).entities().update(index as int, (u32::MAX, u32::MAX)));
        ptrs
    }

    /// Marks slot `index` as removed; its records are dropped with it.
    pub fn remove(&mut self, index: usize)
        requires
            old(self).wf(),
            index < old(self).slot_count(),
            old(self).entities()[index as int] != (u32::MAX, u32::MAX),
        ensures
            final(self).wf(),
            final(self).entities() == old(self).entities().update(index as int, (u32::MAX, u32::MAX)),
            final(self).live_count() == old(self).live_count() - 1,
            final(self).slot_count() == old(self).slot_count(),
            final(self).type_seq() == old(self).type_seq(),
            final(self).borrow_states() == old(self).borrow_states(),
            forall|c: int, s: int| #[trigger] final(self).record(c, s) == old(self).record(c, s),
    {
        proof {
            lemma_live_slot_count_clear(old(self).entities(), index as int);
        }
        self.global_indices.set(index, Entity::dangling());
        self.size = self.size - 1;
        assert(self.entities() =~= old(self).entities().update(index as int, (u32::MAX, u32::MAX)));
    }

    /// The types of a well-formed archetype are in identifier order.
    pub proof fn lemma_types_sorted(&self)
        requires
            self.wf(),
        ensures
            sorted_by_id(self.type_seq()),
    {
        reveal(types_in_order);
    }

    /// A well-formed archetype keeps one borrow state per type.
    pub proof fn lemma_borrow_states_len(&self)
        requires
            self.wf(),
        ensures
            self.borrow_states().len() == self.type_seq().len(),
    {
    }

    /// A well-formed archetype names one entity per slot.
    pub proof fn lemma_entities_len(&self)
        requires
            self.wf(),
        ensures
            self.entities().len() == self.slot_count(),
    {
    }

    /// The components of slot `slot`: each type with its record.
    pub open spec fn slot_pairs(&self, slot: int) -> Seq<(TypeInfo, Seq<u8>)> {
        Seq::new(self.type_seq().len(), |c: int| (self.type_seq()[c], self.record(c, slot)))
    }

    /// Every record of a column is the stride of its type long, and the size
    /// fits in the stride.
    pub proof fn lemma_record_len(&self, c: int, s: int)
        requires
            self.wf(),
            0 <= c < self.type_seq().len(),
            0 <= s < self.slot_count(),
        ensures
            self.record(c, s).len() == self.type_seq()[c].stride_spec(),
            self.type_seq()[c].size_spec() <= self.type_seq()[c].stride_spec(),
    {
        self.data@[c].lemma_element_len(s);
    }

    /// Stores the components of `data`, given in any order, one per type of
    /// the archetype, in a new slot owned by `entity_id`, and gives the slot's
    /// index. The components are sorted by type identifier first.
    pub fn insert(&mut self, entity_id: Entity, data: Vec<(TypeInfo, Vec<u8>)>) -> (r: usize)
        requires
            old(self).wf(),
            ids_of(firsts(data@)).to_multiset() == ids_of(old(self).type_seq()).to_multiset(),
            infos_agree(firsts(data@), old(self).type_seq()),
            forall|k: int| 0 <= k < data@.len() ==> (#[trigger] data@[k]).1@.len() >= data@[k].0.size_spec(),
            old(self).slot_count() + 1 < usize::MAX,
            forall|i: int| 0 <= i < old(self).type_seq().len() ==> (old(self).slot_count() + 1) * (#[trigger] old(self).type_seq()[i]).stride_spec() <= usize::MAX,
        ensures
            final(self).wf(),
            r == old(self).slot_count(),
            final(self).slot_count() == old(self).slot_count() + 1,
            final(self).live_count() == old(self).live_count() + 1,
            final(self).entities() == old(self).entities().push(entity_id@),
            final(self).type_seq() == old(self).type_seq(),
            final(self).borrow_states() == old(self).borrow_states(),
            forall|c: int, s: int| 0 <= c < old(self).type_seq().len() && 0 <= s < old(self).slot_count() ==> #[trigger] final(self).record(c, s) == old(self).record(c, s),
            final(self).slot_pairs(r as int).to_multiset() == stored_all(data@).to_multiset(),
    {
        let ghost types = self.type_seq();
        let ghost orig = data@;
        let mut data = data;
        sort_components(&mut data);
        let ghost sorted = data@;
        proof {
            old(self).lemma_types_sorted();
            let f = |p: (TypeInfo, Vec<u8>)| p.0.id();
            lemma_map_same_multiset(sorted, orig, f);
            assert(ids_of(firsts(sorted)) =~= sorted.map_values(f));
            assert(ids_of(firsts(orig)) =~= orig.map_values(f));
            lemma_ascending_unique(ids_of(firsts(sorted)), ids_of(types));
            assert(sorted.len() == types.len()) by {
                assert(ids_of(firsts(sorted)).len() == ids_of(types).len());
            }
            assert forall|c: int| 0 <= c < sorted.len() implies (#[trigger] sorted[c]).0 == types[c]
                && sorted[c].1@.len() >= types[c].size_spec() by {
                assert(ids_of(firsts(sorted))[c] == ids_of(types)[c]);
                assert(sorted.contains(sorted[c]));
                assert(sorted.to_multiset().count(sorted[c]) > 0);
                assert(orig.contains(sorted[c]));
                let k = choose|k: int| 0 <= k < orig.len() && orig[k] == sorted[c];
                assert(firsts(orig)[k] == sorted[c].0);
                assert(firsts(orig)[k].id() == types[c].id());
            }
        }
        let mut bytes: Vec<Vec<u8>> = Vec::new();
        let n = data.len();
        while data.len() > 0
            invariant
                bytes@.len() + data@.len() == n,
                n == sorted.len(),
                forall|c: int| 0 <= c < bytes@.len() ==> #[trigger] bytes@[c] == sorted[c].1,
                data@ == sorted.subrange(bytes@.len() as int, n as int),
            decreases data@.len(),
        {
            let (_t, b) = data.remove(0);
            bytes.push(b);
        }
        let index = self.insert_raw(entity_id, bytes);
        proof {
            let g = |p: (TypeInfo, Vec<u8>)|
                (p.0, record_of(p.1@, p.0.size_spec() as nat, p.0.stride_spec() as nat));
            lemma_map_same_multiset(sorted, orig, g);
            assert(stored_all(sorted) =~= sorted.map_values(g));
            assert(stored_all(orig) =~= orig.map_values(g));
            assert(self.slot_pairs(index as int) =~= stored_all(sorted));
        }
        index
    }

    pub fn type_infos(&self) -> (r: &[TypeInfo])
        ensures
            r@ == self.type_seq(),
    {
        self.types.as_slice()
    }

    /// The number of live entities.
    pub fn len(&self) -> (r: usize)
        ensures
            r == self.live_count(),
    {
        self.size
    }
}

/// The number of `true` entries: the inserts among a run of operations.
pub open spec fn count_inserts(ops: Seq<bool>) -> nat
    decreases ops.len(),
{
    if ops.len() == 0 {
        0
    } else {
        count_inserts(ops.drop_last()) + if ops.last() {
            1nat
        } else {
            0nat
        }
    }
}

/// Starting from a new archetype, after a run of inserts (`true`) and
/// releases of live slots with `take_raw` or `remove` (`false`), `len` gives
/// the number of inserts less the number of releases. `counts` holds the live
/// count before each operation and after the last one.
pub proof fn law_len_after_inserts_and_releases(counts: Seq<nat>, ops: Seq<bool>)
    requires
        counts.len() == ops.len() + 1,
        counts[0] == 0,
        forall|i: int| 0 <= i < ops.len() && #[trigger] ops[i] ==> counts[i + 1] == counts[i] + 1,
        forall|i: int| 0 <= i < ops.len() && !#[trigger] ops[i] ==> counts[i + 1] + 1 == counts[i],
    ensures
        counts[ops.len() as int] + (ops.len() - count_inserts(ops)) == count_inserts(ops),
    decreases ops.len(),
{
    if ops.len() > 0 {
        let n = ops.len() - 1;
        law_len_after_inserts_and_releases(counts.subrange(0, n + 1), ops.subrange(0, n));
        assert(ops.drop_last() =~= ops.subrange(0, n));
        assert(counts.subrange(0, n + 1)[n] == counts[n]);
        assert(ops[n] ==> counts[n + 1] == counts[n] + 1);
        assert(!ops[n] ==> counts[n + 1] + 1 == counts[n]);
    }
}

} // verus!
