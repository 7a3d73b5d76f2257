use vstd::prelude::*;

use crate::common::dyn_vec::{DynVecCloneable, TypeInfoCloneable, next_multiple_of, record_of};
use crate::common::freelist::FreeListHandle;

verus! {

/// Essentially a type erased Free List Allocator with knowledge of (X, Y, Z)'s TypeIds and sizes.
/// Useful for storing parallel heterogenous (X, Y, Z) tuples but being able to iterate over just
/// a specific type, such as X. Also stored the global index
#[derive(Clone)]
pub struct Archetype {
    types: Vec<TypeInfoCloneable>,
    borrows: Vec<usize>,
    data: Vec<DynVecCloneable>,
    global_indices: Vec<FreeListHandle<()>>,
    size: u64,
}

/// The first position of a type info among type infos.
pub open spec fn position_of(types: Seq<TypeInfoCloneable>, t: TypeInfoCloneable) -> int {
    choose|i: int| 0 <= i < types.len() && types[i] == t && forall|k: int| 0 <= k < i ==> types[k] != t
}

impl Archetype {
    pub const NULL_INDEX: u64 = 0xffff_ffff_ffff_ffffu64;

    /// One column of records per type, one global handle per slot.
    pub closed spec fn wf(&self) -> bool {
        &&& self.types@.len() == self.borrows@.len()
        &&& self.types@.len() == self.data@.len()
        &&& forall|i: int| 0 <= i < self.data@.len() ==> {
            &&& (#[trigger] self.data@[i]).wf()
            &&& self.data@[i].type_info_spec() == self.types@[i]
            &&& self.data@[i].elements().len() == self.size
        }
        &&& self.global_indices@.len() == self.size
        &&& self.size < usize::MAX
    }

    pub closed spec fn type_seq(&self) -> Seq<TypeInfoCloneable> {
        self.types@
    }

    /// The record of slot `slot` in the column of type number `column`.
    pub closed spec fn record(&self, column: int, slot: int) -> Seq<u8> {
        self.data@[column].elements()[slot]
    }

    /// The global handle of each slot; removed slots hold the dangling handle.
    pub closed spec fn handles(&self) -> Seq<(u32, u32)> {
        self.global_indices@.map_values(|h: FreeListHandle<()>| h@)
    }

    pub closed spec fn slot_count(&self) -> nat {
        self.size as nat
    }

    pub fn new(types: Vec<TypeInfoCloneable>) -> (r: Self)
        ensures
            r.wf(),
            r.type_seq() == types@,
            r.handles() == Seq::<(u32, u32)>::empty(),
            r.slot_count() == 0,
    {
        let n = types.len();
        let mut borrows: Vec<usize> = Vec::new();
        let mut data: Vec<DynVecCloneable> = Vec::new();
        let mut k: usize = 0;
        while k < n
            invariant
                k <= n,
                n == types@.len(),
                borrows@.len() == k,
                data@.len() == k,
                forall|i: int| 0 <= i < k ==> {
                    &&& (#[trigger] data@[i]).wf()
                    &&& data@[i].type_info_spec() == types@[i]
                    &&& data@[i].elements().len() == 0
                },
            decreases n - k,
        {
            borrows.push(0);
            data.push(DynVecCloneable::new(types[k]));
            k = k + 1;
        }
        let r = Self { types, borrows, data, global_indices: Vec::new(), size: 0 };
        assert(r.handles() =~= Seq::<(u32, u32)>::empty());
        r
    }

    fn get_type_index(&self, type_info: &TypeInfoCloneable) -> (r: usize)
        requires
            self.types@.contains(*type_info),
        ensures
            r == position_of(self.types@, *type_info),
            r < self.types@.len(),
            self.types@[r as int] == *type_info,
    {
        let mut i: usize = 0;
        while i < self.types.len()
            invariant
                i <= self.types@.len(),
                self.types@.contains(*type_info),
                forall|k: int| 0 <= k < i ==> self.types@[k] != *type_info,
            decreases self.types@.len() - i,
        {
            if self.types[i] == *type_info {
                proof {
                    let w = position_of(self.types@, *type_info);
                    assert(0 <= i < self.types@.len() && self.types@[i as int] == *type_info
                        && forall|k: int| 0 <= k < i ==> self.types@[k] != *type_info);
                    if w != i as int && w > i as int {
                        assert(self.types@[i as int] != *type_info);
                    }
                }
                return i;
            }
            i = i + 1;
        }
        0
    }

    fn get_type_data(&self, type_info: &TypeInfoCloneable) -> (r: &DynVecCloneable)
        requires
            self.wf(),
            self.types@.contains(*type_info),
        ensures
            *r == self.data@[position_of(self.types@, *type_info)],
            r.wf(),
            r.elements().len() == self.size,
    {
        let i = self.get_type_index(type_info);
        assert(self.data@[i as int].wf());
        &self.data[i]
    }

    /// The record of slot `index` of the type `type_info`.
    pub fn get_raw(&self, type_info: &TypeInfoCloneable, index: u64) -> (r: &[u8])
        requires
            self.wf(),
            self.type_seq().contains(*type_info),
            index < self.slot_count(),
        ensures
            r@ == self.record(position_of(self.type_seq(), *type_info), index as int),
    {
        let src_data = self.get_type_data(type_info);
        src_data.get_bytes(index as usize)
    }

    /// Hands out the next slot index.
    fn allocate_entry(&mut self) -> (r: u64)
        requires
            old(self).size < u64::MAX,
        ensures
            r == old(self).size,
            final(self).size == old(self).size + 1,
            final(self).types == old(self).types,
            final(self).borrows == old(self).borrows,
            final(self).data == old(self).data,
            final(self).global_indices == old(self).global_indices,
    {
        let i = self.size;
        self.size = self.size + 1;
        i
    }

    /// Drops the values of slot `index` and marks it with the dangling handle.
    pub fn remove(&mut self, index: u64)
        requires
            old(self).wf(),
            index < old(self).slot_count(),
            old(self).handles()[index as int] != (u32::MAX, u32::MAX),
        ensures
            final(self).wf(),
            final(self).handles() == old(self).handles().update(index as int, (u32::MAX, u32::MAX)),
            final(self).slot_count() == old(self).slot_count(),
            final(self).type_seq() == old(self).type_seq(),
            forall|c: int, s: int| #[trigger] final(self).record(c, s) == old(self).record(c, s),
    {
        self.global_indices.set(index as usize, FreeListHandle::dangling());
        assert(self.handles() =~= old(self).handles().update(index as int, (u32::MAX, u32::MAX)));
    }

    /// Moves one value per type, given with its type info in the archetype's
    /// type order, into a new slot owned by `global_id`; gives the slot.
    pub fn insert(&mut self, global_id: FreeListHandle<()>, data: Vec<(TypeInfoCloneable, Vec<u8>)>) -> (r: u64)
        requires
            old(self).wf(),
            data@.len() == old(self).type_seq().len(),
            forall|i: int| 0 <= i < data@.len() ==> (#[trigger] data@[i]).1@.len() >= old(self).type_seq()[i].size_spec()
                && data@[i].1@.len() >= data@[i].0.size_spec(),
            old(self).slot_count() + 1 < usize::MAX,
            forall|i: int| 0 <= i < data@.len() ==> (old(self).slot_count() + 1) * (#[trigger] data@[i]).0.stride_spec() <= u64::MAX,
            forall|i: int| 0 <= i < old(self).type_seq().len() ==> (old(self).slot_count() + 1) * (#[trigger] old(self).type_seq()[i]).stride_spec() <= usize::MAX,
        ensures
            final(self).wf(),
            r == old(self).slot_count(),
            final(self).slot_count() == old(self).slot_count() + 1,
            final(self).handles() == old(self).handles().push(global_id@),
            final(self).type_seq() == old(self).type_seq(),
            forall|c: int, s: int| 0 <= c < old(self).type_seq().len() && 0 <= s < old(self).slot_count() ==> #[trigger] final(self).record(c, s) == old(self).record(c, s),
            forall|c: int| 0 <= c < old(self).type_seq().len() ==> #[trigger] final(self).record(c, r as int) == record_of(
                data@[c].1@,
                old(self).type_seq()[c].size_spec() as nat,
                old(self).type_seq()[c].stride_spec() as nat,
            ),
    {
        let index = self.allocate_entry();
        let n = data.len();
        let mut i: usize = 0;
        while i < n
            invariant
                i <= n,
                n == data@.len(),
                n == self.data@.len(),
                n == self.types@.len(),
                index == old(self).size,
                self.types == old(self).types,
                self.borrows == old(self).borrows,
                self.global_indices == old(self).global_indices,
                self.size == old(self).size + 1,
                forall|k: int| 0 <= k < n ==> (#[trigger] data@[k]).1@.len() >= old(self).types@[k].size_spec()
                    && data@[k].1@.len() >= data@[k].0.size_spec(),
                forall|k: int| 0 <= k < n ==> (index + 1) * (#[trigger] data@[k]).0.stride_spec() <= u64::MAX,
                forall|k: int| 0 <= k < n ==> (index + 1) * (#[trigger] old(self).types@[k]).stride_spec() <= usize::MAX,
                index + 1 < usize::MAX,
                forall|k: int| 0 <= k < n ==> (#[trigger] old(self).data@[k]).elements().len() == index
                    && old(self).data@[k].type_info_spec() == old(self).types@[k] && old(self).data@[k].wf(),
                forall|k: int| i <= k < n ==> #[trigger] self.data@[k] == old(self).data@[k],
                forall|k: int| 0 <= k < i ==> (#[trigger] self.data@[k]).wf() && self.data@[k].type_info_spec() == self.types@[k]
                    && self.data@[k].elements() == old(self).data@[k].elements().push(
                    record_of(data@[k].1@, self.types@[k].size_spec() as nat, self.types@[k].stride_spec() as nat),
                ),
            decreases n - i,
        {
            let type_info = data[i].0;
            let stride = type_info.stride() as u64;
            proof {
                assert(index * stride <= (index + 1) * stride) by (nonlinear_arith)
                    requires
                        stride >= 0,
                ;
            }
            let dst_byte_index = index * stride;
            proof {
                let a = type_info.alignment_spec() as int;
                let sz = type_info.size_spec() as int;
                assert(stride as int % a == 0) by {
                    if sz % a == 0 {
                    } else {
                        vstd::arithmetic::div_mod::lemma_mod_add_multiples_vanish(sz - sz % a, a);
                        vstd::arithmetic::div_mod::lemma_fundamental_div_mod(sz, a);
                        assert(sz - sz % a == a * (sz / a));
                        vstd::arithmetic::div_mod::lemma_mod_multiples_basic(sz / a + 1, a);
                        assert(stride as int == (sz / a + 1) * a) by (nonlinear_arith)
                            requires
                                stride as int == sz + (a - sz % a),
                                sz - sz % a == a * (sz / a),
                        ;
                    }
                }
                vstd::arithmetic::div_mod::lemma_mul_mod_noop_right(index as int, stride as int, a);
                vstd::arithmetic::div_mod::lemma_small_mod(0, a as nat);
                assert((index as int * (stride as int % a)) % a == 0);
            }
            if dst_byte_index % (type_info.alignment() as u64) != 0 {
                proof {
                    assert(false);
                }
            }
            let mut column = self.data.remove(i);
            column.push_unchecked(data[i].1.as_slice());
            self.data.insert(i, column);
            i = i + 1;
        }
        self.global_indices.push(global_id);
        proof {
            assert(self.handles() =~= old(self).handles().push(global_id@));
            assert forall|c: int, s: int| 0 <= c < old(self).type_seq().len() && 0 <= s < old(self).slot_count() implies #[trigger] self.record(c, s) == old(self).record(c, s) by {
                assert(self.data@[c].elements()[s] == old(self).data@[c].elements()[s]);
            }
        }
        index
    }

    pub fn type_infos(&self) -> (r: &[TypeInfoCloneable])
        ensures
            r@ == self.type_seq(),
    {
        self.types.as_slice()
    }

    pub fn iter(&self) -> (r: ArchetypeIter<'_>)
        ensures
            r.position() == 0,
            r.archetype() == *self,
    {
        ArchetypeIter::new(self)
    }

    pub fn iter_mut(&mut self) -> (r: ArchetypeIterMut)
        ensures
            r.position() == 0,
            *final(self) == *old(self),
    {
        ArchetypeIterMut::new(self)
    }

    /// The element count of the first column divided by the size of the first
    /// type.
    pub fn length(&self) -> (r: usize)
        requires
            self.wf(),
            self.type_seq().len() > 0,
            self.type_seq()[0].size_spec() > 0,
        ensures
            r == self.slot_count() / (self.type_seq()[0].size_spec() as nat),
    {
        self.data[0].len() / self.types[0].size()
    }
}

/// Walks the slots of an archetype in order, giving each slot's global handle
/// with the records of its values; it stops at the first removed slot.
pub struct ArchetypeIter<'a> {
    archetype: &'a Archetype,
    i: usize,
}

impl<'a> ArchetypeIter<'a> {
    pub closed spec fn position(&self) -> int {
        self.i as int
    }

    pub closed spec fn archetype(&self) -> Archetype {
        *self.archetype
    }

    fn new(archetype: &'a Archetype) -> (r: Self)
        ensures
            r.position() == 0,
            r.archetype() == *archetype,
    {
        Self { archetype, i: 0 }
    }

    /// At the end, or at a removed slot (which it steps over), nothing; else
    /// the slot's handle and the record of each type, and the position
    /// advances.
    pub fn next(&mut self) -> (r: Option<(FreeListHandle<()>, Vec<(TypeInfoCloneable, &'a [u8])>)>)
        requires
            old(self).archetype().wf(),
            old(self).position() <= old(self).archetype().slot_count(),
        ensures
            final(self).archetype() == old(self).archetype(),
            ({
                let a = old(self).archetype();
                let p = old(self).position();
                if p == a.slot_count() {
                    r is None && final(self).position() == p
                } else if a.handles()[p] == (u32::MAX, u32::MAX) {
                    r is None && final(self).position() == p + 1
                } else {
                    &&& final(self).position() == p + 1
                    &&& r is Some
                    &&& r.unwrap().0@ == a.handles()[p]
                    &&& r.unwrap().1@.len() == a.type_seq().len()
                    &&& forall|c: int| 0 <= c < a.type_seq().len() ==> (#[trigger] r.unwrap().1@[c]).0 == a.type_seq()[c]
                        && r.unwrap().1@[c].1@ == a.record(c, p)
                }
            }),
    {
        let arch = self.archetype;
        if self.i as u64 == arch.size {
            return None;
        }
        let global_id = arch.global_indices[self.i];
        if global_id.is_null() {
            self.i = self.i + 1;
            return None;
        }
        let mut vec: Vec<(TypeInfoCloneable, &'a [u8])> = Vec::new();
        let mut k: usize = 0;
        while k < arch.types.len()
            invariant
                k <= arch.types@.len(),
                arch.wf(),
                self.archetype == arch,
                (self.i as int) < arch.size,
                vec@.len() == k,
                forall|c: int| 0 <= c < k ==> (#[trigger] vec@[c]).0 == arch.types@[c] && vec@[c].1@ == arch.record(c, self.i as int),
            decreases arch.types@.len() - k,
        {
            let ty = arch.types[k];
            let bytes = arch.data[k].get_bytes(self.i);
            vec.push((ty, bytes));
            k = k + 1;
        }
        let pos = self.i;
        self.i = self.i + 1;
        Some((global_id, vec))
    }
}

/// Walks the slots of an archetype in order, giving each slot's global handle
/// with its slot index; it stops at the first removed slot.
pub struct ArchetypeIterMut {
    i: usize,
}

impl ArchetypeIterMut {
    pub closed spec fn position(&self) -> int {
        self.i as int
    }

    fn new(archetype: &mut Archetype) -> (r: Self)
        ensures
            r.position() == 0,
            *final(archetype) == *old(archetype),
    {
        Self { i: 0 }
    }

    /// At the end, or at a removed slot (which it steps over), nothing; else
    /// the slot's handle and index, and the position advances.
    pub fn next(&mut self, archetype: &Archetype) -> (r: Option<(FreeListHandle<()>, usize)>)
        requires
            archetype.wf(),
            old(self).position() <= archetype.slot_count(),
        ensures
            ({
                let p = old(self).position();
                if p == archetype.slot_count() {
                    r is None && final(self).position() == p
                } else if archetype.handles()[p] == (u32::MAX, u32::MAX) {
                    r is None && final(self).position() == p + 1
                } else {
                    &&& final(self).position() == p + 1
                    &&& r is Some
                    &&& r.unwrap().0@ == archetype.handles()[p]
                    &&& r.unwrap().1 == p
                }
            }),
    {
        if self.i as u64 == archetype.size {
            return None;
        }
        let global_id = archetype.global_indices[self.i];
        let i = self.i;
        self.i = self.i + 1;
        if global_id.is_null() {
            return None;
        }
        Some((global_id, i))
    }
}

} // verus!
