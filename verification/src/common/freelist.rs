use vstd::prelude::*;

verus! {

/// The generation bit that marks a slot as null (never filled, or emptied by
/// a removal that made its generation reach it).
pub open spec fn null_generation_bit() -> u32 {
    0x8000_0000u32
}

/// A generation carries the null bit.
pub open spec fn is_null_generation(generation: u32) -> bool {
    generation >= 0x8000_0000u32
}

/// A generation with the null bit cleared.
pub open spec fn without_null_bit(generation: u32) -> u32 {
    if generation >= 0x8000_0000u32 {
        (generation - 0x8000_0000u32) as u32
    } else {
        generation
    }
}

/// The generation that a removal leaves in a slot: the successor of the old
/// generation masked down to the null bit.
pub open spec fn generation_after_removal(generation: u32) -> u32 {
    if generation + 1 == 0x8000_0000int {
        0x8000_0000u32
    } else {
        0u32
    }
}

proof fn lemma_null_bit(g: u32)
    ensures
        ((g & 0x8000_0000u32) > 0) == is_null_generation(g),
        g & !0x8000_0000u32 == without_null_bit(g),
        ((g & 0x8000_0000u32) == 0) == !is_null_generation(g),
{
    assert(((g & 0x8000_0000u32) > 0u32) == (g >= 0x8000_0000u32)) by (bit_vector);
    assert(g & !0x8000_0000u32 == (if g >= 0x8000_0000u32 {
        (g - 0x8000_0000u32) as u32
    } else {
        g
    })) by (bit_vector);
}

proof fn lemma_removal_generation(g: u32)
    requires
        g < 0x8000_0000u32,
    ensures
        ((g + 1) as u32) & 0x8000_0000u32 == generation_after_removal(g),
{
    assert((((g + 1) as u32) & 0x8000_0000u32) == (if ((g + 1) as u32) == 0x8000_0000u32 {
        0x8000_0000u32
    } else {
        0u32
    })) by (bit_vector)
        requires
            g < 0x8000_0000u32,
    ;
}

/// One slot of a free list: a generation, and the value the slot holds.
pub struct FreeListNode<T> {
    generation: u32,
    data: Option<T>,
}

impl<T> FreeListNode<T> {
    pub closed spec fn view(&self) -> (u32, Option<T>) {
        (self.generation, self.data)
    }

    /// A slot that holds nothing and whose generation carries the null bit.
    pub fn new_null() -> (r: Self)
        ensures
            r@ == (0x8000_0000u32, None::<T>),
    {
        Self { generation: 0x8000_0000u32, data: None }
    }

    /// Whether the slot's generation carries the null bit.
    pub fn is_null(&self) -> (r: bool)
        ensures
            r == is_null_generation(self@.0),
    {
        proof {
            lemma_null_bit(self.generation);
        }
        (self.generation & 0x8000_0000u32) > 0
    }
}

/// A typed handle to a slot of a free list: the slot's index and the
/// generation it was handed out with.
pub struct FreeListHandle<T> {
    index: u32,
    generation: u32,
    _marker: core::marker::PhantomData<T>,
}

impl<T> Clone for FreeListHandle<T> {
    fn clone(&self) -> (r: Self)
        ensures
            r@ == self@,
    {
        FreeListHandle { index: self.index, generation: self.generation, _marker: core::marker::PhantomData }
    }
}

impl<T> Copy for FreeListHandle<T> {

}

impl<T> PartialEq for FreeListHandle<T> {
    fn eq(&self, other: &Self) -> (r: bool) {
        self.index == other.index && self.generation == other.generation
    }
}

impl<T> vstd::std_specs::cmp::PartialEqSpecImpl for FreeListHandle<T> {
    open spec fn obeys_eq_spec() -> bool {
        true
    }

    open spec fn eq_spec(&self, other: &Self) -> bool {
        self@ == other@
    }
}

impl<T> Eq for FreeListHandle<T> {

}

impl<T> FreeListHandle<T> {
    /// The handle as (index, generation).
    pub closed spec fn view(&self) -> (u32, u32) {
        (self.index, self.generation)
    }

    pub fn new(index: u32, generation: u32) -> (r: Self)
        ensures
            r@ == (index, generation),
    {
        Self { index, generation, _marker: core::marker::PhantomData }
    }

    pub fn index(&self) -> (r: u32)
        ensures
            r == self@.0,
    {
        self.index
    }

    pub fn generation(&self) -> (r: u32)
        ensures
            r == self@.1,
    {
        self.generation
    }

    /// The handle that refers to no slot: index and generation both `u32::MAX`.
    pub fn dangling() -> (r: Self)
        ensures
            r@ == (u32::MAX, u32::MAX),
    {
        Self::new(u32::MAX, u32::MAX)
    }

    /// Whether this is the dangling handle.
    pub fn is_null(&self) -> (r: bool)
        ensures
            r == (self@ == (u32::MAX, u32::MAX)),
    {
        self.index == u32::MAX && self.generation == u32::MAX
    }

    /// The same index and generation, with the type forgotten.
    pub fn as_untyped(self) -> (r: FreeListHandle<()>)
        ensures
            r@ == self@,
    {
        FreeListHandle::<()> { index: self.index, generation: self.generation, _marker: core::marker::PhantomData }
    }

    /// The same index and generation, as a handle of another type.
    pub fn as_typed<R>(self) -> (r: FreeListHandle<R>)
        ensures
            r@ == self@,
    {
        FreeListHandle::<R> { index: self.index, generation: self.generation, _marker: core::marker::PhantomData }
    }
}

/// The handle that a push hands out next: the slot on top of the free stack
/// with its generation's null bit cleared, or a new slot at the end with
/// generation 0.
pub open spec fn next_handle_of<T>(nodes: Seq<(u32, Option<T>)>, free: Seq<usize>) -> (u32, u32) {
    if free.len() > 0 {
        let i = free.last();
        (i as u32, without_null_bit(nodes[i as int].0))
    } else {
        (nodes.len() as u32, 0u32)
    }
}

/// The slots after a push of `val`: the most recently freed slot, keeping
/// its generation, or a new slot at the end with generation 0, holds `val`.
pub open spec fn nodes_after_push<T>(nodes: Seq<(u32, Option<T>)>, free: Seq<usize>, val: T) -> Seq<(u32, Option<T>)> {
    if free.len() > 0 {
        let i = free.last() as int;
        nodes.update(i, (nodes[i].0, Some(val)))
    } else {
        nodes.push((0u32, Some(val)))
    }
}

/// The free stack after a push: its top is consumed.
pub open spec fn free_after_push(free: Seq<usize>) -> Seq<usize> {
    if free.len() > 0 {
        free.drop_last()
    } else {
        free
    }
}

/// The slots after removing the value of slot `index`.
pub open spec fn nodes_after_remove<T>(nodes: Seq<(u32, Option<T>)>, index: int) -> Seq<(u32, Option<T>)> {
    nodes.update(index, (generation_after_removal(nodes[index].0), None::<T>))
}

/// A slot that iteration visits: not null, and holding a value.
pub open spec fn is_occupied<T>(nodes: Seq<(u32, Option<T>)>, index: int) -> bool {
    !is_null_generation(nodes[index].0) && nodes[index].1 is Some
}

/// What a lookup of slot `index` gives: nothing when the slot is null, else
/// the value it holds.
pub open spec fn lookup_of<T>(nodes: Seq<(u32, Option<T>)>, index: int) -> Option<T> {
    if is_null_generation(nodes[index].0) {
        None
    } else {
        nodes[index].1
    }
}

/// A generational arena: values live in slots addressed by handles, and the
/// slots freed by removals are reused, last freed first.
pub struct FreeList<T> {
    data: Vec<FreeListNode<T>>,
    free: Vec<usize>,
}

impl<T> FreeList<T> {
    /// The slots, in index order, each as (generation, value).
    pub closed spec fn nodes(&self) -> Seq<(u32, Option<T>)> {
        self.data@.map_values(|n: FreeListNode<T>| n@)
    }

    /// The stack of freed slot indices; the last one is reused first.
    pub closed spec fn free_stack(&self) -> Seq<usize> {
        self.free@
    }

    /// Every freed index names a slot.
    pub open spec fn wf(&self) -> bool {
        forall|i: int| 0 <= i < self.free_stack().len() ==> (#[trigger] self.free_stack()[i]) < self.nodes().len()
    }

    pub fn new() -> (r: Self)
        ensures
            r.wf(),
            r.nodes() == Seq::<(u32, Option<T>)>::empty(),
            r.free_stack() == Seq::<usize>::empty(),
    {
        let r = Self { data: Vec::new(), free: Vec::new() };
        assert(r.nodes() =~= Seq::<(u32, Option<T>)>::empty());
        r
    }

    /// Stores `val` in the most recently freed slot, keeping that slot's
    /// generation, or in a new slot at the end with generation 0. The handle
    /// is the one `next_free_handle` named before the call.
    pub fn push(&mut self, val: T) -> (r: FreeListHandle<T>)
        requires
            old(self).wf(),
        ensures
            final(self).wf(),
            r@ == next_handle_of(old(self).nodes(), old(self).free_stack()),
            final(self).nodes() == nodes_after_push(old(self).nodes(), old(self).free_stack(), val),
            final(self).free_stack() == free_after_push(old(self).free_stack()),
    {
        let ghost old_nodes = self.nodes();
        if let Some(next_free) = self.free.pop() {
            proof {
                assert(self.free@ == old(self).free@.drop_last());
                assert(old(self).free@[old(self).free@.len() - 1] == next_free);
                lemma_null_bit(self.data@[next_free as int].generation);
            }
            let generation = self.data[next_free].generation & !0x8000_0000u32;
            self.data[next_free].data = Some(val);
            proof {
                assert(self.nodes() =~= old_nodes.update(next_free as int, (old_nodes[next_free as int].0, Some(val))));
                assert forall|i: int| 0 <= i < self.free_stack().len() implies (#[trigger] self.free_stack()[i]) < self.nodes().len() by {
                    assert(self.free_stack()[i] == old(self).free_stack()[i]);
                }
            }
            return FreeListHandle::new(next_free as u32, generation);
        }
        self.data.push(FreeListNode { generation: 0, data: Some(val) });
        proof {
            assert(self.nodes() =~= old_nodes.push((0u32, Some(val))));
        }
        let len = self.data.len();
        FreeListHandle::new((len - 1) as u32, 0)
    }

    /// Writes `val` into the slot that `handle` names, under the handle's
    /// generation, first growing the list with null slots when the index lies
    /// past its end.
    pub fn insert_in_place(&mut self, handle: FreeListHandle<T>, val: T)
        requires
            old(self).wf(),
            !is_null_generation(handle@.1),
            (handle@.0 as int) < usize::MAX,
        ensures
            final(self).wf(),
            final(self).free_stack() == old(self).free_stack(),
            handle@.0 < old(self).nodes().len() ==> final(self).nodes() == old(self).nodes().update(
                handle@.0 as int,
                (handle@.1, Some(val)),
            ),
            handle@.0 >= old(self).nodes().len() ==> {
                &&& final(self).nodes().len() == handle@.0 + 1
                &&& final(self).nodes().subrange(0, old(self).nodes().len() as int) == old(self).nodes()
                &&& forall|i: int|
                    old(self).nodes().len() <= i < handle@.0 ==> #[trigger] final(self).nodes()[i] == (
                    0x8000_0000u32,
                    None::<T>,
                )
                &&& final(self).nodes()[handle@.0 as int] == (handle@.1, Some(val))
            },
    {
        let idx = handle.index as usize;
        if idx >= self.data.len() {
            let ghost old_nodes = self.nodes();
            while self.data.len() < idx + 1
                invariant
                    old_nodes.len() <= self.data@.len() <= idx + 1,
                    self.free@ == old(self).free@,
                    old_nodes == old(self).nodes(),
                    idx < usize::MAX,
                    old(self).wf(),
                    self.nodes().subrange(0, old_nodes.len() as int) == old_nodes,
                    forall|i: int|
                        old_nodes.len() <= i < self.data@.len() ==> #[trigger] self.nodes()[i] == (
                        0x8000_0000u32,
                        None::<T>,
                    ),
                decreases idx + 1 - self.data@.len(),
            {
                let ghost before = self.nodes();
                self.data.push(FreeListNode::new_null());
                proof {
                    assert(self.nodes() =~= before.push((0x8000_0000u32, None::<T>)));
                    assert(self.nodes().subrange(0, old_nodes.len() as int) =~= before.subrange(0, old_nodes.len() as int));
                }
            }
        }
        proof {
            assert forall|i: int| 0 <= i < self.free_stack().len() implies (#[trigger] self.free_stack()[i]) < self.nodes().len() by {
                assert(self.free_stack()[i] == old(self).free_stack()[i]);
            }
        }
        self.set(handle, val);
    }

    /// Empties the slot that `handle` names and pushes its index on the free
    /// stack, giving back the value. The slot's generation becomes the old
    /// one plus one, masked to the null bit.
    pub fn remove(&mut self, handle: FreeListHandle<T>) -> (r: T)
        requires
            old(self).wf(),
            (handle@.0 as int) < old(self).nodes().len(),
            !is_null_generation(old(self).nodes()[handle@.0 as int].0),
            old(self).nodes()[handle@.0 as int].1.is_some(),
        ensures
            final(self).wf(),
            Some(r) == old(self).nodes()[handle@.0 as int].1,
            final(self).free_stack() == old(self).free_stack().push(handle@.0 as usize),
            final(self).nodes() == nodes_after_remove(old(self).nodes(), handle@.0 as int),
    {
        let idx = handle.index as usize;
        let ghost old_nodes = self.nodes();
        self.free.push(idx);
        let g = self.data[idx].generation;
        proof {
            lemma_removal_generation(g);
        }
        let res = self.data[idx].data.take();
        self.data[idx].generation = (g + 1) & 0x8000_0000u32;
        proof {
            assert(self.nodes() =~= old_nodes.update(
                idx as int,
                (generation_after_removal(old_nodes[idx as int].0), None::<T>),
            ));
            assert forall|i: int| 0 <= i < self.free_stack().len() implies (#[trigger] self.free_stack()[i]) < self.nodes().len() by {
                if i < old(self).free_stack().len() {
                    assert(self.free_stack()[i] == old(self).free_stack()[i]);
                }
            }
        }
        res.unwrap()
    }

    /// Whether the slot that `handle` names is null (its generation is not
    /// compared).
    pub fn is_free(&self, handle: FreeListHandle<T>) -> (r: bool)
        requires
            (handle@.0 as int) < self.nodes().len(),
        ensures
            r == is_null_generation(self.nodes()[handle@.0 as int].0),
    {
        self.data[handle.index as usize].is_null()
    }

    /// The value in the slot that `handle` names, unless the slot is null
    /// (its generation is not compared).
    pub fn get(&self, handle: FreeListHandle<T>) -> (r: Option<&T>)
        requires
            (handle@.0 as int) < self.nodes().len(),
        ensures
            match r {
                Some(v) => lookup_of(self.nodes(), handle@.0 as int) == Some(*v),
                None => lookup_of(self.nodes(), handle@.0 as int) is None,
            },
    {
        if self.is_free(handle) {
            return None;
        }
        self.data[handle.index as usize].data.as_ref()
    }

    /// Overwrites the slot that `handle` names with `val`, under the handle's
    /// generation.
    pub fn set(&mut self, handle: FreeListHandle<T>, val: T)
        requires
            old(self).wf(),
            (handle@.0 as int) < old(self).nodes().len(),
            !is_null_generation(handle@.1),
        ensures
            final(self).wf(),
            final(self).free_stack() == old(self).free_stack(),
            final(self).nodes() == old(self).nodes().update(handle@.0 as int, (handle@.1, Some(val))),
    {
        let ghost old_nodes = self.nodes();
        let idx = handle.index as usize;
        self.data[idx].generation = handle.generation;
        self.data[idx].data = Some(val);
        proof {
            assert(self.nodes() =~= old_nodes.update(idx as int, (handle@.1, Some(val))));
            assert forall|i: int| 0 <= i < self.free_stack().len() implies (#[trigger] self.free_stack()[i]) < self.nodes().len() by {
                assert(self.free_stack()[i] == old(self).free_stack()[i]);
            }
        }
    }

    /// If we did push, this is the next free handle that we would be given,
    /// this handle is not valid to use.
    pub fn next_free_handle(&self) -> (r: FreeListHandle<T>)
        requires
            self.wf(),
        ensures
            r@ == next_handle_of(self.nodes(), self.free_stack()),
    {
        let n = self.free.len();
        if n > 0 {
            let free = self.free[n - 1];
            proof {
                lemma_null_bit(self.data@[free as int].generation);
            }
            return FreeListHandle::new(free as u32, self.data[free].generation & !0x8000_0000u32);
        }
        FreeListHandle::new(self.data.len() as u32, 0)
    }
}


impl<T> FreeList<T> {
    /// The value in the slot that `handle` names, for writing, unless the
    /// slot is null (its generation is not compared).
    pub fn get_mut(&mut self, handle: FreeListHandle<T>) -> (r: Option<&mut T>)
        requires
            (handle@.0 as int) < old(self).nodes().len(),
        ensures
            match r {
                Some(v) => {
                    &&& lookup_of(old(self).nodes(), handle@.0 as int) == Some(*v)
                    &&& final(self).nodes() == old(self).nodes().update(
                        handle@.0 as int,
                        (old(self).nodes()[handle@.0 as int].0, Some(*final(v))),
                    )
                    &&& final(self).free_stack() == old(self).free_stack()
                },
                None => {
                    &&& lookup_of(old(self).nodes(), handle@.0 as int) is None
                    &&& final(self).nodes() == old(self).nodes()
                    &&& final(self).free_stack() == old(self).free_stack()
                },
            },
    {
        if self.is_free(handle) {
            return None;
        }
        self.data[handle.index as usize].data.as_mut()
    }

    pub fn iter(&self) -> (r: FreeListIterator<'_, T>)
        ensures
            r.position() == 0,
            r.list_nodes() == self.nodes(),
    {
        FreeListIterator { free_list: self, left: 0 }
    }

    pub fn iter_with_handle(&self) -> (r: FreeListIteratorHandle<'_, T>)
        ensures
            r.position() == 0,
            r.list_nodes() == self.nodes(),
    {
        FreeListIteratorHandle { free_list: self, left: 0 }
    }

    pub fn iter_with_handle_mut(&mut self) -> (r: FreeListHandleIteratorMut<T>)
        ensures
            r.position() == 0,
            *final(self) == *old(self),
    {
        FreeListHandleIteratorMut { left: 0, _marker: core::marker::PhantomData }
    }
}

/// Walks the occupied slots of a free list in index order, giving their values.
pub struct FreeListIterator<'a, T> {
    free_list: &'a FreeList<T>,
    left: usize,
}

impl<'a, T> FreeListIterator<'a, T> {
    /// The index of the next slot to look at.
    pub closed spec fn position(&self) -> int {
        self.left as int
    }

    /// The slots of the list being walked.
    pub closed spec fn list_nodes(&self) -> Seq<(u32, Option<T>)> {
        self.free_list.nodes()
    }

    /// The value of the next occupied slot at or after the position, which
    /// then moves past it; at the end, nothing, and the position moves to
    /// the end.
    pub fn next(&mut self) -> (r: Option<&'a T>)
        ensures
            final(self).list_nodes() == old(self).list_nodes(),
            match r {
                Some(v) => {
                    let j = final(self).position() - 1;
                    &&& old(self).position() <= j < old(self).list_nodes().len()
                    &&& is_occupied(old(self).list_nodes(), j)
                    &&& old(self).list_nodes()[j].1 == Some(*v)
                    &&& forall|k: int| old(self).position() <= k < j ==> !is_occupied(old(self).list_nodes(), k)
                },
                None => {
                    &&& final(self).position() == if old(self).position() >= old(self).list_nodes().len() {
                        old(self).position()
                    } else {
                        old(self).list_nodes().len() as int
                    }
                    &&& forall|k: int| old(self).position() <= k < old(self).list_nodes().len() ==> !is_occupied(old(self).list_nodes(), k)
                },
            },
    {
        let free_list = self.free_list;
        let len = free_list.data.len();
        let ghost start = self.left as int;
        while self.left < len
            invariant
                self.free_list == free_list,
                len == free_list.nodes().len(),
                start <= self.left,
                self.left <= len || self.left == start,
                start == old(self).position(),
                old(self).free_list == free_list,
                forall|k: int| start <= k < self.left ==> !is_occupied(free_list.nodes(), k),
            decreases len - self.left,
        {
            let node = &free_list.data[self.left];
            let i = self.left;
            self.left = self.left + 1;
            if !node.is_null() {
                match node.data.as_ref() {
                    Some(v) => {
                        return Some(v);
                    },
                    None => {},
                }
            }
        }
        None
    }
}

/// Walks the occupied slots of a free list in index order, giving each slot's
/// handle (index and stored generation) with its value.
pub struct FreeListIteratorHandle<'a, T> {
    free_list: &'a FreeList<T>,
    left: usize,
}

impl<'a, T> FreeListIteratorHandle<'a, T> {
    /// The index of the next slot to look at.
    pub closed spec fn position(&self) -> int {
        self.left as int
    }

    /// The slots of the list being walked.
    pub closed spec fn list_nodes(&self) -> Seq<(u32, Option<T>)> {
        self.free_list.nodes()
    }

    /// The handle and value of the next occupied slot at or after the
    /// position, which then moves past it; at the end, nothing.
    pub fn next(&mut self) -> (r: Option<(FreeListHandle<T>, &'a T)>)
        ensures
            final(self).list_nodes() == old(self).list_nodes(),
            match r {
                Some((h, v)) => {
                    let j = final(self).position() - 1;
                    &&& old(self).position() <= j < old(self).list_nodes().len()
                    &&& is_occupied(old(self).list_nodes(), j)
                    &&& old(self).list_nodes()[j].1 == Some(*v)
                    &&& h@ == (j as u32, old(self).list_nodes()[j].0)
                    &&& forall|k: int| old(self).position() <= k < j ==> !is_occupied(old(self).list_nodes(), k)
                },
                None => {
                    &&& final(self).position() == if old(self).position() >= old(self).list_nodes().len() {
                        old(self).position()
                    } else {
                        old(self).list_nodes().len() as int
                    }
                    &&& forall|k: int| old(self).position() <= k < old(self).list_nodes().len() ==> !is_occupied(old(self).list_nodes(), k)
                },
            },
    {
        let free_list = self.free_list;
        let len = free_list.data.len();
        let ghost start = self.left as int;
        while self.left < len
            invariant
                self.free_list == free_list,
                len == free_list.nodes().len(),
                start <= self.left,
                self.left <= len || self.left == start,
                start == old(self).position(),
                old(self).free_list == free_list,
                forall|k: int| start <= k < self.left ==> !is_occupied(free_list.nodes(), k),
            decreases len - self.left,
        {
            let node = &free_list.data[self.left];
            let i = self.left;
            self.left = self.left + 1;
            if !node.is_null() {
                match node.data.as_ref() {
                    Some(v) => {
                        return Some((FreeListHandle::new(i as u32, node.generation), v));
                    },
                    None => {},
                }
            }
        }
        None
    }
}

/// Walks the slots of a free list whose index is not on the free stack, in
/// index order, giving their handles; the caller reaches each value through
/// `FreeList::get_mut`.
pub struct FreeListHandleIteratorMut<T> {
    left: usize,
    _marker: core::marker::PhantomData<T>,
}

impl<T> FreeListHandleIteratorMut<T> {
    /// The index of the next slot to look at.
    pub closed spec fn position(&self) -> int {
        self.left as int
    }

    /// The handle (index and stored generation) of the next slot at or after
    /// the position whose index is not on the free stack; the position then
    /// moves past it.
    pub fn next(&mut self, free_list: &FreeList<T>) -> (r: Option<FreeListHandle<T>>)
        ensures
            match r {
                Some(h) => {
                    let j = final(self).position() - 1;
                    &&& old(self).position() <= j < free_list.nodes().len()
                    &&& !free_list.free_stack().contains(j as usize)
                    &&& h@ == (j as u32, free_list.nodes()[j].0)
                    &&& forall|k: int| old(self).position() <= k < j ==> free_list.free_stack().contains(#[trigger] (k as usize))
                },
                None => {
                    &&& final(self).position() == if old(self).position() >= free_list.nodes().len() {
                        old(self).position()
                    } else {
                        free_list.nodes().len() as int
                    }
                    &&& forall|k: int|
                        old(self).position() <= k < free_list.nodes().len() ==> free_list.free_stack().contains(#[trigger] (k as usize))
                },
            },
    {
        let len = free_list.data.len();
        let ghost start = self.left as int;
        while self.left < len
            invariant
                len == free_list.nodes().len(),
                start <= self.left,
                self.left <= len || self.left == start,
                start == old(self).position(),
                forall|k: int| start <= k < self.left ==> free_list.free_stack().contains(#[trigger] (k as usize)),
            decreases len - self.left,
        {
            let i = self.left;
            self.left = self.left + 1;
            let mut on_free = false;
            let mut f: usize = 0;
            while f < free_list.free.len()
                invariant
                    f <= free_list.free@.len(),
                    on_free == exists|q: int| 0 <= q < f && free_list.free@[q] == i,
                decreases free_list.free@.len() - f,
            {
                if free_list.free[f] == i {
                    on_free = true;
                }
                f = f + 1;
            }
            if !on_free {
                return Some(FreeListHandle::new(i as u32, free_list.data[i].generation));
            }
        }
        None
    }
}

/// The handle that a push hands out is the one that `next_free_handle`
/// names just before, and the slot it names then holds the pushed value,
/// unless that slot's generation carries the null bit.
pub proof fn law_push_then_get<T>(nodes: Seq<(u32, Option<T>)>, free: Seq<usize>, val: T)
    requires
        forall|i: int| 0 <= i < free.len() ==> (#[trigger] free[i]) < nodes.len(),
    ensures
        ({
            let h = next_handle_of(nodes, free);
            let after = nodes_after_push(nodes, free, val);
            let i = if free.len() > 0 { free.last() as int } else { nodes.len() as int };
            &&& i < after.len()
            &&& (!is_null_generation(after[i].0) ==> lookup_of(after, i) == Some(val))
            &&& (free.len() == 0 ==> lookup_of(after, i) == Some(val))
            &&& (i as u32 == h.0)
        }),
{
}

/// Removing a slot puts its index on top of the free stack, so the next push
/// reuses that very index.
pub proof fn law_remove_then_push_reuses<T>(nodes: Seq<(u32, Option<T>)>, free: Seq<usize>, index: usize)
    requires
        index < nodes.len(),
    ensures
        next_handle_of(nodes_after_remove(nodes, index as int), free.push(index)).0 == index as u32,
{
    assert(free.push(index).last() == index);
}

/// A value pushed and then removed through the handle it got comes back out,
/// and the slot is left empty.
pub proof fn law_push_then_remove<T>(nodes: Seq<(u32, Option<T>)>, free: Seq<usize>, val: T)
    requires
        forall|i: int| 0 <= i < free.len() ==> (#[trigger] free[i]) < nodes.len(),
    ensures
        ({
            let after = nodes_after_push(nodes, free, val);
            let i = if free.len() > 0 { free.last() as int } else { nodes.len() as int };
            &&& after[i].1 == Some(val)
            &&& nodes_after_remove(after, i)[i].1 is None
        }),
{
}

/// After a set, a lookup of the slot gives the value written.
pub proof fn law_set_then_get<T>(nodes: Seq<(u32, Option<T>)>, index: int, generation: u32, val: T)
    requires
        0 <= index < nodes.len(),
        !is_null_generation(generation),
    ensures
        lookup_of(nodes.update(index, (generation, Some(val))), index) == Some(val),
{
}

} // verus!
