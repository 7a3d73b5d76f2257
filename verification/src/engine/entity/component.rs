use vstd::prelude::*;
use std::collections::HashMap;

verus! {

broadcast use vstd::std_specs::hash::group_hash_axioms;

/// The borrow state of one component type: a count of shared borrows, or
/// the write bit alone when it is borrowed for writing.
#[derive(Copy, Clone, PartialEq, Eq, Debug, Structural)]
pub struct ComponentTypeBorrow(u32);

/// The bit that marks a write borrow.
pub open spec fn write_bit() -> u32 {
    0x8000_0000u32
}

/// The state after one release: a write borrow frees the type, a shared
/// borrow lowers the count, a free type stays free.
pub open spec fn unborrowed(state: u32) -> u32 {
    if state == write_bit() {
        0
    } else if state == 0 {
        0
    } else {
        (state - 1) as u32
    }
}

impl ComponentTypeBorrow {
    pub const WRITE_BIT: u32 = 0x8000_0000u32;

    /// The raw state: the read count, or the write bit.
    pub closed spec fn view(&self) -> u32 {
        self.0
    }

    pub fn from_raw(state: u32) -> (r: Self)
        ensures
            r@ == state,
    {
        ComponentTypeBorrow(state)
    }

    pub fn free() -> (r: Self)
        ensures
            r@ == 0,
    {
        ComponentTypeBorrow(0)
    }

    pub fn write_locked() -> (r: Self)
        ensures
            r@ == write_bit(),
    {
        ComponentTypeBorrow(0x8000_0000u32)
    }

    /// No borrow of any kind is held.
    pub fn is_writeabe(&self) -> (r: bool)
        ensures
            r == (self@ == 0),
    {
        self.0 == 0
    }

    /// One more shared borrow.
    pub fn inc(&self) -> (r: Self)
        requires
            self@ < u32::MAX,
        ensures
            r@ == self@ + 1,
    {
        Self(self.0 + 1)
    }

    /// Decrements the read count if it is a read borrow, or frees entirely if
    /// a write borrow.
    pub fn unborrow(&self) -> (r: Self)
        ensures
            r@ == unborrowed(self@),
    {
        if self.0 == 0x8000_0000u32 {
            return Self(0);
        }
        Self(self.0.saturating_sub(1))
    }

    /// No write borrow is held.
    pub fn is_readable(&self) -> (r: bool)
        ensures
            r == (self@ < write_bit()),
    {
        let x = self.0;
        assert(((x & 0x8000_0000u32) == 0u32) == (x < 0x8000_0000u32)) by (bit_vector);
        (self.0 & 0x8000_0000u32) == 0
    }
}

/// Releasing a shared borrow undoes taking it, releasing the write borrow
/// frees the type, and a free type is both readable and writeable while a
/// write-locked one is neither.
pub proof fn law_borrow_release(state: u32)
    requires
        state < write_bit() - 1,
    ensures
        unborrowed((state + 1) as u32) == state,
        unborrowed(write_bit()) == 0,
        !(write_bit() < write_bit()) && write_bit() != 0,
        0 < write_bit(),
{
}

/// The borrow states of component types, found by type identifier.
pub struct ComponentBorrowMap {
    borrows: HashMap<u64, ComponentTypeBorrow>,
}

impl ComponentBorrowMap {
    /// Each known type with its borrow state.
    pub closed spec fn view(&self) -> Map<u64, u32> {
        Map::new(|k: u64| self.borrows@.contains_key(k), |k: u64| self.borrows@[k]@)
    }

    pub fn new() -> (r: Self)
        ensures
            r@ == Map::<u64, u32>::empty(),
    {
        let r = Self { borrows: HashMap::new() };
        assert(r@ =~= Map::<u64, u32>::empty());
        r
    }

    /// Takes a shared borrow of the type, which must be known and not borrowed
    /// for writing; gives the new state.
    pub fn borrow_type(&mut self, type_id: &u64) -> (r: ComponentTypeBorrow)
        requires
            old(self)@.contains_key(*type_id),
            old(self)@[*type_id] < write_bit(),
        ensures
            r@ == old(self)@[*type_id] + 1,
            final(self)@ == old(self)@.insert(*type_id, r@),
    {
        let borrow_val = *self.borrows.get(type_id).unwrap();
        let b = ComponentTypeBorrow(borrow_val.0 + 1);
        self.borrows.insert(*type_id, b);
        assert(self@ =~= old(self)@.insert(*type_id, b@));
        b
    }

    /// Takes the write borrow of the type, which must be known and not
    /// borrowed at all; gives the new state.
    pub fn borrow_type_mut(&mut self, type_id: &u64) -> (r: ComponentTypeBorrow)
        requires
            old(self)@.contains_key(*type_id),
            old(self)@[*type_id] == 0,
        ensures
            r@ == write_bit(),
            final(self)@ == old(self)@.insert(*type_id, write_bit()),
    {
        let b = ComponentTypeBorrow(0x8000_0000u32);
        self.borrows.insert(*type_id, b);
        assert(self@ =~= old(self)@.insert(*type_id, write_bit()));
        b
    }

    /// Makes the type known, free, unless it already is.
    pub fn ensure_type_exists(&mut self, type_id: &u64)
        ensures
            final(self)@ == if old(self)@.contains_key(*type_id) {
                old(self)@
            } else {
                old(self)@.insert(*type_id, 0u32)
            },
    {
        if !self.borrows.contains_key(type_id) {
            self.borrows.insert(*type_id, ComponentTypeBorrow(0));
            assert(self@ =~= old(self)@.insert(*type_id, 0u32));
        }
    }
}

} // verus!
