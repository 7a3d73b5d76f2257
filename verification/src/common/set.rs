use vstd::prelude::*;
use std::collections::HashSet;

verus! {

/// A value whose fields can be compared with an earlier version of itself,
/// naming the fields that changed.
pub trait AttributeSetImpl: Clone + Sized {
    type E: Clone + std::hash::Hash;

    /// The fields of `self` that differ from `last`.
    fn aggregate_updates(&self, last: &Self) -> HashSet<Self::E>;

    /// Every field of `self`.
    fn aggregate_all_fields(&self) -> HashSet<Self::E>;
}

/// Tracks a value across refreshes and the fields that changed at the last
/// refresh.
pub struct AttributeSet<T> where T: AttributeSetImpl {
    data: Option<T>,
    updates: HashSet<T::E>,
}

impl<T> AttributeSet<T> where T: AttributeSetImpl {
    /// The value seen at the last refresh, if any.
    pub closed spec fn last_data(&self) -> Option<T> {
        self.data
    }

    /// The fields changed at the last refresh.
    pub closed spec fn update_set(&self) -> Set<T::E> {
        self.updates@
    }

    pub fn new() -> (r: Self)
        ensures
            r.last_data() is None,
            r.update_set() == Set::<T::E>::empty(),
    {
        Self { data: None, updates: HashSet::new() }
    }

    /// Records `new_data` as the latest value; the updates become the fields
    /// that changed since the value seen before, or none at the first refresh.
    pub fn refresh_updates(&mut self, new_data: &T)
        ensures
            final(self).last_data() is Some,
            cloned(*new_data, final(self).last_data().unwrap()),
            old(self).last_data() is None ==> final(self).update_set() == Set::<T::E>::empty(),
            old(self).last_data() is Some ==> exists|u: HashSet<T::E>|
                call_ensures(T::aggregate_updates, (new_data, &old(self).last_data().unwrap()), u)
                    && final(self).update_set() == u@,
    {
        let aggregate = T::aggregate_updates;
        let ghost mut witness: Option<HashSet<T::E>> = None;
        match self.data.as_ref() {
            Some(last_data) => {
                let u = aggregate(new_data, last_data);
                proof {
                    assert(*last_data == old(self).last_data().unwrap());
                    witness = Some(u);
                }
                self.updates = u;
            },
            None => {
                self.updates = HashSet::new();
            },
        }
        self.data = Some(new_data.clone());
        proof {
            if old(self).last_data() is Some {
                let u = witness.unwrap();
                assert(call_ensures(T::aggregate_updates, (new_data, &old(self).last_data().unwrap()), u)
                    && self.update_set() == u@);
            }
        }
    }

    pub fn updates(&self) -> (r: &HashSet<T::E>)
        ensures
            r@ == self.update_set(),
    {
        &self.updates
    }
}

} // verus!
