use vstd::prelude::*;

use crate::common::dyn_vec::{DynVecCloneable, TypeInfoCloneable, record_of};

verus! {

/// The kinds of collider.
#[derive(Clone, Copy, PartialEq, Eq, Debug, Structural)]
pub enum ColliderType {
    Null,
    Capsule,
    Plane,
    Box,
}

/// The colliders of a registry, grouped by kind, each kind's colliders held
/// as the records of a type-erased vector.
pub struct ColliderRegistryAsset {
    pub colliders: Vec<(ColliderType, DynVecCloneable)>,
}

impl ColliderRegistryAsset {
    /// At most one group per kind, each group well formed.
    pub open spec fn wf(&self) -> bool {
        &&& forall|i: int, j: int| 0 <= i < j < self.colliders@.len() ==> self.colliders@[i].0 != self.colliders@[j].0
        &&& forall|i: int| 0 <= i < self.colliders@.len() ==> (#[trigger] self.colliders@[i]).1.wf()
    }

    pub fn new() -> (r: Self)
        ensures
            r.wf(),
            r.colliders@ == Seq::<(ColliderType, DynVecCloneable)>::empty(),
    {
        Self { colliders: Vec::new() }
    }

    /// Appends the collider (its kind, type and bytes) to the group of its
    /// kind, making the group, typed by `type_info`, when there is none.
    pub fn register_collider(&mut self, collider_type: ColliderType, type_info: TypeInfoCloneable, collider: &[u8])
        requires
            old(self).wf(),
            forall|i: int| 0 <= i < old(self).colliders@.len() && (#[trigger] old(self).colliders@[i]).0 == collider_type ==> {
                let v = old(self).colliders@[i].1;
                &&& collider@.len() >= v.type_info_spec().size_spec()
                &&& (v.elements().len() + 1) * v.type_info_spec().stride_spec() <= usize::MAX
                &&& v.elements().len() < usize::MAX
            },
            collider@.len() >= type_info.size_spec(),
            type_info.stride_spec() <= usize::MAX,
        ensures
            final(self).wf(),
            exists|i: int| 0 <= i < final(self).colliders@.len() && (#[trigger] final(self).colliders@[i]).0 == collider_type,
            forall|i: int| 0 <= i < old(self).colliders@.len() ==> {
                &&& (#[trigger] final(self).colliders@[i]).0 == old(self).colliders@[i].0
                &&& old(self).colliders@[i].0 != collider_type ==> final(self).colliders@[i] == old(self).colliders@[i]
                &&& old(self).colliders@[i].0 == collider_type ==> {
                    let v = old(self).colliders@[i].1;
                    &&& final(self).colliders@[i].1.type_info_spec() == v.type_info_spec()
                    &&& final(self).colliders@[i].1.elements() == v.elements().push(
                        record_of(collider@, v.type_info_spec().size_spec() as nat, v.type_info_spec().stride_spec() as nat),
                    )
                }
            },
            (forall|i: int| 0 <= i < old(self).colliders@.len() ==> (#[trigger] old(self).colliders@[i]).0 != collider_type) ==> {
                let n = old(self).colliders@.len() as int;
                &&& final(self).colliders@.len() == n + 1
                &&& final(self).colliders@[n].0 == collider_type
                &&& final(self).colliders@[n].1.type_info_spec() == type_info
                &&& final(self).colliders@[n].1.elements() == seq![record_of(collider@, type_info.size_spec() as nat, type_info.stride_spec() as nat)]
            },
            (exists|i: int| 0 <= i < old(self).colliders@.len() && (#[trigger] old(self).colliders@[i]).0 == collider_type)
                ==> final(self).colliders@.len() == old(self).colliders@.len(),
    {
        let mut i: usize = 0;
        while i < self.colliders.len()
            invariant
                i <= self.colliders@.len(),
                self.colliders@ == old(self).colliders@,
                old(self).wf(),
                forall|k: int| 0 <= k < old(self).colliders@.len() && (#[trigger] old(self).colliders@[k]).0 == collider_type ==> {
                    let v = old(self).colliders@[k].1;
                    &&& collider@.len() >= v.type_info_spec().size_spec()
                    &&& (v.elements().len() + 1) * v.type_info_spec().stride_spec() <= usize::MAX
                    &&& v.elements().len() < usize::MAX
                },
                forall|k: int| 0 <= k < i ==> (#[trigger] self.colliders@[k]).0 != collider_type,
            decreases self.colliders@.len() - i,
        {
            if self.colliders[i].0 == collider_type {
                proof {
                    assert(old(self).colliders@[i as int].1.wf());
                }
                let (t, mut v) = self.colliders.remove(i);
                v.push_unchecked(collider);
                self.colliders.insert(i, (t, v));
                proof {
                    assert(self.colliders@[i as int].0 == collider_type);
                    assert forall|a: int, b: int| 0 <= a < b < self.colliders@.len() implies self.colliders@[a].0 != self.colliders@[b].0 by {
                        assert(self.colliders@[a].0 == old(self).colliders@[a].0);
                        assert(self.colliders@[b].0 == old(self).colliders@[b].0);
                    }
                    assert forall|k: int| 0 <= k < old(self).colliders@.len() && (#[trigger] old(self).colliders@[k]).0 == collider_type implies k == i as int by {
                        if k != i as int {
                            if k < i {
                            } else {
                                assert(old(self).colliders@[i as int].0 != old(self).colliders@[k].0);
                            }
                        }
                    }
                }
                return;
            }
            i = i + 1;
        }
        let mut v = DynVecCloneable::new(type_info);
        proof {
            assert((0 + 1) * type_info.stride_spec() == type_info.stride_spec()) by (nonlinear_arith);
        }
        v.push_unchecked(collider);
        self.colliders.push((collider_type, v));
        proof {
            let n = old(self).colliders@.len() as int;
            assert(self.colliders@[n].1.elements() =~= seq![record_of(collider@, type_info.size_spec() as nat, type_info.stride_spec() as nat)]);
            assert(self.colliders@[n].0 == collider_type);
        }
    }
}

} // verus!
