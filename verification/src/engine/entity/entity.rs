use vstd::prelude::*;

use crate::engine::entity::ecs_world::Entity;

verus! {

/// The parent of an entity in the hierarchy.
pub struct EntityParent {
    pub parent: Entity,
}

impl EntityParent {
    pub fn new(parent: Entity) -> (r: Self)
        ensures
            r.parent@ == parent@,
    {
        Self { parent: parent }
    }
}

} // verus!
