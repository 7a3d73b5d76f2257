use vstd::prelude::*;

use crate::engine::asset::asset::AssetPath;

verus! {

/// The scripts attached to an entity.
pub struct ScriptableEntity {
    pub scripts: Vec<AssetPath>,
}

impl ScriptableEntity {
    pub fn new() -> (r: Self)
        ensures
            r.scripts@ == Seq::<AssetPath>::empty(),
    {
        Self { scripts: Vec::new() }
    }
}

} // verus!
