use vstd::prelude::*;

pub mod collider;
pub mod game_entity;
pub mod world;

verus! {

/// A text file loaded as an asset.
pub struct TextAsset {
    pub contents: String,
}

} // verus!
