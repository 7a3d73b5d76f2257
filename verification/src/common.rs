pub mod bitset;
pub mod morton;
pub mod freelist;
pub mod dyn_vec;
pub mod archetype;
pub mod set;
pub mod util;
