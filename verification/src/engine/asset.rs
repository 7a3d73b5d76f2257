pub mod asset;
pub mod repr;
