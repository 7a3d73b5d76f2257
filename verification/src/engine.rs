pub mod entity;
pub mod event;
pub mod asset;
pub mod editor;
