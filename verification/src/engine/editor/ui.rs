pub mod asset_browser;
pub mod entity_properties;
