//! Mods and the definitions they register.

pub mod asset_loading;
pub mod discovery;
pub mod handle_order;
pub mod load_order;
pub mod registration;
pub mod registry;
pub mod serialisation;
pub mod types;
pub mod validation;
pub mod version;
