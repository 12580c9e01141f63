//! Core logic of the necrofactory game: fixed-point arithmetic, the tile
//! world, definition registries, and mod dependency validation.

use vstd::prelude::*;

use crate::modding::types::DefId;

pub mod factory;
pub mod graphics;
pub mod input;
pub mod item;
pub mod math;
pub mod modding;
pub mod text;
pub mod world;
pub mod world_gen;

verus! {

/// The top-level states the game moves through.
#[derive(Debug, Default, Clone, PartialEq, Eq, Structural, Hash)]
pub enum GameState {
    #[default]
    Boot,
    ModLoading,
    MainMenu,
    InGame,
    Shutdown,
}

/// The game's settings: where mods live, which mods are enabled or
/// disabled, and how many definition files load at once.
#[derive(Debug, Clone)]
pub struct Config {
    pub mods_dir: String,
    pub enabled_mods: Vec<DefId>,
    pub disabled_mods: Vec<DefId>,
    pub max_concurrent_io: usize,
}

impl Default for Config {
    fn default() -> (r: Config)
        ensures
            r.mods_dir@.len() == 0,
            r.enabled_mods@.len() == 0,
            r.disabled_mods@.len() == 0,
            r.max_concurrent_io == 10,
    {
        Config {
            mods_dir: String::new(),
            enabled_mods: Vec::new(),
            disabled_mods: Vec::new(),
            max_concurrent_io: 10,
        }
    }
}

} // verus!
