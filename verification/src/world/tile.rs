//! Tiles and their definitions.

use vstd::prelude::*;

use crate::modding::types::{DefHandle, DefId};

verus! {

/// A kind of tile that a mod defines. The friction and restitution are the
/// IEEE-754 bits of 32-bit floats.
#[derive(Debug)]
pub struct TileDef {
    pub sprite_path: String,
    pub friction_bits: u32,
    pub restitution_bits: u32,
}

impl TileDef {
    /// The definition read from a mod's file, registered under the id of the
    /// mod joined with the id in the file.
    pub fn from_raw(
        mod_id: &DefId,
        id: DefId,
        sprite_path: String,
        friction_bits: u32,
        restitution_bits: u32,
    ) -> (r: (DefId, TileDef))
        ensures
            r.0@ == mod_id@ + seq![':', ':'] + id@,
            r.1.sprite_path@ == sprite_path@,
            r.1.friction_bits == friction_bits,
            r.1.restitution_bits == restitution_bits,
    {
        (mod_id.join(id), TileDef { sprite_path, friction_bits, restitution_bits })
    }
}

/// A tile placed in the world: the handle of its definition.
#[derive(Debug, Clone, Copy)]
pub struct Tile {
    pub handle: DefHandle<TileDef>,
}

impl Tile {
    pub fn new(handle: DefHandle<TileDef>) -> (r: Tile)
        ensures
            r.handle == handle,
    {
        Tile { handle }
    }
}

} // verus!
