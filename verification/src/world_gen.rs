//! World generation: what a newly generated chunk holds. The random draw is
//! made by the caller and handed in.

use vstd::prelude::*;

use crate::math::vec::IVec2;
use crate::modding::types::DefHandle;
use crate::world::World;
use crate::world::chunk::{CHUNK_TILES, Chunk, TilePosition};
use crate::world::tile::{Tile, TileDef};

verus! {

/// The chunk that world generation places at `pos`, marked as changed. In
/// chunk row -1 every slot holds the tile `layer`, drawn at random by the
/// caller. Every other chunk is empty: its generation only rewrites tiles
/// already present, and a new chunk has none.
pub fn generated_chunk(pos: IVec2, layer: DefHandle<TileDef>) -> (r: Chunk)
    ensures
        r.wf(),
        r.is_dirty(),
        forall|i: int|
            0 <= i < CHUNK_TILES ==> #[trigger] r.slots()[i] == if pos.y == -1 {
                Some(Tile { handle: layer })
            } else {
                None::<Tile>
            },
{
    let mut chunk = Chunk::empty();
    let mut i: usize = 0;
    while i < CHUNK_TILES
        invariant
            i <= CHUNK_TILES,
            chunk.wf(),
            i > 0 ==> chunk.is_dirty(),
            forall|j: int|
                0 <= j < i ==> #[trigger] chunk.slots()[j] == if pos.y == -1 {
                    Some(Tile { handle: layer })
                } else {
                    None::<Tile>
                },
            forall|j: int| i <= j < CHUNK_TILES ==> (#[trigger] chunk.slots()[j]) is None,
        decreases CHUNK_TILES - i,
    {
        let position = TilePosition::new(i as u8);
        if pos.y == -1 {
            chunk.insert(position, Tile::new(layer));
        } else {
            chunk.remove(position);
        }
        i = i + 1;
    }
    chunk
}

/// Generates the chunk at `pos` (see `generated_chunk`) and puts it into the
/// world in place of any chunk there; no other chunk changes.
pub fn test_gen_chunk(world: &mut World, pos: IVec2, layer: DefHandle<TileDef>)
    requires
        old(world).wf(),
    ensures
        final(world).wf(),
        final(world).same_except(*old(world), pos),
        final(world).chunk_at(pos) matches Some(c) && c.is_dirty() && forall|i: int|
            0 <= i < CHUNK_TILES ==> #[trigger] c.slots()[i] == if pos.y == -1 {
                Some(Tile { handle: layer })
            } else {
                None::<Tile>
            },
{
    let chunk = generated_chunk(pos, layer);
    world.insert_chunk(pos, chunk);
}

} // verus!
