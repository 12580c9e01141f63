//! The tile world: chunks of tiles keyed by chunk position.

pub mod chunk;
pub mod position;
pub mod tile;

use std::collections::HashMap;
use std::collections::hash_map::Entry;

use vstd::prelude::*;

use crate::math::vec::{I64Vec2, IVec2};
use crate::world::chunk::{Chunk, TilePosition};
use crate::world::tile::Tile;

verus! {

broadcast use vstd::std_specs::hash::group_hash_axioms;

/// Chunk size in tiles (n by n).
pub const CHUNK_SIZE: i32 = 16;

/// Tile size in pixels (n by n).
pub const TILE_SIZE: i32 = 16;

/// The map key of a chunk position: the two coordinates' bits side by side.
pub open spec fn key_of(pos: IVec2) -> u64 {
    (((pos.x as u32) as u64) << 32u64) | ((pos.y as u32) as u64)
}

proof fn lemma_key_injective(a: IVec2, b: IVec2)
    requires
        key_of(a) == key_of(b),
    ensures
        a == b,
{
    let (ax, ay, bx, by) = (a.x, a.y, b.x, b.y);
    assert(((((ax as u32) as u64) << 32u64) | ((ay as u32) as u64)) == ((((bx as u32) as u64)
        << 32u64) | ((by as u32) as u64)) ==> ax == bx && ay == by) by (bit_vector);
}

proof fn lemma_keys_injective()
    ensures
        forall|a: IVec2, b: IVec2| #[trigger] key_of(a) == #[trigger] key_of(b) ==> a == b,
{
    assert forall|a: IVec2, b: IVec2| #[trigger] key_of(a) == #[trigger] key_of(b) implies a
        == b by {
        lemma_key_injective(a, b);
    }
}

fn chunk_key(pos: IVec2) -> (r: u64)
    ensures
        r == key_of(pos),
{
    (((pos.x as u32) as u64) << 32u64) | ((pos.y as u32) as u64)
}

/// The chunk that holds the world tile `(x, y)`, its coordinates truncated
/// to 32 bits.
pub open spec fn chunk_of(x: int, y: int) -> IVec2 {
    IVec2 { x: (x / 16) as i32, y: (y / 16) as i32 }
}

/// The slot of the world tile `(x, y)` within its chunk.
pub open spec fn slot_of(x: int, y: int) -> int {
    x % 16 + 16 * (y % 16)
}

/// The world: chunks by chunk position.
#[derive(Debug)]
pub struct World {
    chunks: HashMap<u64, Chunk>,
}

impl World {
    /// The chunk at `pos`, if there is one.
    pub closed spec fn chunk_at(&self, pos: IVec2) -> Option<Chunk> {
        if self.chunks@.contains_key(key_of(pos)) {
            Some(self.chunks@[key_of(pos)])
        } else {
            None
        }
    }

    /// Every chunk has one slot per tile position.
    pub closed spec fn wf(&self) -> bool {
        forall|k: u64| #[trigger] self.chunks@.contains_key(k) ==> self.chunks@[k].wf()
    }

    /// The tile at the world tile `(x, y)`, if there is one.
    pub open spec fn tile_at(&self, x: int, y: int) -> Option<Tile> {
        match self.chunk_at(chunk_of(x, y)) {
            Some(c) => c.slots()[slot_of(x, y)],
            None => None,
        }
    }

    /// Everything but the chunk at `pos` is as in `other`.
    pub open spec fn same_except(&self, other: World, pos: IVec2) -> bool {
        forall|p: IVec2| p != pos ==> #[trigger] self.chunk_at(p) == other.chunk_at(p)
    }

    pub proof fn lemma_wf(&self, pos: IVec2)
        requires
            self.wf(),
        ensures
            self.chunk_at(pos) matches Some(c) ==> c.wf(),
    {
    }

    /// An empty world.
    pub fn new() -> (r: World)
        ensures
            r.wf(),
            forall|p: IVec2| r.chunk_at(p) is None,
    {
        World { chunks: HashMap::new() }
    }

    pub fn insert_chunk(&mut self, pos: IVec2, chunk: Chunk)
        requires
            old(self).wf(),
            chunk.wf(),
        ensures
            final(self).wf(),
            final(self).chunk_at(pos) == Some(chunk),
            final(self).same_except(*old(self), pos),
    {
        let key = chunk_key(pos);
        self.chunks.insert(key, chunk);
        proof {
            assert forall|p: IVec2| p != pos implies #[trigger] self.chunk_at(p) == old(
                self,
            ).chunk_at(p) by {
                if key_of(p) == key_of(pos) {
                    lemma_key_injective(p, pos);
                }
            }
        }
    }

    pub fn remove_chunk(&mut self, pos: IVec2)
        requires
            old(self).wf(),
        ensures
            final(self).wf(),
            final(self).chunk_at(pos) is None,
            final(self).same_except(*old(self), pos),
    {
        let key = chunk_key(pos);
        self.chunks.remove(&key);
        proof {
            assert forall|p: IVec2| p != pos implies #[trigger] self.chunk_at(p) == old(
                self,
            ).chunk_at(p) by {
                if key_of(p) == key_of(pos) {
                    lemma_key_injective(p, pos);
                }
            }
        }
    }

    pub fn contains_chunk(&self, pos: IVec2) -> (r: bool)
        ensures
            r == self.chunk_at(pos) is Some,
    {
        let key = chunk_key(pos);
        self.chunks.contains_key(&key)
    }

    pub fn get_chunk(&self, pos: IVec2) -> (r: Option<&Chunk>)
        ensures
            r == match self.chunk_at(pos) {
                Some(c) => Some(&c),
                None => None::<&Chunk>,
            },
    {
        let key = chunk_key(pos);
        self.chunks.get(&key)
    }

    /// The chunk at `pos`, to change in place; no other chunk changes.
    pub fn get_chunk_mut(&mut self, pos: IVec2) -> (r: Option<&mut Chunk>)
        requires
            old(self).wf(),
        ensures
            r is Some <==> old(self).chunk_at(pos) is Some,
            final(self).same_except(*old(self), pos),
            r is None ==> final(self).chunk_at(pos) is None && final(self).wf(),
            r matches Some(c) ==> (*c == old(self).chunk_at(pos)->0 && final(self).chunk_at(pos)
                == Some(*final(c)) && (final(c).wf() ==> final(self).wf())),
    {
        proof {
            lemma_keys_injective();
        }
        let key = chunk_key(pos);
        match self.chunks.entry(key) {
            Entry::Occupied(e) => Some(e.into_mut()),
            Entry::Vacant(_) => None,
        }
    }

    /// Puts `tile` at the world tile `pos`, in a new empty chunk where there
    /// is none.
    pub fn insert_tile(&mut self, pos: I64Vec2, tile: Tile)
        requires
            old(self).wf(),
        ensures
            final(self).wf(),
            final(self).same_except(*old(self), chunk_of(pos.x as int, pos.y as int)),
            final(self).chunk_at(chunk_of(pos.x as int, pos.y as int)) matches Some(c) && c.slots()
                == match old(self).chunk_at(chunk_of(pos.x as int, pos.y as int)) {
                Some(o) => o.slots(),
                None => Seq::new(256, |i: int| None::<Tile>),
            }.update(slot_of(pos.x as int, pos.y as int), Some(tile)),
            final(self).tile_at(pos.x as int, pos.y as int) == Some(tile),
            forall|x: int, y: int|
                chunk_of(x, y) != chunk_of(pos.x as int, pos.y as int) || slot_of(x, y) != slot_of(
                    pos.x as int,
                    pos.y as int,
                ) ==> #[trigger] final(self).tile_at(x, y) == old(self).tile_at(x, y),
    {
        let (chunk_pos, tile_pos) = locate(pos);
        let key = chunk_key(chunk_pos);
        let ghost before = *self;
        let mut chunk = match self.chunks.remove(&key) {
            Some(c) => c,
            None => Chunk::empty(),
        };
        proof {
            if let Some(o) = before.chunk_at(chunk_pos) {
                assert(chunk == o);
            } else {
                assert(chunk.slots() =~= Seq::new(256, |i: int| None::<Tile>));
            }
        }
        chunk.insert(tile_pos, tile);
        self.chunks.insert(key, chunk);
        proof {
            assert forall|p: IVec2| p != chunk_pos implies #[trigger] self.chunk_at(p)
                == before.chunk_at(p) by {
                if key_of(p) == key_of(chunk_pos) {
                    lemma_key_injective(p, chunk_pos);
                }
            }
        }
    }

    /// Empties the world tile `pos`, where its chunk exists.
    pub fn remove_tile(&mut self, pos: I64Vec2)
        requires
            old(self).wf(),
        ensures
            final(self).wf(),
            final(self).same_except(*old(self), chunk_of(pos.x as int, pos.y as int)),
            match old(self).chunk_at(chunk_of(pos.x as int, pos.y as int)) {
                Some(o) => final(self).chunk_at(chunk_of(pos.x as int, pos.y as int)) matches Some(
                    c,
                ) && c.slots() == o.slots().update(slot_of(pos.x as int, pos.y as int), None),
                None => final(self).chunk_at(chunk_of(pos.x as int, pos.y as int)) is None,
            },
            final(self).tile_at(pos.x as int, pos.y as int) is None,
            forall|x: int, y: int|
                chunk_of(x, y) != chunk_of(pos.x as int, pos.y as int) || slot_of(x, y) != slot_of(
                    pos.x as int,
                    pos.y as int,
                ) ==> #[trigger] final(self).tile_at(x, y) == old(self).tile_at(x, y),
    {
        let (chunk_pos, tile_pos) = locate(pos);
        let key = chunk_key(chunk_pos);
        let ghost before = *self;
        match self.chunks.remove(&key) {
            Some(mut chunk) => {
                chunk.remove(tile_pos);
                self.chunks.insert(key, chunk);
            },
            None => {},
        }
        proof {
            assert forall|p: IVec2| p != chunk_pos implies #[trigger] self.chunk_at(p)
                == before.chunk_at(p) by {
                if key_of(p) == key_of(chunk_pos) {
                    lemma_key_injective(p, chunk_pos);
                }
            }
        }
    }

    /// The tile at the world tile `pos`, to change in place. Where the chunk
    /// of `pos` exists it is marked as changed, whether or not the tile is
    /// there; nothing else changes.
    pub fn get_tile_mut(&mut self, pos: I64Vec2) -> (r: Option<&mut Tile>)
        requires
            old(self).wf(),
        ensures
            final(self).wf(),
            final(self).same_except(*old(self), chunk_of(pos.x as int, pos.y as int)),
            r is Some <==> old(self).tile_at(pos.x as int, pos.y as int) is Some,
            old(self).chunk_at(chunk_of(pos.x as int, pos.y as int)) is None ==> final(self).chunk_at(chunk_of(pos.x as int, pos.y as int)) is None,
            old(self).chunk_at(chunk_of(pos.x as int, pos.y as int)) matches Some(o) ==> (final(self).chunk_at(chunk_of(pos.x as int, pos.y as int)) matches Some(c) && c.is_dirty() && (
            r is None ==> c.slots() == o.slots()) && (r matches Some(t) ==> (*t == o.slots()[slot_of(
                pos.x as int,
                pos.y as int,
            )]->0 && c.slots() == o.slots().update(
                slot_of(pos.x as int, pos.y as int),
                Some(*final(t)),
            )))),
    {
        let (chunk_pos, tile_pos) = locate(pos);
        proof {
            lemma_keys_injective();
        }
        let key = chunk_key(chunk_pos);
        match self.chunks.entry(key) {
            Entry::Occupied(e) => {
                let c = e.into_mut();
                c.get_mut(tile_pos)
            },
            Entry::Vacant(_) => None,
        }
    }

    pub fn contains_tile(&self, pos: I64Vec2) -> (r: bool)
        requires
            self.wf(),
        ensures
            r == self.tile_at(pos.x as int, pos.y as int) is Some,
    {
        self.get_tile(pos).is_some()
    }

    pub fn get_tile(&self, pos: I64Vec2) -> (r: Option<&Tile>)
        requires
            self.wf(),
        ensures
            r == match self.tile_at(pos.x as int, pos.y as int) {
                Some(t) => Some(&t),
                None => None::<&Tile>,
            },
    {
        let (chunk_pos, tile_pos) = locate(pos);
        let key = chunk_key(chunk_pos);
        match self.chunks.get(&key) {
            Some(chunk) => chunk.get(tile_pos),
            None => None,
        }
    }
}

impl Default for World {
    fn default() -> (r: World)
        ensures
            r.wf(),
            forall|p: IVec2| r.chunk_at(p) is None,
    {
        World::new()
    }
}

/// The chunk and the slot within it of the world tile `pos`.
fn locate(pos: I64Vec2) -> (r: (IVec2, TilePosition))
    ensures
        r.0 == chunk_of(pos.x as int, pos.y as int),
        r.1@ == slot_of(pos.x as int, pos.y as int),
{
    let cs = CHUNK_SIZE as i64;
    let qx = match pos.x.checked_div_euclid(cs) {
        Some(q) => q,
        None => 0,
    };
    let qy = match pos.y.checked_div_euclid(cs) {
        Some(q) => q,
        None => 0,
    };
    let mx = match pos.x.checked_rem_euclid(cs) {
        Some(m) => m,
        None => 0,
    };
    let my = match pos.y.checked_rem_euclid(cs) {
        Some(m) => m,
        None => 0,
    };
    (IVec2::new(qx as i32, qy as i32), TilePosition::from_xy(mx as u8, my as u8))
}

} // verus!
