//! Chunks: 16 by 16 grids of tiles.

use vstd::prelude::*;

use crate::text::{decimal, push_decimal};
use crate::world::tile::Tile;

verus! {

/// A tile's position within a chunk, `x + 16 * y`.
#[derive(Debug, Default, Clone, Copy, PartialEq, Eq, Structural, PartialOrd, Ord, Hash)]
pub struct TilePosition(u8);

impl View for TilePosition {
    type V = u8;

    closed spec fn view(&self) -> u8 {
        self.0
    }
}

impl TilePosition {
    /// The position `(0, 0)`.
    pub fn zero() -> (r: TilePosition)
        ensures
            r@ == 0,
    {
        TilePosition(0)
    }

    pub fn new(value: u8) -> (r: TilePosition)
        ensures
            r@ == value,
    {
        TilePosition(value)
    }

    /// The position with the given coordinates, each below 16.
    pub fn from_xy(x: u8, y: u8) -> (r: TilePosition)
        requires
            x < 16,
            y < 16,
        ensures
            r@ == x + 16 * y,
            r.x_of() == x,
            r.y_of() == y,
    {
        TilePosition(x + y * 16)
    }

    /// Positions with the same index are the same.
    pub proof fn lemma_same_index(self, other: TilePosition)
        requires
            self@ == other@,
        ensures
            self == other,
    {
    }

    /// The column, `0..16`.
    pub open spec fn x_of(&self) -> int {
        (self@ % 16) as int
    }

    /// The row, `0..16` for positions made by `from_xy`.
    pub open spec fn y_of(&self) -> int {
        (self@ / 16) as int
    }

    pub fn x(&self) -> (r: u8)
        ensures
            r == self.x_of(),
    {
        self.0 % 16
    }

    pub fn y(&self) -> (r: u8)
        ensures
            r == self.y_of(),
    {
        self.0 / 16
    }

    pub fn to_xy(&self) -> (r: (u8, u8))
        ensures
            r.0 == self.x_of(),
            r.1 == self.y_of(),
    {
        (self.0 % 16, self.0 / 16)
    }
}

impl TilePosition {
    /// The position written as `(x, y)`.
    pub fn to_string(&self) -> (r: String)
        ensures
            r@ == seq!['('] + decimal(self.x_of() as nat) + seq![',', ' '] + decimal(
                self.y_of() as nat,
            ) + seq![')'],
    {
        let (x, y) = self.to_xy();
        let mut s = String::from_str("(");
        push_decimal(&mut s, x as u128);
        s.append(", ");
        push_decimal(&mut s, y as u128);
        s.append(")");
        proof {
            reveal_strlit("(");
            reveal_strlit(", ");
            reveal_strlit(")");
        }
        s
    }
}

/// The number of tiles in a chunk.
pub const CHUNK_TILES: usize = 256;

/// A 16 by 16 grid of tiles, each slot empty or holding a tile, and whether
/// it changed since it was last drawn.
#[derive(Debug)]
pub struct Chunk {
    tiles: Vec<Option<Tile>>,
    pub dirty: bool,
}

impl Chunk {
    /// The slots, by position.
    pub closed spec fn slots(&self) -> Seq<Option<Tile>> {
        self.tiles@
    }

    /// Whether the chunk changed since it was last drawn.
    pub closed spec fn is_dirty(&self) -> bool {
        self.dirty
    }

    /// One slot per position.
    pub open spec fn wf(&self) -> bool {
        self.slots().len() == CHUNK_TILES
    }

    /// A chunk with every slot empty.
    pub fn empty() -> (r: Chunk)
        ensures
            r.wf(),
            !r.is_dirty(),
            forall|i: int| 0 <= i < CHUNK_TILES ==> r.slots()[i] is None,
    {
        let mut tiles: Vec<Option<Tile>> = Vec::new();
        let mut i: usize = 0;
        while i < CHUNK_TILES
            invariant
                i <= CHUNK_TILES,
                tiles@.len() == i,
                forall|j: int| 0 <= j < i ==> tiles@[j] is None,
            decreases CHUNK_TILES - i,
        {
            tiles.push(None);
            i = i + 1;
        }
        Chunk { tiles, dirty: false }
    }

    pub fn insert(&mut self, position: TilePosition, tile: Tile)
        requires
            old(self).wf(),
        ensures
            final(self).wf(),
            final(self).is_dirty(),
            final(self).slots() == old(self).slots().update(position@ as int, Some(tile)),
    {
        self.dirty = true;
        self.tiles.set(position.0 as usize, Some(tile));
    }

    pub fn remove(&mut self, position: TilePosition)
        requires
            old(self).wf(),
        ensures
            final(self).wf(),
            final(self).is_dirty(),
            final(self).slots() == old(self).slots().update(position@ as int, None),
    {
        self.dirty = true;
        self.tiles.set(position.0 as usize, None);
    }

    pub fn contains(&self, position: TilePosition) -> (r: bool)
        requires
            self.wf(),
        ensures
            r == self.slots()[position@ as int] is Some,
    {
        self.tiles[position.0 as usize].is_some()
    }

    pub fn get(&self, position: TilePosition) -> (r: Option<&Tile>)
        requires
            self.wf(),
        ensures
            r == match self.slots()[position@ as int] {
                Some(t) => Some(&t),
                None => None::<&Tile>,
            },
    {
        self.tiles[position.0 as usize].as_ref()
    }

    /// The tile at `position`, to change in place; marks the chunk as changed.
    pub fn get_mut(&mut self, position: TilePosition) -> (r: Option<&mut Tile>)
        requires
            old(self).wf(),
        ensures
            final(self).wf(),
            final(self).is_dirty(),
            r is Some <==> old(self).slots()[position@ as int] is Some,
            r is None ==> final(self).slots() == old(self).slots(),
            r matches Some(t) ==> (*t == old(self).slots()[position@ as int]->0 && final(self).slots() == old(self).slots().update(position@ as int, Some(*final(t)))),
    {
        self.dirty = true;
        self.tiles[position.0 as usize].as_mut()
    }

    /// The tiles of the occupied slots, by position.
    pub fn iter(&self) -> (r: Vec<Tile>)
        requires
            self.wf(),
        ensures
            r@ == occupied(self.slots()),
    {
        let mut r: Vec<Tile> = Vec::new();
        let mut i: usize = 0;
        while i < self.tiles.len()
            invariant
                i <= self.slots().len(),
                self.slots() == self.tiles@,
                r@ == occupied(self.slots().take(i as int)),
            decreases self.slots().len() - i,
        {
            proof {
                assert(self.slots().take(i + 1).drop_last() =~= self.slots().take(i as int));
            }
            match self.tiles[i] {
                Some(t) => r.push(t),
                None => {},
            }
            i = i + 1;
        }
        proof {
            assert(self.slots().take(i as int) =~= self.slots());
        }
        r
    }
}

/// The tiles of the occupied slots of `slots`, in order.
pub open spec fn occupied(slots: Seq<Option<Tile>>) -> Seq<Tile>
    decreases slots.len(),
{
    if slots.len() == 0 {
        Seq::empty()
    } else {
        let rest = occupied(slots.drop_last());
        match slots.last() {
            Some(t) => rest.push(t),
            None => rest,
        }
    }
}

} // verus!
