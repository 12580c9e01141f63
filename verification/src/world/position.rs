//! Positions in the world as a chunk and a tile within it.

use vstd::prelude::*;

use crate::math::vec::{I64Vec2, IVec2};
use crate::text::{push_signed_decimal, signed_decimal};
use crate::world::CHUNK_SIZE;
use crate::world::chunk::TilePosition;

verus! {

/// A position in the world: the chunk, and the tile within that chunk.
#[derive(Debug, Default, Clone, Copy, PartialEq, Eq, Structural, Hash)]
pub struct WorldPosition {
    pub chunk: IVec2,
    pub tile: TilePosition,
}

impl WorldPosition {
    /// The world column of the position.
    pub open spec fn wx(&self) -> int {
        self.chunk.x * 16 + self.tile.x_of()
    }

    /// The world row of the position.
    pub open spec fn wy(&self) -> int {
        self.chunk.y * 16 + self.tile.y_of()
    }

    /// The position whose chunk and tile are the given ones.
    pub open spec fn is_split_of(&self, x: int, y: int) -> bool {
        &&& self.chunk.x == (x / 16) as i32
        &&& self.chunk.y == (y / 16) as i32
        &&& self.tile@ == x % 16 + 16 * (y % 16)
    }

    pub fn new(chunk: IVec2, tile: TilePosition) -> (r: WorldPosition)
        ensures
            r.chunk == chunk,
            r.tile == tile,
    {
        WorldPosition { chunk, tile }
    }

    pub fn from_chunk(chunk: IVec2) -> (r: WorldPosition)
        ensures
            r.chunk == chunk,
            r.tile@ == 0,
    {
        WorldPosition::new(chunk, TilePosition::zero())
    }

    pub fn from_tile(tile: TilePosition) -> (r: WorldPosition)
        ensures
            r.chunk.x == 0,
            r.chunk.y == 0,
            r.tile == tile,
    {
        WorldPosition::new(IVec2::new(0, 0), tile)
    }

    /// The position of the world tile `(x, y)`; its chunk coordinates must
    /// fit in 32 bits.
    pub fn from_xy(x: i64, y: i64) -> (r: WorldPosition)
        requires
            i32::MIN <= x / 16 <= i32::MAX,
            i32::MIN <= y / 16 <= i32::MAX,
        ensures
            r.is_split_of(x as int, y as int),
            r.chunk.x == x / 16,
            r.chunk.y == y / 16,
            r.tile.x_of() == x % 16,
            r.tile.y_of() == y % 16,
            r.wx() == x,
            r.wy() == y,
    {
        let cs = CHUNK_SIZE as i64;
        let chunk_x = match x.checked_div_euclid(cs) {
            Some(q) => q,
            None => 0,
        };
        let chunk_y = match y.checked_div_euclid(cs) {
            Some(q) => q,
            None => 0,
        };
        let tile_x = match x.checked_rem_euclid(cs) {
            Some(m) => m,
            None => 0,
        };
        let tile_y = match y.checked_rem_euclid(cs) {
            Some(m) => m,
            None => 0,
        };
        let r = WorldPosition::new(
            IVec2::new(chunk_x as i32, chunk_y as i32),
            TilePosition::from_xy(tile_x as u8, tile_y as u8),
        );
        proof {
            assert(x == (x / 16) * 16 + x % 16);
            assert(y == (y / 16) * 16 + y % 16);
        }
        r
    }

    /// The world column.
    pub fn x(&self) -> (r: i64)
        ensures
            r == self.wx(),
    {
        let cs: i64 = 16;
        self.chunk.x as i64 * cs + self.tile.x() as i64
    }

    /// The world row.
    pub fn y(&self) -> (r: i64)
        ensures
            r == self.wy(),
    {
        let cs: i64 = 16;
        self.chunk.y as i64 * cs + self.tile.y() as i64
    }

    pub fn to_i64vec2(&self) -> (r: I64Vec2)
        ensures
            r.x == self.wx(),
            r.y == self.wy(),
    {
        I64Vec2::new(self.x(), self.y())
    }

    /// The position `self + rhs`: tile coordinates add with a carry into the
    /// chunk coordinates, which are truncated to 32 bits.
    pub fn add(self, rhs: WorldPosition) -> (r: WorldPosition)
        ensures
            r.is_split_of(self.wx() + rhs.wx(), self.wy() + rhs.wy()),
    {
        let chunk_size = CHUNK_SIZE as i64;
        let cx = self.chunk.x as i64 + rhs.chunk.x as i64;
        let cy = self.chunk.y as i64 + rhs.chunk.y as i64;
        let tx = self.tile.x() as i64 + rhs.tile.x() as i64;
        let ty = self.tile.y() as i64 + rhs.tile.y() as i64;
        let (tx, cx) = if tx >= chunk_size {
            (tx - chunk_size, cx + 1)
        } else if tx < 0 {
            (tx + chunk_size, cx - 1)
        } else {
            (tx, cx)
        };
        let (ty, cy) = if ty >= chunk_size {
            (ty - chunk_size, cy + 1)
        } else if ty < 0 {
            (ty + chunk_size, cy - 1)
        } else {
            (ty, cy)
        };
        proof {
            lemma_split(self.wx() + rhs.wx(), cx as int, tx as int);
            lemma_split(self.wy() + rhs.wy(), cy as int, ty as int);
        }
        WorldPosition::new(
            IVec2::new(cx as i32, cy as i32),
            TilePosition::from_xy(tx as u8, ty as u8),
        )
    }

    /// The position `self - rhs`: tile coordinates subtract with a borrow
    /// from the chunk coordinates, which are truncated to 32 bits.
    pub fn sub(self, rhs: WorldPosition) -> (r: WorldPosition)
        ensures
            r.is_split_of(self.wx() - rhs.wx(), self.wy() - rhs.wy()),
    {
        let chunk_size = CHUNK_SIZE as i64;
        let cx = self.chunk.x as i64 - rhs.chunk.x as i64;
        let cy = self.chunk.y as i64 - rhs.chunk.y as i64;
        let tx = self.tile.x() as i64 - rhs.tile.x() as i64;
        let ty = self.tile.y() as i64 - rhs.tile.y() as i64;
        let (tx, cx) = if tx >= chunk_size {
            (tx - chunk_size, cx + 1)
        } else if tx < 0 {
            (tx + chunk_size, cx - 1)
        } else {
            (tx, cx)
        };
        let (ty, cy) = if ty >= chunk_size {
            (ty - chunk_size, cy + 1)
        } else if ty < 0 {
            (ty + chunk_size, cy - 1)
        } else {
            (ty, cy)
        };
        proof {
            lemma_split(self.wx() - rhs.wx(), cx as int, tx as int);
            lemma_split(self.wy() - rhs.wy(), cy as int, ty as int);
        }
        WorldPosition::new(
            IVec2::new(cx as i32, cy as i32),
            TilePosition::from_xy(tx as u8, ty as u8),
        )
    }

    pub fn add_assign(&mut self, rhs: WorldPosition)
        ensures
            final(self).is_split_of(old(self).wx() + rhs.wx(), old(self).wy() + rhs.wy()),
    {
        *self = self.add(rhs);
    }

    pub fn sub_assign(&mut self, rhs: WorldPosition)
        ensures
            final(self).is_split_of(old(self).wx() - rhs.wx(), old(self).wy() - rhs.wy()),
    {
        *self = self.sub(rhs);
    }
}

impl WorldPosition {
    /// The position written as `(x, y)` in world tiles.
    pub fn to_string(&self) -> (r: String)
        ensures
            r@ == seq!['('] + signed_decimal(self.wx()) + seq![',', ' '] + signed_decimal(
                self.wy(),
            ) + seq![')'],
    {
        let mut s = String::from_str("(");
        push_signed_decimal(&mut s, self.x());
        s.append(", ");
        push_signed_decimal(&mut s, self.y());
        s.append(")");
        proof {
            reveal_strlit("(");
            reveal_strlit(", ");
            reveal_strlit(")");
        }
        s
    }
}

/// A position whose chunk coordinates fit in 32 bits is the split of its
/// own world coordinates.
proof fn lemma_split_fits(p: WorldPosition, x: int, y: int)
    requires
        p.is_split_of(x, y),
        i32::MIN <= x / 16 <= i32::MAX,
        i32::MIN <= y / 16 <= i32::MAX,
    ensures
        p.wx() == x,
        p.wy() == y,
{
    vstd::arithmetic::div_mod::lemma_fundamental_div_mod(x, 16);
    vstd::arithmetic::div_mod::lemma_fundamental_div_mod(y, 16);
    assert(p.tile@ % 16 == x % 16) by {
        vstd::arithmetic::div_mod::lemma_mod_add_multiples_vanish(x % 16 + 16 * (y % 16) - 16
            * (y % 16), 16);
        vstd::arithmetic::div_mod::lemma_mod_multiples_vanish(y % 16, x % 16, 16);
        vstd::arithmetic::div_mod::lemma_small_mod((x % 16) as nat, 16);
    }
    assert(p.tile@ / 16 == y % 16) by {
        vstd::arithmetic::div_mod::lemma_fundamental_div_mod_converse(
            p.tile@ as int,
            16,
            y % 16,
            x % 16,
        );
    }
}

/// Subtracting what was added gives back the position, when no chunk
/// coordinate on the way leaves the 32-bit range.
pub proof fn law_sub_undoes_add(a: WorldPosition, b: WorldPosition, sum: WorldPosition, back: WorldPosition)
    requires
        sum.is_split_of(a.wx() + b.wx(), a.wy() + b.wy()),
        back.is_split_of(sum.wx() - b.wx(), sum.wy() - b.wy()),
        i32::MIN <= (a.wx() + b.wx()) / 16 <= i32::MAX,
        i32::MIN <= (a.wy() + b.wy()) / 16 <= i32::MAX,
    ensures
        back == a,
{
    lemma_split_fits(sum, a.wx() + b.wx(), a.wy() + b.wy());
    assert(0 <= a.tile.x_of() < 16 && 0 <= a.tile.y_of() < 16);
    lemma_split(a.wx(), a.chunk.x as int, a.tile.x_of());
    lemma_split(a.wy(), a.chunk.y as int, a.tile.y_of());
    assert(a.tile@ == a.tile.x_of() + 16 * a.tile.y_of()) by {
        vstd::arithmetic::div_mod::lemma_fundamental_div_mod(a.tile@ as int, 16);
    }
    assert(sum.wx() - b.wx() == a.wx());
    assert(sum.wy() - b.wy() == a.wy());
    assert(back.tile@ == a.tile@);
    back.tile.lemma_same_index(a.tile);
    assert(back.chunk.x == a.chunk.x);
    assert(back.chunk.y == a.chunk.y);
}

proof fn lemma_split(v: int, c: int, t: int)
    requires
        v == c * 16 + t,
        0 <= t < 16,
    ensures
        v / 16 == c,
        v % 16 == t,
{
    vstd::arithmetic::div_mod::lemma_fundamental_div_mod_converse(v, 16, c, t);
}

} // verus!
