use necrofactory::world_gen::{generated_chunk, test_gen_chunk};
use necrofactory::math::vec::{I64Vec2, IVec2};
use necrofactory::modding::types::DefHandle;
use necrofactory::world::chunk::{Chunk, TilePosition};
use necrofactory::world::position::WorldPosition;
use necrofactory::world::tile::{Tile, TileDef};
use necrofactory::world::{CHUNK_SIZE, TILE_SIZE, World};

fn tile(n: u32) -> Tile {
    Tile::new(DefHandle::<TileDef>::new(n))
}

#[test]
fn world_constants() {
    assert_eq!(CHUNK_SIZE, 16);
    assert_eq!(TILE_SIZE, 16);
}

#[test]
fn tile_position_coordinates() {
    let p = TilePosition::from_xy(3, 12);
    assert_eq!(p.x(), 3);
    assert_eq!(p.y(), 12);
    assert_eq!(p.to_xy(), (3, 12));
    assert_eq!(TilePosition::new(255).to_xy(), (15, 15));
    assert_eq!(TilePosition::zero().to_xy(), (0, 0));
    assert_eq!(p.to_string(), "(3, 12)");
}

#[test]
fn chunk_insert_get_remove() {
    let mut c = Chunk::empty();
    assert!(!c.dirty);
    let p = TilePosition::from_xy(1, 2);
    assert!(!c.contains(p));
    c.insert(p, tile(7));
    assert!(c.dirty);
    assert!(c.contains(p));
    assert_eq!(c.get(p).unwrap().handle.get(), 7);
    assert_eq!(c.iter().len(), 1);
    c.remove(p);
    assert!(c.get(p).is_none());
    assert!(c.iter().is_empty());
}

#[test]
fn chunk_iter_in_position_order() {
    let mut c = Chunk::empty();
    c.insert(TilePosition::from_xy(5, 5), tile(2));
    c.insert(TilePosition::from_xy(0, 0), tile(1));
    let tiles: Vec<u32> = c.iter().iter().map(|t| t.handle.get()).collect();
    assert_eq!(tiles, vec![1, 2]);
}

#[test]
fn world_chunks() {
    let mut w = World::new();
    let pos = IVec2::new(-1, 4);
    assert!(!w.contains_chunk(pos));
    w.insert_chunk(pos, Chunk::empty());
    assert!(w.contains_chunk(pos));
    assert!(w.get_chunk(pos).is_some());
    assert!(!w.contains_chunk(IVec2::new(4, -1)));
    w.remove_chunk(pos);
    assert!(!w.contains_chunk(pos));
}

#[test]
fn world_tile_read_after_write() {
    let mut w = World::default();
    let pos = I64Vec2::new(-1, 17);
    assert!(!w.contains_tile(pos));
    w.insert_tile(pos, tile(3));
    assert!(w.contains_tile(pos));
    assert_eq!(w.get_tile(pos).unwrap().handle.get(), 3);
    // The tile lands in chunk (-1, 1) at (15, 1).
    let chunk = w.get_chunk(IVec2::new(-1, 1)).unwrap();
    assert!(chunk.contains(TilePosition::from_xy(15, 1)));
    // Neighbours are untouched.
    assert!(!w.contains_tile(I64Vec2::new(0, 17)));
    assert!(!w.contains_tile(I64Vec2::new(-1, 16)));
    w.remove_tile(pos);
    assert!(!w.contains_tile(pos));
    assert!(w.contains_chunk(IVec2::new(-1, 1)));
}

#[test]
fn world_remove_tile_without_chunk_does_nothing() {
    let mut w = World::new();
    w.remove_tile(I64Vec2::new(100, 100));
    assert!(!w.contains_chunk(IVec2::new(6, 6)));
}

#[test]
fn world_position_from_xy_round_trip() {
    for (x, y) in [(0i64, 0i64), (15, 16), (-1, -17), (12345, -987654), (-16, 31)] {
        let p = WorldPosition::from_xy(x, y);
        assert_eq!((p.x(), p.y()), (x, y));
        assert_eq!(p.to_i64vec2(), I64Vec2::new(x, y));
    }
    let p = WorldPosition::from_xy(-1, -17);
    assert_eq!(p.chunk, IVec2::new(-1, -2));
    assert_eq!(p.tile.to_xy(), (15, 15));
    assert_eq!(p.to_string(), "(-1, -17)");
}

#[test]
fn world_position_constructors() {
    let p = WorldPosition::from_chunk(IVec2::new(2, -3));
    assert_eq!((p.x(), p.y()), (32, -48));
    let q = WorldPosition::from_tile(TilePosition::from_xy(4, 5));
    assert_eq!((q.x(), q.y()), (4, 5));
    let r = WorldPosition::new(IVec2::new(1, 1), TilePosition::from_xy(1, 1));
    assert_eq!((r.x(), r.y()), (17, 17));
}

#[test]
fn world_position_add_and_sub_carry() {
    let a = WorldPosition::from_xy(15, -1);
    let b = WorldPosition::from_xy(1, 1);
    let s = a.add(b);
    assert_eq!((s.x(), s.y()), (16, 0));
    assert_eq!(s.chunk, IVec2::new(1, 0));
    let d = s.sub(b);
    assert_eq!(d, a);
    let mut m = a;
    m.add_assign(b);
    assert_eq!(m, s);
    m.sub_assign(b);
    assert_eq!(m, a);
    let neg = WorldPosition::from_xy(0, 0).sub(WorldPosition::from_xy(1, 17));
    assert_eq!((neg.x(), neg.y()), (-1, -17));
}

#[test]
fn chunk_get_mut_changes_the_tile_in_place() {
    let mut c = Chunk::empty();
    let p = TilePosition::from_xy(4, 5);
    assert!(c.get_mut(p).is_none());
    assert!(c.dirty);
    c.dirty = false;
    c.insert(p, tile(2));
    c.dirty = false;
    *c.get_mut(p).unwrap() = tile(9);
    assert!(c.dirty);
    assert_eq!(c.get(p).unwrap().handle.get(), 9);
    assert!(c.get(TilePosition::from_xy(5, 4)).is_none());
}

#[test]
fn world_get_chunk_mut_changes_only_that_chunk() {
    let mut w = World::new();
    assert!(w.get_chunk_mut(IVec2::new(0, 0)).is_none());
    w.insert_tile(I64Vec2::new(3, 3), tile(1));
    w.insert_tile(I64Vec2::new(20, 3), tile(2));
    let chunk = w.get_chunk_mut(IVec2::new(0, 0)).unwrap();
    chunk.insert(TilePosition::from_xy(3, 4), tile(5));
    assert_eq!(w.get_tile(I64Vec2::new(3, 4)).unwrap().handle.get(), 5);
    assert_eq!(w.get_tile(I64Vec2::new(3, 3)).unwrap().handle.get(), 1);
    assert_eq!(w.get_tile(I64Vec2::new(20, 3)).unwrap().handle.get(), 2);
}

#[test]
fn world_get_tile_mut_toggles_a_tile() {
    let mut w = World::new();
    assert!(w.get_tile_mut(I64Vec2::new(-1, -1)).is_none());
    w.insert_tile(I64Vec2::new(-1, -1), tile(1));
    assert!(w.get_tile_mut(I64Vec2::new(-2, -1)).is_none());
    let t = w.get_tile_mut(I64Vec2::new(-1, -1)).unwrap();
    *t = tile(2);
    assert_eq!(w.get_tile(I64Vec2::new(-1, -1)).unwrap().handle.get(), 2);
    assert!(w.get_chunk(IVec2::new(-1, -1)).unwrap().dirty);
}

#[test]
fn generated_chunks_fill_only_row_minus_one() {
    let layer = DefHandle::<TileDef>::new(4);
    let c = generated_chunk(IVec2::new(3, -1), layer);
    assert!(c.dirty);
    assert_eq!(c.iter().len(), 256);
    assert_eq!(c.get(TilePosition::from_xy(15, 15)).unwrap().handle.get(), 4);
    assert_eq!(generated_chunk(IVec2::new(0, -2), layer).iter().len(), 0);
    assert_eq!(generated_chunk(IVec2::new(0, 0), layer).iter().len(), 0);

    let mut w = World::new();
    w.insert_tile(I64Vec2::new(40, 0), tile(1));
    test_gen_chunk(&mut w, IVec2::new(0, -1), layer);
    assert_eq!(w.get_tile(I64Vec2::new(5, -3)).unwrap().handle.get(), 4);
    assert_eq!(w.get_tile(I64Vec2::new(40, 0)).unwrap().handle.get(), 1);
    assert!(w.contains_chunk(IVec2::new(0, -1)));
}
