use bevy_pixel_world::coords::{
    ChunkPos, LocalPos, Phase, TilePos, WorldPos, WorldRect, CHUNK_SIZE, TILES_PER_CHUNK, TILE_SIZE,
};
use bevy_pixel_world::material::{Materials, PhysicsState};
use bevy_pixel_world::coords::{ColorIndex, MaterialId};
use bevy_pixel_world::pixel::flags::{DIRTY, FALLING, SOLID};
use bevy_pixel_world::pixel::Pixel;

#[test]
fn world_to_chunk_uses_floor_division() {
    let (c, l) = WorldPos::new(-1, 0).to_chunk_and_local();
    assert_eq!(c, ChunkPos::new(-1, 0));
    assert_eq!(l, LocalPos::new(511, 0));
    let (c, l) = WorldPos::new(512, 1025).to_chunk_and_local();
    assert_eq!(c, ChunkPos::new(1, 2));
    assert_eq!(l, LocalPos::new(0, 1));
    let (c, l) = WorldPos::new(-512, -513).to_chunk_and_local();
    assert_eq!(c, ChunkPos::new(-1, -2));
    assert_eq!(l, LocalPos::new(0, 511));
}

#[test]
fn chunk_origin_and_split_rejoin() {
    assert_eq!(ChunkPos::new(-3, 2).to_world(), WorldPos::new(-1536, 1024));
    for &(x, y) in &[(0i64, 0i64), (-1, -1), (1000, -7777), (511, 512)] {
        let (c, l) = WorldPos::new(x, y).to_chunk_and_local();
        let o = c.to_world();
        assert_eq!(o.x + l.x as i64, x);
        assert_eq!(o.y + l.y as i64, y);
    }
    assert_eq!(TILES_PER_CHUNK, CHUNK_SIZE / TILE_SIZE);
    assert_eq!(TILES_PER_CHUNK, 16);
}

#[test]
fn phases_form_a_checkerboard() {
    assert_eq!(Phase::from_tile(TilePos::new(0, 1)), Phase::A);
    assert_eq!(Phase::from_tile(TilePos::new(1, 1)), Phase::B);
    assert_eq!(Phase::from_tile(TilePos::new(0, 0)), Phase::C);
    assert_eq!(Phase::from_tile(TilePos::new(1, 0)), Phase::D);
    assert_eq!(Phase::from_tile(TilePos::new(-1, -1)), Phase::B);
    assert_eq!(Phase::from_tile(TilePos::new(-2, 3)), Phase::A);
    assert_eq!(Phase::A.index(), 0);
    assert_eq!(Phase::D.index(), 3);
    // Neighbours never share a phase.
    let p = Phase::from_tile(TilePos::new(5, -8));
    for dx in -1..=1i64 {
        for dy in -1..=1i64 {
            if dx != 0 || dy != 0 {
                assert_ne!(Phase::from_tile(TilePos::new(5 + dx, -8 + dy)), p);
            }
        }
    }
}

#[test]
fn world_rect_operations() {
    let r = WorldRect::new(0, 0, 10, 10);
    assert!(r.contains(WorldPos::new(0, 0)));
    assert!(r.contains(WorldPos::new(9, 9)));
    assert!(!r.contains(WorldPos::new(10, 0)));
    let c = WorldRect::centered(5, -5, 2);
    assert_eq!(c, WorldRect::new(3, -7, 5, 5));
    assert!(c.contains(WorldPos::new(7, -3)));
    let i = r.intersection(&WorldRect::new(5, 5, 10, 10)).unwrap();
    assert_eq!(i, WorldRect::new(5, 5, 5, 5));
    assert!(r.intersection(&WorldRect::new(10, 0, 5, 5)).is_none());
    assert_eq!(r.translate(-3, 4), WorldRect::new(-3, 4, 10, 10));
}

#[test]
fn world_rect_tile_range() {
    let tiles = WorldRect::new(-1, 0, 34, 1).to_tile_range();
    assert_eq!(tiles, vec![TilePos::new(-1, 0), TilePos::new(0, 0), TilePos::new(1, 0)]);
    let tiles = WorldRect::new(0, 0, 32, 32).to_tile_range();
    assert_eq!(tiles, vec![TilePos::new(0, 0)]);
}

#[test]
fn empty_rect_overlaps_no_tile() {
    assert!(WorldRect::new(5, 5, 0, 0).to_tile_range().is_empty());
    assert!(WorldRect::new(5, 5, 10, 0).to_tile_range().is_empty());
    assert!(WorldRect::new(5, 5, 0, 10).to_tile_range().is_empty());
}

#[test]
fn tile_range_at_lowest_coordinate() {
    let tiles = WorldRect::new(i64::MIN, i64::MIN, 1, 1).to_tile_range();
    assert_eq!(tiles, vec![TilePos::new(i64::MIN / 32, i64::MIN / 32)]);
}

#[test]
fn materials_builtins() {
    let materials = Materials::new();
    assert_eq!(materials.len(), 5);
    assert_eq!(materials.get(MaterialId(0)).name, "Void");
    let stone = materials.get(MaterialId(2));
    assert_eq!(stone.name, "Stone");
    assert_eq!(stone.state, PhysicsState::Solid);
    assert_eq!(materials.get(MaterialId(4)).state, PhysicsState::Liquid);
    // Color index 255 selects the last of the eight palette slots.
    assert_eq!(stone.sample(ColorIndex(255)), stone.palette[7]);
    assert_eq!(stone.sample(ColorIndex(0)), stone.palette[0]);
    assert_eq!(stone.sample(ColorIndex(128)), stone.palette[3]);
}

#[test]
fn pixel_flags() {
    let mut p = Pixel::new(MaterialId(3), ColorIndex(1));
    assert!(!p.is_air());
    assert!(Pixel::air().is_air());
    p.set_flag(DIRTY);
    p.set_flag(FALLING);
    assert!(p.has_flag(DIRTY));
    assert!(p.has_flag(FALLING));
    assert!(!p.has_flag(SOLID));
    p.clear_flag(DIRTY);
    assert!(!p.has_flag(DIRTY));
    assert!(p.has_flag(FALLING));
}
