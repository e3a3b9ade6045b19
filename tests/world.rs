use fortress_models::model::{Cullable, Direction};
use fortress_models::world::{Chunk, Matpair, Tile, TileShape};

fn tile(id: i32, hidden: bool) -> Tile {
    Tile { tile_id: id, mat_pair: Matpair::default(), base_mat: Matpair::default(), hidden }
}

#[test]
fn solidity_depends_on_shape_direction_and_bounds() {
    let shapes = vec![TileShape::Empty, TileShape::Wall, TileShape::Floor, TileShape::Shrub];
    let mut c = Chunk::new();
    c.set_tile(1, 1, 1, tile(1, false));
    c.set_tile(2, 1, 1, tile(2, false));
    c.set_tile(3, 1, 1, tile(3, true));
    assert!(c.is_solid(1, 1, 1, Direction::Left, &shapes));
    assert!(c.is_solid(2, 1, 1, Direction::Up, &shapes));
    assert!(!c.is_solid(2, 1, 1, Direction::Left, &shapes));
    assert!(c.is_solid(3, 1, 1, Direction::Left, &shapes));
    assert!(!c.is_solid(0, 0, 0, Direction::Up, &shapes));
    assert!(!c.is_solid(-1, 0, 0, Direction::Up, &shapes));
    assert!(!c.is_solid(0, 16, 0, Direction::Up, &shapes));
    assert_eq!(*c.tile_ref(1, 1, 1), tile(1, false));
}

#[test]
fn mask_of_a_voxel_between_walls() {
    let shapes = vec![TileShape::Empty, TileShape::Wall];
    let mut c = Chunk::new();
    c.set_tile(5, 6, 5, tile(1, false));
    c.set_tile(6, 5, 5, tile(1, false));
    let m = c.get_mask(5, 5, 5, &shapes);
    assert_eq!(m, 0b101000);
    assert!(!Cullable::WhenVisible(Direction::Up).is_visible(m));
    assert!(Cullable::WhenVisible(Direction::Down).is_visible(m));
    assert_eq!(c.get_mask(0, 0, 0, &shapes), 0);
}

#[test]
fn mask_at_chunk_edges_and_beyond() {
    let shapes = vec![TileShape::Empty, TileShape::Wall];
    let mut c = Chunk::new();
    c.set_tile(15, 15, 15, tile(1, false));
    assert_eq!(c.get_mask(15, 14, 15, &shapes), 0b100000);
    assert_eq!(c.get_mask(16, 15, 15, &shapes), 0b000100);
    assert_eq!(c.get_mask(i32::MAX, i32::MIN, 0, &shapes), 0);
}
