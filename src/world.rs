//! Voxels of a chunk and whether each one hides the faces of its neighbours.

use vstd::prelude::*;
use crate::model::{get_mask, occupied, Direction};
use crate::storage::MaterialIdentifier;

verus! {

/// A material as the simulation numbers it.
#[derive(Clone, Copy, PartialEq, Eq, Structural, Debug, Default)]
pub struct Matpair {
    pub type_: i32,
    pub index: i32,
}

/// A material of the simulation and, if it has one, its name.
pub struct MaterialDef {
    pub id: Option<MaterialIdentifier>,
    pub mat_pair: Matpair,
}

/// One voxel: its tile type, materials, and whether it is hidden.
#[derive(Clone, Copy, PartialEq, Eq, Structural, Debug, Default)]
pub struct Tile {
    pub tile_id: i32,
    pub mat_pair: Matpair,
    pub base_mat: Matpair,
    pub hidden: bool,
}

/// The shape classes of tile types.
#[derive(Clone, Copy, PartialEq, Eq, Structural, Debug)]
pub enum TileShape {
    NoShape,
    Empty,
    Floor,
    Boulder,
    Pebbles,
    Wall,
    Fortification,
    StairUp,
    StairDown,
    StairUpdown,
    Ramp,
    RampTop,
    BrookBed,
    BrookTop,
    TreeShape,
    Sapling,
    Shrub,
    EndlessPit,
    Branch,
    TrunkBranch,
    Twig,
}

/// Whether a tile of this shape hides the face of its neighbour that looks
/// at it from `direction`: nothing for open shapes, only from above for
/// floor-like ones, from everywhere for the rest.
pub open spec fn shape_blocks(shape: TileShape, direction: Direction) -> bool {
    match shape {
        TileShape::Sapling | TileShape::Shrub | TileShape::EndlessPit | TileShape::NoShape
        | TileShape::Empty => false,
        TileShape::Boulder | TileShape::Pebbles | TileShape::Floor => direction == Direction::Up,
        _ => true,
    }
}

/// The side length of a chunk.
pub const CHUNK_SIZE: i32 = 16;

/// The position of a voxel in a chunk's tile list.
pub open spec fn tile_index(x: int, y: int, z: int) -> int {
    x + y * 16 + z * 256
}

pub open spec fn in_chunk(x: int, y: int, z: int) -> bool {
    0 <= x < 16 && 0 <= y < 16 && 0 <= z < 16
}

/// A 16x16x16 block of voxels.
pub struct Chunk {
    tiles: Vec<Tile>,
}

impl View for Chunk {
    type V = Seq<Tile>;

    closed spec fn view(&self) -> Seq<Tile> {
        self.tiles@
    }
}

impl Chunk {
    /// Whether the voxel at (x, y, z) occupies the neighbour slot seen from
    /// `direction`: outside the chunk nothing does; inside, a hidden tile
    /// does, and otherwise its shape decides.
    pub open spec fn solid_spec(&self, x: int, y: int, z: int, direction: Direction, shapes: Seq<TileShape>) -> bool {
        if !in_chunk(x, y, z) {
            false
        } else {
            let t = self@[tile_index(x, y, z)];
            t.hidden || shape_blocks(shapes[t.tile_id as int], direction)
        }
    }

    /// Every tile's type is one of `shapes`.
    pub open spec fn types_known(&self, shapes: Seq<TileShape>) -> bool {
        forall|i: int| 0 <= i < self@.len() ==> 0 <= (#[trigger] self@[i]).tile_id < shapes.len()
    }

    pub fn new() -> (r: Self)
        ensures
            r@.len() == 4096,
            forall|i: int| 0 <= i < 4096 ==> r@[i] == Tile::default_spec(),
    {
        let mut tiles: Vec<Tile> = Vec::new();
        let mut i: usize = 0;
        while i < 4096
            invariant
                i <= 4096,
                tiles@.len() == i,
                forall|j: int| 0 <= j < i ==> tiles@[j] == Tile::default_spec(),
            decreases 4096 - i,
        {
            tiles.push(Tile::empty());
            i = i + 1;
        }
        Chunk { tiles }
    }

    pub fn set_tile(&mut self, x: i32, y: i32, z: i32, tile: Tile)
        requires
            old(self)@.len() == 4096,
            in_chunk(x as int, y as int, z as int),
        ensures
            final(self)@ == old(self)@.update(tile_index(x as int, y as int, z as int), tile),
    {
        let i = (x + y * 16 + z * 256) as usize;
        self.tiles.set(i, tile);
    }

    pub fn tile_ref(&self, x: i32, y: i32, z: i32) -> (r: &Tile)
        requires
            self@.len() == 4096,
            in_chunk(x as int, y as int, z as int),
        ensures
            *r == self@[tile_index(x as int, y as int, z as int)],
    {
        &self.tiles[(x + y * 16 + z * 256) as usize]
    }

    /// Whether the voxel at (x, y, z) counts as occupied for a neighbour
    /// looking from `direction`; `shapes` gives the shape of each tile type.
    pub fn is_solid(&self, x: i32, y: i32, z: i32, direction: Direction, shapes: &Vec<TileShape>) -> (r: bool)
        requires
            self@.len() == 4096,
            self.types_known(shapes@),
        ensures
            r == self.solid_spec(x as int, y as int, z as int, direction, shapes@),
    {
        if x < 0 || x >= CHUNK_SIZE || y < 0 || y >= CHUNK_SIZE || z < 0 || z >= CHUNK_SIZE {
            false
        } else {
            let tile = self.tile_ref(x, y, z);
            let shape = shapes[tile.tile_id as usize];
            tile.hidden || match shape {
                TileShape::Sapling | TileShape::Shrub | TileShape::EndlessPit | TileShape::NoShape
                | TileShape::Empty => false,
                TileShape::Boulder | TileShape::Pebbles | TileShape::Floor => direction == Direction::Up,
                _ => true,
            }
        }
    }

    /// Whether the neighbour at offset (dx, dy, dz) from (x, y, z) is
    /// occupied when seen from `direction`.
    fn solid_at(&self, x: i32, y: i32, z: i32, dx: i8, dy: i8, dz: i8, direction: Direction, shapes: &Vec<TileShape>) -> (r: bool)
        requires
            self@.len() == 4096,
            self.types_known(shapes@),
        ensures
            r == self.solid_spec(x + dx, y + dy, z + dz, direction, shapes@),
    {
        let nx = x as i64 + dx as i64;
        let ny = y as i64 + dy as i64;
        let nz = z as i64 + dz as i64;
        if nx < 0 || nx >= 16 || ny < 0 || ny >= 16 || nz < 0 || nz >= 16 {
            false
        } else {
            self.is_solid(nx as i32, ny as i32, nz as i32, direction, shapes)
        }
    }

    /// The neighbour mask of the voxel at (x, y, z): each direction's bit is
    /// set when the neighbour on that side is occupied; neighbours outside
    /// the chunk are not.
    pub fn get_mask(&self, x: i32, y: i32, z: i32, shapes: &Vec<TileShape>) -> (r: u8)
        requires
            self@.len() == 4096,
            self.types_known(shapes@),
        ensures
            r < 64,
            occupied(r, Direction::Up) == self.solid_spec(x as int, y + 1, z as int, Direction::Up, shapes@),
            occupied(r, Direction::Down) == self.solid_spec(x as int, y - 1, z as int, Direction::Down, shapes@),
            occupied(r, Direction::Left) == self.solid_spec(x + 1, y as int, z as int, Direction::Left, shapes@),
            occupied(r, Direction::Right) == self.solid_spec(x - 1, y as int, z as int, Direction::Right, shapes@),
            occupied(r, Direction::Forward) == self.solid_spec(x as int, y as int, z + 1, Direction::Forward, shapes@),
            occupied(r, Direction::Backwards) == self.solid_spec(x as int, y as int, z - 1, Direction::Backwards, shapes@),
    {
        let up = self.solid_at(x, y, z, 0, 1, 0, Direction::Up, shapes);
        let down = self.solid_at(x, y, z, 0, -1, 0, Direction::Down, shapes);
        let left = self.solid_at(x, y, z, 1, 0, 0, Direction::Left, shapes);
        let right = self.solid_at(x, y, z, -1, 0, 0, Direction::Right, shapes);
        let forward = self.solid_at(x, y, z, 0, 0, 1, Direction::Forward, shapes);
        let backward = self.solid_at(x, y, z, 0, 0, -1, Direction::Backwards, shapes);
        get_mask(up, down, left, right, forward, backward)
    }
}

impl Tile {
    pub open spec fn default_spec() -> Tile {
        Tile {
            tile_id: 0,
            mat_pair: Matpair { type_: 0, index: 0 },
            base_mat: Matpair { type_: 0, index: 0 },
            hidden: false,
        }
    }

    /// The tile of type 0, with material (0, 0), not hidden.
    pub fn empty() -> (r: Tile)
        ensures
            r == Tile::default_spec(),
    {
        Tile { tile_id: 0, mat_pair: Matpair { type_: 0, index: 0 }, base_mat: Matpair { type_: 0, index: 0 }, hidden: false }
    }
}

} // verus!
