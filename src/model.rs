//! The directives of model definitions and the primitives they become:
//! directions, face bases, cull rules and neighbour masks.

use vstd::prelude::*;

verus! {

/// The six faces of a voxel.
#[derive(Clone, Copy, PartialEq, Eq, Structural, Debug)]
pub enum Direction {
    Up,
    Down,
    Left,
    Right,
    Forward,
    Backwards,
}

/// The bit position of each direction in a 6-bit neighbour mask.
pub open spec fn bit_offset_of(d: Direction) -> u8 {
    match d {
        Direction::Up => 5,
        Direction::Down => 4,
        Direction::Left => 3,
        Direction::Right => 2,
        Direction::Forward => 1,
        Direction::Backwards => 0,
    }
}

/// An integer 3-vector: one unit axis of a face basis.
pub type Axis = (i8, i8, i8);

/// The basis of a face: width axis, normal, height axis.
pub open spec fn coords_of(d: Direction) -> [Axis; 3] {
    match d {
        Direction::Up => [(1i8, 0i8, 0i8), (0, 1, 0), (0, 0, 1)],
        Direction::Down => [(1i8, 0i8, 0i8), (0, -1i8, 0), (0, 0, -1i8)],
        Direction::Left => [(0, 0, -1i8), (1i8, 0i8, 0i8), (0, -1i8, 0)],
        Direction::Right => [(0, 0, 1), (-1i8, 0, 0), (0, -1i8, 0)],
        Direction::Forward => [(1i8, 0i8, 0i8), (0, 0, 1), (0, -1i8, 0)],
        Direction::Backwards => [(-1i8, 0, 0), (0, 0, -1i8), (0, -1i8, 0)],
    }
}

impl Direction {
    /// The face basis as unit integer axes: width axis, normal, height axis.
    pub fn get_coords(self) -> (r: [Axis; 3])
        ensures
            r == coords_of(self),
    {
        match self {
            Direction::Up => [(1, 0, 0), (0, 1, 0), (0, 0, 1)],
            Direction::Down => [(1, 0, 0), (0, -1, 0), (0, 0, -1)],
            Direction::Left => [(0, 0, -1), (1, 0, 0), (0, -1, 0)],
            Direction::Right => [(0, 0, 1), (-1, 0, 0), (0, -1, 0)],
            Direction::Forward => [(1, 0, 0), (0, 0, 1), (0, -1, 0)],
            Direction::Backwards => [(-1, 0, 0), (0, 0, -1), (0, -1, 0)],
        }
    }

    /// The mask bit of this direction.
    pub fn get_bit(self) -> (r: u8)
        ensures
            r == 1u8 << bit_offset_of(self),
    {
        let r: u8 = match self {
            Direction::Up => 0b00100000,
            Direction::Down => 0b00010000,
            Direction::Left => 0b00001000,
            Direction::Right => 0b00000100,
            Direction::Forward => 0b00000010,
            Direction::Backwards => 0b00000001,
        };
        let o = self.get_bit_offset();
        assert(r == 1u8 << o) by (bit_vector)
            requires
                (o == 5 && r == 32) || (o == 4 && r == 16) || (o == 3 && r == 8) || (o == 2 && r
                    == 4) || (o == 1 && r == 2) || (o == 0 && r == 1),
        ;
        r
    }

    /// The position of this direction's bit in the mask.
    pub fn get_bit_offset(self) -> (r: u8)
        ensures
            r == bit_offset_of(self),
            r < 6,
    {
        match self {
            Direction::Up => 5,
            Direction::Down => 4,
            Direction::Left => 3,
            Direction::Right => 2,
            Direction::Forward => 1,
            Direction::Backwards => 0,
        }
    }
}

/// The corners of a face as signs along its width and height axes, in the
/// order the vertices are emitted; a corner's position is
/// `offset + sx * width_axis * size.x / 2 + sy * height_axis * size.y / 2`.
pub open spec fn corners_spec() -> [(i8, i8); 4] {
    [(-1i8, -1i8), (1i8, -1i8), (-1i8, 1i8), (1i8, 1i8)]
}

/// The texture coordinates of the corners, in the same order.
pub open spec fn corner_uvs_spec() -> [(u8, u8); 4] {
    [(0u8, 0u8), (1u8, 0u8), (0u8, 1u8), (1u8, 1u8)]
}

pub fn quad_corners() -> (r: [(i8, i8); 4])
    ensures
        r == corners_spec(),
{
    [(-1, -1), (1, -1), (-1, 1), (1, 1)]
}

pub fn quad_uvs() -> (r: [(u8, u8); 4])
    ensures
        r == corner_uvs_spec(),
{
    [(0, 0), (1, 0), (0, 1), (1, 1)]
}

/// The dot product of two axes.
pub open spec fn dot(a: Axis, b: Axis) -> int {
    a.0 * b.0 + a.1 * b.1 + a.2 * b.2
}

/// A face quad is centred on its offset and spans one full size along each
/// of its two axes: the corner signs along each axis sum to zero and range
/// over -1 and 1; each corner's texture coordinate is its sign mapped from
/// -1..1 to 0..1; and the width axis, normal and height axis of every
/// direction are unit vectors at right angles to each other.
pub proof fn law_quad_centred_and_spanning(d: Direction)
    ensures
        ({
            let c = corners_spec();
            &&& c[0].0 + c[1].0 + c[2].0 + c[3].0 == 0
            &&& c[0].1 + c[1].1 + c[2].1 + c[3].1 == 0
            &&& forall|i: int| 0 <= i < 4 ==> (c[i].0 == 1 || c[i].0 == -1) && (c[i].1 == 1 || c[i].1 == -1)
            &&& forall|i: int| 0 <= i < 4 ==> 2 * corner_uvs_spec()[i].0 == c[i].0 + 1 && 2 * corner_uvs_spec()[i].1 == c[i].1 + 1
        }),
        ({
            let b = coords_of(d);
            &&& dot(b[0], b[0]) == 1 && dot(b[1], b[1]) == 1 && dot(b[2], b[2]) == 1
            &&& dot(b[0], b[1]) == 0 && dot(b[0], b[2]) == 0 && dot(b[1], b[2]) == 0
        }),
{
    let c = corners_spec();
    assert(c[0] == (-1i8, -1i8) && c[1] == (1i8, -1i8) && c[2] == (-1i8, 1i8) && c[3] == (1i8, 1i8));
    let u = corner_uvs_spec();
    assert(u[0] == (0u8, 0u8) && u[1] == (1u8, 0u8) && u[2] == (0u8, 1u8) && u[3] == (1u8, 1u8));
    let b = coords_of(d);
    assert(dot(b[0], b[0]) == 1 && dot(b[1], b[1]) == 1 && dot(b[2], b[2]) == 1 && dot(b[0], b[1]) == 0
        && dot(b[0], b[2]) == 0 && dot(b[1], b[2]) == 0) by (nonlinear_arith)
        requires
            b == coords_of(d),
            d is Up ==> b[0] == (1i8, 0i8, 0i8) && b[1] == (0i8, 1i8, 0i8) && b[2] == (0i8, 0i8, 1i8),
            d is Down ==> b[0] == (1i8, 0i8, 0i8) && b[1] == (0i8, -1i8, 0i8) && b[2] == (0i8, 0i8, -1i8),
            d is Left ==> b[0] == (0i8, 0i8, -1i8) && b[1] == (1i8, 0i8, 0i8) && b[2] == (0i8, -1i8, 0i8),
            d is Right ==> b[0] == (0i8, 0i8, 1i8) && b[1] == (-1i8, 0i8, 0i8) && b[2] == (0i8, -1i8, 0i8),
            d is Forward ==> b[0] == (1i8, 0i8, 0i8) && b[1] == (0i8, 0i8, 1i8) && b[2] == (0i8, -1i8, 0i8),
            d is Backwards ==> b[0] == (-1i8, 0i8, 0i8) && b[1] == (0i8, 0i8, -1i8) && b[2] == (0i8, -1i8, 0i8),
    {
    }
}

/// Whether the neighbour in direction `d` is marked occupied in `mask`.
pub open spec fn occupied(mask: u8, d: Direction) -> bool {
    (mask >> bit_offset_of(d)) & 1 == 1
}

/// The neighbour mask with the given directions occupied.
pub fn get_mask(up: bool, down: bool, left: bool, right: bool, forward: bool, backward: bool) -> (r: u8)
    ensures
        occupied(r, Direction::Up) == up,
        occupied(r, Direction::Down) == down,
        occupied(r, Direction::Left) == left,
        occupied(r, Direction::Right) == right,
        occupied(r, Direction::Forward) == forward,
        occupied(r, Direction::Backwards) == backward,
        r < 64,
{
    let u: u8 = if up { 1 } else { 0 };
    let d: u8 = if down { 1 } else { 0 };
    let l: u8 = if left { 1 } else { 0 };
    let g: u8 = if right { 1 } else { 0 };
    let f: u8 = if forward { 1 } else { 0 };
    let b: u8 = if backward { 1 } else { 0 };
    let r: u8 = (u << 5u8) | (d << 4u8) | (l << 3u8) | (g << 2u8) | (f << 1u8) | b;
    assert(((r >> 5u8) & 1 == 1) == (u == 1) && ((r >> 4u8) & 1 == 1) == (d == 1) && ((r >> 3u8) & 1
        == 1) == (l == 1) && ((r >> 2u8) & 1 == 1) == (g == 1) && ((r >> 1u8) & 1 == 1) == (f == 1) && ((
    r >> 0u8) & 1 == 1) == (b == 1) && r < 64) by (bit_vector)
        requires
            u <= 1 && d <= 1 && l <= 1 && g <= 1 && f <= 1 && b <= 1,
            r == (u << 5u8) | (d << 4u8) | (l << 3u8) | (g << 2u8) | (f << 1u8) | b,
    ;
    r
}

/// When a primitive is dropped, given which neighbours are occupied.
#[derive(Clone, Copy, PartialEq, Eq, Structural, Debug)]
pub enum Cullable {
    Never,
    WhenVisible(Direction),
    WhenHidden(Direction),
}

/// Whether a primitive with cull rule `c` is drawn under `mask`.
pub open spec fn visible_under(c: Cullable, mask: u8) -> bool {
    match c {
        Cullable::Never => true,
        Cullable::WhenVisible(d) => !occupied(mask, d),
        Cullable::WhenHidden(d) => occupied(mask, d),
    }
}

impl Cullable {
    /// Whether the primitive is drawn when the neighbours in `mask` are
    /// occupied.
    pub fn is_visible(self, mask: u8) -> (r: bool)
        ensures
            r == visible_under(self, mask),
    {
        match self {
            Cullable::Never => true,
            Cullable::WhenVisible(direction) => {
                let bit = direction.get_bit();
                let o = direction.get_bit_offset();
                assert((mask & bit == 0) == ((mask >> o) & 1 != 1)) by (bit_vector)
                    requires
                        bit == 1u8 << o,
                        o < 6,
                ;
                (mask & bit) == 0
            },
            Cullable::WhenHidden(direction) => {
                let bit = direction.get_bit();
                let o = direction.get_bit_offset();
                assert((mask & bit == bit) == ((mask >> o) & 1 == 1)) by (bit_vector)
                    requires
                        bit == 1u8 << o,
                        o < 6,
                ;
                (mask & bit) == bit
            },
        }
    }

    pub fn default() -> (r: Self)
        ensures
            r == Cullable::Never,
    {
        Cullable::Never
    }
}

/// Which texture a primitive uses: a variable name and an optional clip
/// rectangle.
pub struct Texturing {
    pub src: String,
    pub clip: Option<(u32, u32, u32, u32)>,
}

/// One directive of a model definition. Geometry that the resolver only
/// carries along (sizes, offsets, vertex data) is referred to by `shape`, a
/// position in a list that the caller keeps.
pub enum MeshElement {
    Params(Vec<(String, String)>),
    Inherit(String),
    Transparent(bool),
    Face { n: Direction, shape: usize, t: Texturing, cullable: Cullable },
    MeshImport { shape: usize, t: Texturing, cullable: Cullable },
    Mesh { shape: usize, t: Texturing },
}

/// A primitive awaiting its texture. `t.0` is a position in the variable
/// table of its file until textures are resolved, and a position in the
/// texture table after.
#[derive(Clone, Copy, PartialEq, Eq, Debug)]
pub enum PreBakedModel {
    Face { n: Direction, shape: usize, t: (usize, Option<(u32, u32, u32, u32)>), cullable: Cullable },
    Mesh { shape: usize, t: (usize, Option<(u32, u32, u32, u32)>), cullable: Cullable },
}

impl PreBakedModel {
    pub open spec fn texture(self) -> usize {
        match self {
            PreBakedModel::Face { t, .. } => t.0,
            PreBakedModel::Mesh { t, .. } => t.0,
        }
    }

    /// The same primitive with texture position `i`.
    pub open spec fn with_texture(self, i: usize) -> PreBakedModel {
        match self {
            PreBakedModel::Face { n, shape, t, cullable } => PreBakedModel::Face {
                n,
                shape,
                t: (i, t.1),
                cullable,
            },
            PreBakedModel::Mesh { shape, t, cullable } => PreBakedModel::Mesh {
                shape,
                t: (i, t.1),
                cullable,
            },
        }
    }

    pub fn texture_index(&self) -> (r: usize)
        ensures
            r == self.texture(),
    {
        match self {
            PreBakedModel::Face { t, .. } => t.0,
            PreBakedModel::Mesh { t, .. } => t.0,
        }
    }

    pub fn set_texture_index(self, i: usize) -> (r: PreBakedModel)
        ensures
            r == self.with_texture(i),
    {
        match self {
            PreBakedModel::Face { n, shape, t, cullable } => PreBakedModel::Face {
                n,
                shape,
                t: (i, t.1),
                cullable,
            },
            PreBakedModel::Mesh { shape, t, cullable } => PreBakedModel::Mesh {
                shape,
                t: (i, t.1),
                cullable,
            },
        }
    }

    pub fn cullable(&self) -> (r: Cullable)
        ensures
            r == (match self {
                PreBakedModel::Face { cullable, .. } => *cullable,
                PreBakedModel::Mesh { cullable, .. } => *cullable,
            }),
    {
        match self {
            PreBakedModel::Face { cullable, .. } => *cullable,
            PreBakedModel::Mesh { cullable, .. } => *cullable,
        }
    }
}

} // verus!
