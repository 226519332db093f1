//! The mesh of the unit cube: twelve triangles, two for each face.

use vstd::prelude::*;

verus! {

/// A corner of the unit cube: each coordinate is 0 or 1.
#[derive(Clone, Copy, Debug, PartialEq, Eq, Structural)]
pub struct Corner {
    pub x: u8,
    pub y: u8,
    pub z: u8,
}

/// Three corners, in the order in which their edges are drawn.
pub type Triangle = [Corner; 3];

/// The number of triangles in the mesh.
pub const TRIANGLE_COUNT: usize = 12;

/// The faces of the cube, in the order in which the mesh lists them.
#[derive(Clone, Copy, Debug, PartialEq, Eq, Structural)]
pub enum Face {
    South,
    North,
    East,
    West,
    Top,
    Bottom,
}

impl Corner {
    /// Whether the three coordinates are 0 or 1.
    pub open spec fn on_cube(self) -> bool {
        self.x <= 1 && self.y <= 1 && self.z <= 1
    }
}

pub open spec fn corner(x: u8, y: u8, z: u8) -> Corner {
    Corner { x, y, z }
}

/// The mesh: for each face two triangles that share a diagonal.
pub open spec fn cube_triangles() -> Seq<Seq<Corner>> {
    seq![
        seq![corner(0, 0, 0), corner(0, 1, 0), corner(1, 1, 0)],
        seq![corner(0, 0, 0), corner(1, 1, 0), corner(1, 0, 0)],
        seq![corner(1, 0, 1), corner(1, 1, 1), corner(0, 1, 1)],
        seq![corner(1, 0, 1), corner(0, 1, 1), corner(0, 0, 1)],
        seq![corner(1, 0, 0), corner(1, 1, 0), corner(1, 1, 1)],
        seq![corner(1, 0, 0), corner(1, 1, 1), corner(1, 0, 1)],
        seq![corner(0, 0, 1), corner(0, 1, 1), corner(0, 1, 0)],
        seq![corner(0, 0, 1), corner(0, 1, 0), corner(0, 0, 0)],
        seq![corner(0, 1, 0), corner(0, 1, 1), corner(1, 1, 1)],
        seq![corner(0, 1, 0), corner(1, 1, 1), corner(1, 1, 0)],
        seq![corner(1, 0, 0), corner(1, 0, 1), corner(0, 0, 1)],
        seq![corner(1, 0, 0), corner(0, 0, 1), corner(0, 0, 0)],
    ]
}

/// The face that the triangle with index `i` belongs to.
pub open spec fn face_of(i: int) -> Face {
    if i < 2 {
        Face::South
    } else if i < 4 {
        Face::North
    } else if i < 6 {
        Face::East
    } else if i < 8 {
        Face::West
    } else if i < 10 {
        Face::Top
    } else {
        Face::Bottom
    }
}

/// The direction in which a face looks, away from the cube.
pub open spec fn outward_normal(face: Face) -> (int, int, int) {
    match face {
        Face::South => (0, 0, -1),
        Face::North => (0, 0, 1),
        Face::East => (1, 0, 0),
        Face::West => (-1, 0, 0),
        Face::Top => (0, 1, 0),
        Face::Bottom => (0, -1, 0),
    }
}

/// The cross product of two vectors.
pub open spec fn cross(u: (int, int, int), v: (int, int, int)) -> (int, int, int) {
    (u.1 * v.2 - u.2 * v.1, u.2 * v.0 - u.0 * v.2, u.0 * v.1 - u.1 * v.0)
}

/// The vector from corner `a` to corner `b`.
pub open spec fn edge(a: Corner, b: Corner) -> (int, int, int) {
    (b.x - a.x, b.y - a.y, b.z - a.z)
}

/// The normal of a triangle: the cross product of the edges from its first
/// corner to its second and to its third.
pub open spec fn normal(t: Seq<Corner>) -> (int, int, int) {
    cross(edge(t[0], t[1]), edge(t[0], t[2]))
}

/// Whether `c` is one of the three corners of `t`.
pub open spec fn has_corner(t: Seq<Corner>, c: Corner) -> bool {
    t[0] == c || t[1] == c || t[2] == c
}

/// How many of the three corners of `a` are corners of `b` too.
pub open spec fn shared_corners(a: Seq<Corner>, b: Seq<Corner>) -> nat {
    let first: nat = if has_corner(b, a[0]) {
        1
    } else {
        0
    };
    let second: nat = if has_corner(b, a[1]) {
        1
    } else {
        0
    };
    let third: nat = if has_corner(b, a[2]) {
        1
    } else {
        0
    };
    first + second + third
}

/// The number of corners that the first `n` triangles of `mesh` name.
pub open spec fn corner_references(mesh: Seq<Seq<Corner>>, n: nat) -> nat
    decreases n,
{
    if n == 0 {
        0
    } else {
        corner_references(mesh, (n - 1) as nat) + mesh[n - 1].len()
    }
}

/// The twelve triangles of the unit cube.
pub fn cube_mesh() -> (mesh: [Triangle; 12])
    ensures
        mesh@.len() == cube_triangles().len(),
        forall|i: int| 0 <= i < 12 ==> (#[trigger] mesh@[i])@ == cube_triangles()[i],
{
    let mesh: [Triangle; 12] = [
        [Corner { x: 0, y: 0, z: 0 }, Corner { x: 0, y: 1, z: 0 }, Corner { x: 1, y: 1, z: 0 }],
        [Corner { x: 0, y: 0, z: 0 }, Corner { x: 1, y: 1, z: 0 }, Corner { x: 1, y: 0, z: 0 }],
        [Corner { x: 1, y: 0, z: 1 }, Corner { x: 1, y: 1, z: 1 }, Corner { x: 0, y: 1, z: 1 }],
        [Corner { x: 1, y: 0, z: 1 }, Corner { x: 0, y: 1, z: 1 }, Corner { x: 0, y: 0, z: 1 }],
        [Corner { x: 1, y: 0, z: 0 }, Corner { x: 1, y: 1, z: 0 }, Corner { x: 1, y: 1, z: 1 }],
        [Corner { x: 1, y: 0, z: 0 }, Corner { x: 1, y: 1, z: 1 }, Corner { x: 1, y: 0, z: 1 }],
        [Corner { x: 0, y: 0, z: 1 }, Corner { x: 0, y: 1, z: 1 }, Corner { x: 0, y: 1, z: 0 }],
        [Corner { x: 0, y: 0, z: 1 }, Corner { x: 0, y: 1, z: 0 }, Corner { x: 0, y: 0, z: 0 }],
        [Corner { x: 0, y: 1, z: 0 }, Corner { x: 0, y: 1, z: 1 }, Corner { x: 1, y: 1, z: 1 }],
        [Corner { x: 0, y: 1, z: 0 }, Corner { x: 1, y: 1, z: 1 }, Corner { x: 1, y: 1, z: 0 }],
        [Corner { x: 1, y: 0, z: 0 }, Corner { x: 1, y: 0, z: 1 }, Corner { x: 0, y: 0, z: 1 }],
        [Corner { x: 1, y: 0, z: 0 }, Corner { x: 0, y: 0, z: 1 }, Corner { x: 0, y: 0, z: 0 }],
    ];
    proof {
        assert(mesh@[0]@ =~= cube_triangles()[0]);
        assert(mesh@[1]@ =~= cube_triangles()[1]);
        assert(mesh@[2]@ =~= cube_triangles()[2]);
        assert(mesh@[3]@ =~= cube_triangles()[3]);
        assert(mesh@[4]@ =~= cube_triangles()[4]);
        assert(mesh@[5]@ =~= cube_triangles()[5]);
        assert(mesh@[6]@ =~= cube_triangles()[6]);
        assert(mesh@[7]@ =~= cube_triangles()[7]);
        assert(mesh@[8]@ =~= cube_triangles()[8]);
        assert(mesh@[9]@ =~= cube_triangles()[9]);
        assert(mesh@[10]@ =~= cube_triangles()[10]);
        assert(mesh@[11]@ =~= cube_triangles()[11]);
    }
    mesh
}

/// The mesh holds twelve triangles of three corners each, thirty-six corner
/// references in all, and every corner lies on the unit cube.
pub proof fn lemma_mesh_size()
    ensures
        cube_triangles().len() == 12,
        forall|i: int| 0 <= i < 12 ==> (#[trigger] cube_triangles()[i]).len() == 3,
        corner_references(cube_triangles(), 12) == 36,
        forall|i: int, j: int|
            0 <= i < 12 && 0 <= j < 3 ==> (#[trigger] cube_triangles()[i][j]).on_cube(),
{
    reveal_with_fuel(corner_references, 13);
}

/// The two triangles of a face share exactly two corners: the ends of the
/// diagonal along which the face is split.
pub proof fn lemma_faces_share_diagonal(f: int)
    requires
        0 <= f < 6,
    ensures
        shared_corners(cube_triangles()[2 * f], cube_triangles()[2 * f + 1]) == 2,
        shared_corners(cube_triangles()[2 * f + 1], cube_triangles()[2 * f]) == 2,
{
}

/// Both triangles of a face wind the same way: the normal of each is the
/// direction in which its face looks, away from the cube.
pub proof fn lemma_winding_outward(i: int)
    requires
        0 <= i < 12,
    ensures
        normal(cube_triangles()[i]) == outward_normal(face_of(i)),
{
    let t = cube_triangles()[i];
    lemma_cross_of_units(edge(t[0], t[1]), edge(t[0], t[2]));
}

/// The cross product of two vectors whose entries are -1, 0 or 1, entry by
/// entry.
proof fn lemma_cross_of_units(u: (int, int, int), v: (int, int, int))
    requires
        -1 <= u.0 <= 1 && -1 <= u.1 <= 1 && -1 <= u.2 <= 1,
        -1 <= v.0 <= 1 && -1 <= v.1 <= 1 && -1 <= v.2 <= 1,
    ensures
        cross(u, v) == (
            unit_product(u.1, v.2) - unit_product(u.2, v.1),
            unit_product(u.2, v.0) - unit_product(u.0, v.2),
            unit_product(u.0, v.1) - unit_product(u.1, v.0),
        ),
{
    lemma_unit_product(u.1, v.2);
    lemma_unit_product(u.2, v.1);
    lemma_unit_product(u.2, v.0);
    lemma_unit_product(u.0, v.2);
    lemma_unit_product(u.0, v.1);
    lemma_unit_product(u.1, v.0);
}

/// The product of `a` and `b` where `a` is -1, 0 or 1.
spec fn unit_product(a: int, b: int) -> int {
    if a == 0 {
        0
    } else if a == 1 {
        b
    } else {
        -b
    }
}

proof fn lemma_unit_product(a: int, b: int)
    requires
        -1 <= a <= 1,
    ensures
        a * b == unit_product(a, b),
{
    assert(a * b == unit_product(a, b)) by (nonlinear_arith)
        requires
            a == 0 || a == 1 || a == -1,
            unit_product(a, b) == if a == 0 {
                0
            } else if a == 1 {
                b
            } else {
                -b
            },
    ;
}

} // verus!
