//! The way of a vertex from the mesh to the surface: two rotations, a push
//! into the depth, and the perspective projection.

use vstd::prelude::*;
use crate::arithmetic::{
    difference, from_integer, minus, minus_one, negated, negation, of_integer, one, over, plus,
    product, quotient, same_number, sum, times, zero, MINUS_ONE_BITS,
};
use crate::arithmetic_laws::{
    lemma_product_with_one, lemma_product_with_zero, lemma_quotient_by_one, lemma_sum_with_zero,
};
use crate::binary64::{Binary64, ONE_BITS};
use crate::mesh::{Corner, Triangle};
use crate::screen::Surface;

verus! {

/// A point of three-dimensional space.
#[derive(Clone, Copy, Debug, PartialEq, Eq, Structural)]
pub struct Point3d {
    pub x: Binary64,
    pub y: Binary64,
    pub z: Binary64,
}

/// A transform of homogeneous coordinates. A point is a row: the entry in
/// row `i` and column `j` says what coordinate `i` of the point adds to
/// coordinate `j` of its image, and row 3 holds the translation.
pub type Matrix = [[Binary64; 4]; 4];

/// The bit pattern of one half.
pub const HALF_BITS: u64 = 0x3fe0_0000_0000_0000;

/// How far the cube is pushed away from the eye: the bit pattern of 3.
pub const DEPTH_OFFSET_BITS: u64 = 0x4008_0000_0000_0000;

/// The near plane: the bit pattern of the double nearest to one tenth.
pub const NEAR_PLANE_BITS: u64 = 0x3fb9_9999_9999_999a;

/// The far plane: the bit pattern of 1000.
pub const FAR_PLANE_BITS: u64 = 0x408f_4000_0000_0000;

/// The field of view: the bit pattern of 90.
pub const FIELD_OF_VIEW_BITS: u64 = 0x4056_8000_0000_0000;

/// Coordinate `column` of the image of `p`, before the perspective divide:
/// the coordinates of `p` times the column, summed from left to right, and
/// the translation added last.
pub open spec fn combination(m: Matrix, p: Point3d, column: int) -> Binary64 {
    sum(
        sum(
            sum(product(p.x, m[0][column]), product(p.y, m[1][column])),
            product(p.z, m[2][column]),
        ),
        m[3][column],
    )
}

/// The image of `p` under `m`: the three combinations, each divided by the
/// fourth unless that is a zero.
#[verifier::opaque]
pub open spec fn transformed(m: Matrix, p: Point3d) -> Point3d {
    let x = combination(m, p, 0);
    let y = combination(m, p, 1);
    let z = combination(m, p, 2);
    let w = combination(m, p, 3);
    if w.is_zero() {
        Point3d { x, y, z }
    } else {
        Point3d { x: quotient(x, w), y: quotient(y, w), z: quotient(z, w) }
    }
}

/// The entries of the rotation about the Z axis by the angle with the
/// given cosine and sine.
pub open spec fn rotation_z_entry(cos: Binary64, sin: Binary64, i: int, j: int) -> Binary64 {
    if (i == 0 && j == 0) || (i == 1 && j == 1) {
        cos
    } else if i == 0 && j == 1 {
        sin
    } else if i == 1 && j == 0 {
        negation(sin)
    } else if (i == 2 && j == 2) || (i == 3 && j == 3) {
        one()
    } else {
        zero(false)
    }
}

/// The entries of the rotation about the X axis by the angle with the
/// given cosine and sine.
pub open spec fn rotation_x_entry(cos: Binary64, sin: Binary64, i: int, j: int) -> Binary64 {
    if (i == 1 && j == 1) || (i == 2 && j == 2) {
        cos
    } else if i == 1 && j == 2 {
        sin
    } else if i == 2 && j == 1 {
        product(minus_one(), sin)
    } else if (i == 0 && j == 0) || (i == 3 && j == 3) {
        one()
    } else {
        zero(false)
    }
}

/// The scale of the field of view: one over the tangent of half the
/// angle.
pub open spec fn field_of_view_scale(tan_half_angle: Binary64) -> Binary64 {
    quotient(one(), tan_half_angle)
}

/// The entries of the perspective projection for a surface, a near and a
/// far plane, and the tangent of half the field of view.
pub open spec fn projection_entry(
    surface: Surface,
    near: Binary64,
    far: Binary64,
    tan_half_angle: Binary64,
    i: int,
    j: int,
) -> Binary64 {
    let aspect = quotient(of_integer(surface.height as int), of_integer(surface.width as int));
    let scale = field_of_view_scale(tan_half_angle);
    let depth = difference(far, near);
    if i == 0 && j == 0 {
        product(aspect, scale)
    } else if i == 1 && j == 1 {
        scale
    } else if i == 2 && j == 2 {
        quotient(far, depth)
    } else if i == 3 && j == 2 {
        quotient(product(negation(far), near), depth)
    } else if i == 2 && j == 3 {
        one()
    } else {
        zero(false)
    }
}

/// The point of a corner of the cube.
pub open spec fn corner_point(c: Corner) -> Point3d {
    Point3d {
        x: of_integer(c.x as int),
        y: of_integer(c.y as int),
        z: of_integer(c.z as int),
    }
}

/// The point pushed into the depth.
pub open spec fn pushed_back(p: Point3d) -> Point3d {
    Point3d { x: p.x, y: p.y, z: sum(p.z, Binary64 { bits: DEPTH_OFFSET_BITS }) }
}

/// The whole way of a point: rotated about Z, rotated about X, pushed into
/// the depth, projected.
pub open spec fn projected(p: Point3d, z_rot: Matrix, x_rot: Matrix, projection: Matrix) -> Point3d {
    transformed(projection, pushed_back(transformed(x_rot, transformed(z_rot, p))))
}

fn combine(matrix: &Matrix, p: Point3d, column: usize) -> (r: Binary64)
    requires
        column < 4,
    ensures
        r == combination(*matrix, p, column as int),
{
    plus(
        plus(
            plus(times(p.x, matrix[0][column]), times(p.y, matrix[1][column])),
            times(p.z, matrix[2][column]),
        ),
        matrix[3][column],
    )
}

/// Applies a transform to a point and writes the image to `vec_out`.
pub fn multiply_matrix_vector(matrix: Matrix, vec_in: Point3d, vec_out: &mut Point3d)
    ensures
        *final(vec_out) == transformed(matrix, vec_in),
{
    reveal(transformed);
    let x = combine(&matrix, vec_in, 0);
    let y = combine(&matrix, vec_in, 1);
    let z = combine(&matrix, vec_in, 2);
    let w = combine(&matrix, vec_in, 3);
    if w.bits % crate::binary64::SIGN_BIT != 0 {
        vec_out.x = over(x, w);
        vec_out.y = over(y, w);
        vec_out.z = over(z, w);
    } else {
        vec_out.x = x;
        vec_out.y = y;
        vec_out.z = z;
    }
}

/// The rotation about the Z axis by the angle with the given cosine and
/// sine.
pub fn rotation_z(cos: Binary64, sin: Binary64) -> (m: Matrix)
    ensures
        forall|i: int, j: int|
            0 <= i < 4 && 0 <= j < 4 ==> #[trigger] m[i][j] == rotation_z_entry(cos, sin, i, j),
{
    let o = Binary64 { bits: 0 };
    let l = Binary64 { bits: ONE_BITS };
    [[cos, sin, o, o], [negated(sin), cos, o, o], [o, o, l, o], [o, o, o, l]]
}

/// The rotation about the X axis by the angle with the given cosine and
/// sine.
pub fn rotation_x(cos: Binary64, sin: Binary64) -> (m: Matrix)
    ensures
        forall|i: int, j: int|
            0 <= i < 4 && 0 <= j < 4 ==> #[trigger] m[i][j] == rotation_x_entry(cos, sin, i, j),
{
    let o = Binary64 { bits: 0 };
    let l = Binary64 { bits: ONE_BITS };
    let turned = times(Binary64 { bits: MINUS_ONE_BITS }, sin);
    [[l, o, o, o], [o, cos, sin, o], [o, turned, cos, o], [o, o, o, l]]
}

/// The perspective projection for a surface, a near and a far plane, and
/// the tangent of half the field of view.
pub fn projection_matrix(
    surface: Surface,
    near: Binary64,
    far: Binary64,
    tan_half_angle: Binary64,
) -> (m: Matrix)
    ensures
        forall|i: int, j: int|
            0 <= i < 4 && 0 <= j < 4 ==> #[trigger] m[i][j] == projection_entry(
                surface,
                near,
                far,
                tan_half_angle,
                i,
                j,
            ),
{
    let o = Binary64 { bits: 0 };
    let l = Binary64 { bits: ONE_BITS };
    let aspect = over(from_integer(surface.height), from_integer(surface.width));
    let scale = over(l, tan_half_angle);
    let depth = minus(far, near);
    [
        [times(aspect, scale), o, o, o],
        [o, scale, o, o],
        [o, o, over(far, depth), l],
        [o, o, over(times(negated(far), near), depth), o],
    ]
}

/// The angles of a frame: the turn about the Z axis, which is the time since
/// the start in seconds, and the tilt about the X axis, half of it.
pub fn rotation_angles(elapsed: Binary64) -> (angles: (Binary64, Binary64))
    ensures
        angles.0 == product(one(), elapsed),
        angles.1 == product(angles.0, Binary64 { bits: HALF_BITS }),
{
    let turn = times(Binary64 { bits: ONE_BITS }, elapsed);
    (turn, times(turn, Binary64 { bits: HALF_BITS }))
}

/// The angle whose tangent scales the field of view: half of it.
pub fn half_field_of_view() -> (angle: Binary64)
    ensures
        angle == product(Binary64 { bits: FIELD_OF_VIEW_BITS }, Binary64 { bits: HALF_BITS }),
{
    times(Binary64 { bits: FIELD_OF_VIEW_BITS }, Binary64 { bits: HALF_BITS })
}

/// The point of a corner of the cube.
pub fn point_of_corner(c: Corner) -> (p: Point3d)
    ensures
        p == corner_point(c),
{
    Point3d {
        x: from_integer(c.x as i32),
        y: from_integer(c.y as i32),
        z: from_integer(c.z as i32),
    }
}

/// Takes a point the whole way: rotated about Z, rotated about X, pushed
/// into the depth, projected.
pub fn project_point(p: Point3d, z_rot: Matrix, x_rot: Matrix, projection: Matrix) -> (r: Point3d)
    ensures
        r == projected(p, z_rot, x_rot, projection),
{
    let mut turned = p;
    multiply_matrix_vector(z_rot, p, &mut turned);
    let mut tilted = turned;
    multiply_matrix_vector(x_rot, turned, &mut tilted);
    let mut moved = tilted;
    moved.z = plus(tilted.z, Binary64 { bits: DEPTH_OFFSET_BITS });
    let mut flat = moved;
    multiply_matrix_vector(projection, moved, &mut flat);
    flat
}

/// Takes the three corners of a triangle of the mesh the whole way.
pub fn project_triangle(
    triangle: &Triangle,
    z_rot: Matrix,
    x_rot: Matrix,
    projection: Matrix,
) -> (r: [Point3d; 3])
    ensures
        forall|i: int|
            0 <= i < 3 ==> #[trigger] r[i] == projected(
                corner_point(triangle[i]),
                z_rot,
                x_rot,
                projection,
            ),
{
    [
        project_point(point_of_corner(triangle[0]), z_rot, x_rot, projection),
        project_point(point_of_corner(triangle[1]), z_rot, x_rot, projection),
        project_point(point_of_corner(triangle[2]), z_rot, x_rot, projection),
    ]
}

/// Whether two points are the same: coordinate by coordinate the same
/// number.
pub open spec fn same_point(p: Point3d, q: Point3d) -> bool {
    same_number(p.x, q.x) && same_number(p.y, q.y) && same_number(p.z, q.z)
}

/// Whether a matrix holds ones on its diagonal and zeros elsewhere. The
/// zeros may have either sign.
pub open spec fn is_identity(m: Matrix) -> bool {
    forall|i: int, j: int|
        0 <= i < 4 && 0 <= j < 4 ==> if i == j {
            #[trigger] m[i][j] == one()
        } else {
            m[i][j].is_zero()
        }
}

/// Whether column `col` of a matrix holds a one in row `k` and zeros in its
/// other rows.
pub open spec fn is_unit_column(m: Matrix, col: int, k: int) -> bool {
    forall|i: int|
        0 <= i < 4 ==> if i == k {
            #[trigger] m[i][col] == one()
        } else {
            m[i][col].is_zero()
        }
}

/// A column with a one in row `k` and zeros elsewhere picks coordinate `k`
/// of a point with finite coordinates, and for `k == 3` it gives one.
pub proof fn lemma_unit_column(m: Matrix, p: Point3d, col: int, k: int)
    requires
        is_unit_column(m, col, k),
        p.x.is_finite(),
        p.y.is_finite(),
        p.z.is_finite(),
        0 <= col < 4,
        0 <= k < 4,
    ensures
        combination(m, p, col).is_finite(),
        k == 0 ==> same_number(combination(m, p, col), p.x),
        k == 1 ==> same_number(combination(m, p, col), p.y),
        k == 2 ==> same_number(combination(m, p, col), p.z),
        k == 3 ==> combination(m, p, col) == one(),
{
    let a = product(p.x, m[0][col]);
    let b = product(p.y, m[1][col]);
    let c = product(p.z, m[2][col]);
    let d = m[3][col];
    assert(m[k][col] == one());
    assert(k != 0 ==> m[0][col].is_zero());
    assert(k != 1 ==> m[1][col].is_zero());
    assert(k != 2 ==> m[2][col].is_zero());
    assert(k != 3 ==> m[3][col].is_zero());
    if k == 0 {
        lemma_product_with_one(p.x);
    } else {
        lemma_product_with_zero(p.x, m[0][col]);
    }
    if k == 1 {
        lemma_product_with_one(p.y);
    } else {
        lemma_product_with_zero(p.y, m[1][col]);
    }
    if k == 2 {
        lemma_product_with_one(p.z);
    } else {
        lemma_product_with_zero(p.z, m[2][col]);
    }
    // Of each sum one side is a zero.
    if k == 0 {
        lemma_sum_with_zero(a, b);
    } else {
        lemma_sum_with_zero(b, a);
    }
    let ab = sum(a, b);
    if k == 2 {
        lemma_sum_with_zero(c, ab);
    } else {
        lemma_sum_with_zero(ab, c);
    }
    let abc = sum(ab, c);
    if k == 3 {
        lemma_sum_with_zero(d, abc);
    } else {
        lemma_sum_with_zero(abc, d);
    }
}

/// The identity changes no point: a matrix with ones on its diagonal and
/// zeros elsewhere maps every point with finite coordinates to the same
/// point. A zero may change its sign on the way.
pub proof fn lemma_identity_transform(m: Matrix, p: Point3d)
    requires
        is_identity(m),
        p.x.is_finite(),
        p.y.is_finite(),
        p.z.is_finite(),
    ensures
        same_point(transformed(m, p), p),
{
    reveal(transformed);
    assert forall|k: int| 0 <= k < 4 implies is_unit_column(m, k, k) by {
        assert forall|i: int| 0 <= i < 4 implies if i == k {
            #[trigger] m[i][k] == one()
        } else {
            m[i][k].is_zero()
        } by {}
    }
    lemma_unit_column(m, p, 0, 0);
    lemma_unit_column(m, p, 1, 1);
    lemma_unit_column(m, p, 2, 2);
    lemma_unit_column(m, p, 3, 3);
    lemma_quotient_by_one(combination(m, p, 0));
    lemma_quotient_by_one(combination(m, p, 1));
    lemma_quotient_by_one(combination(m, p, 2));
}

/// A rotation about the Z axis by an angle with cosine one and sine zero
/// is the identity.
pub proof fn lemma_rotation_z_by_nothing(m: Matrix, sin: Binary64)
    requires
        sin.is_zero(),
        forall|i: int, j: int|
            0 <= i < 4 && 0 <= j < 4 ==> #[trigger] m[i][j] == rotation_z_entry(one(), sin, i, j),
    ensures
        is_identity(m),
{
}

/// A rotation about the X axis by an angle with cosine one and sine zero
/// is the identity.
pub proof fn lemma_rotation_x_by_nothing(m: Matrix, sin: Binary64)
    requires
        sin.is_zero(),
        forall|i: int, j: int|
            0 <= i < 4 && 0 <= j < 4 ==> #[trigger] m[i][j] == rotation_x_entry(one(), sin, i, j),
    ensures
        is_identity(m),
{
    lemma_product_with_zero(Binary64 { bits: MINUS_ONE_BITS }, sin);
}

} // verus!
