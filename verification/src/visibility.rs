//! That the cube stays on the surface: whatever the angles of a frame, the
//! projected corners of the mesh lie between -1 and 1.
//!
//! The cosines and sines of a frame, and the tangent in the projection, are
//! given to the library. What is proved here holds of all that lie near the
//! unit circle, and of every tangent of at least 1.6: at a depth of 3 the
//! cube, which no rotation moves farther than the square root of 3 from
//! its first corner, stays in front of the eye and within the view.

use vstd::prelude::*;
use vstd::arithmetic::power2::*;
use crate::arithmetic::{absolute, negation, of_integer, one, product, quotient, sum};
use crate::arithmetic_laws::{lemma_product_with_minus_one, lemma_quotient_by_one};
use crate::binary64::Binary64;
use crate::error_bounds::{
    lemma_product_near, lemma_quotient_bounded, lemma_quotient_in_unit_range, lemma_sum_near,
    lemma_value_of_bits, lemma_value_of_integer,
    lemma_value_of_negation, lemma_value_of_one, lemma_value_of_same_number, lemma_within_more,
    unit, value, within,
};
use crate::mesh::{cube_triangles, lemma_mesh_size, Corner};
use crate::scene::{is_outline_of, projected_corner};
use crate::screen::{window, MapError, Segment, Surface};
use crate::transform::{
    combination, corner_point, field_of_view_scale, is_unit_column, lemma_unit_column, projected,
    projection_entry, pushed_back, rotation_x_entry, rotation_z_entry, transformed, Matrix,
    Point3d, DEPTH_OFFSET_BITS,
};

verus! {

/// Coordinate `column` of the image of `p` as the exact arithmetic gives
/// it, in squared units of 2^-1074.
pub open spec fn exact_combination(m: Matrix, p: Point3d, column: int) -> int {
    value(p.x) * value(m[0][column]) + value(p.y) * value(m[1][column]) + value(p.z) * value(
        m[2][column],
    ) + value(m[3][column]) * unit()
}

/// A combination of coordinates of at most 5 with entries of at most 4
/// lies within 2^-41 of the exact combination.
pub proof fn lemma_combination_near(m: Matrix, p: Point3d, column: int)
    requires
        0 <= column < 4,
        within(p.x, 5),
        within(p.y, 5),
        within(p.z, 5),
        forall|i: int| 0 <= i < 4 ==> within(#[trigger] m[i][column], 4),
    ensures
        within(combination(m, p, column), 175),
        pow2(41) * absolute(value(combination(m, p, column)) * unit() - exact_combination(
            m,
            p,
            column,
        )) <= unit() * unit(),
{
    lemma2_to64();
    lemma2_to64_rest();
    lemma_pow2_pos(1074);
    let o = unit();
    let (m0, m1, m2, m3) = (m[0][column], m[1][column], m[2][column], m[3][column]);
    assert(within(m0, 4) && within(m1, 4) && within(m2, 4) && within(m3, 4));
    let t0 = product(p.x, m0);
    let t1 = product(p.y, m1);
    let t2 = product(p.z, m2);
    lemma_product_near(p.x, m0, 5, 4);
    lemma_product_near(p.y, m1, 5, 4);
    lemma_product_near(p.z, m2, 5, 4);
    let s1 = sum(t0, t1);
    lemma_sum_near(t0, t1, 21);
    let s2 = sum(s1, t2);
    lemma_within_more(t2, 21, 43);
    lemma_sum_near(s1, t2, 43);
    let s3 = sum(s2, m3);
    lemma_within_more(m3, 4, 87);
    lemma_sum_near(s2, m3, 87);
    assert(s3 == combination(m, p, column));
    // The values, and the products among them, by name.
    let (vx, vy, vz) = (value(p.x), value(p.y), value(p.z));
    let (c0, c1, c2, c3) = (value(m0), value(m1), value(m2), value(m3));
    let (u0, u1, u2) = (value(t0), value(t1), value(t2));
    let (w1, w2, w3) = (value(s1), value(s2), value(s3));
    let q = o * o;
    let e0 = u0 * o - vx * c0;
    let e1 = u1 * o - vy * c1;
    let e2 = u2 * o - vz * c2;
    let drift = w3 - u0 - u1 - u2 - c3;
    assert(0x1000_0000_0000 * absolute(drift) <= 3 * o);
    assert(0x1000_0000_0000 * absolute(drift * o) <= 3 * q) by (nonlinear_arith)
        requires
            0x1000_0000_0000 * absolute(drift) <= 3 * o,
            q == o * o,
            o > 0,
            absolute(drift) == if drift < 0 {
                -drift
            } else {
                drift
            },
            absolute(drift * o) == if drift * o < 0 {
                -(drift * o)
            } else {
                drift * o
            },
    ;
    assert(drift * o == w3 * o - u0 * o - u1 * o - u2 * o - c3 * o) by (nonlinear_arith)
        requires
            drift == w3 - u0 - u1 - u2 - c3,
    ;
    let total = w3 * o - exact_combination(m, p, column);
    assert(total == drift * o + e0 + e1 + e2);
    assert(0x200_0000_0000 * absolute(total) <= q);
}

/// Whether `c` and `s` can be the cosine and the sine of an angle: their
/// squares sum to at most one and one part in 2^30.
pub open spec fn near_unit_circle(c: Binary64, s: Binary64) -> bool {
    &&& c.is_finite()
    &&& s.is_finite()
    &&& 0x4000_0000 * (value(c) * value(c) + value(s) * value(s)) <= 0x4000_0001 * (unit()
        * unit())
}

/// Whether `m` is the rotation about the Z axis with the given cosine and
/// sine.
pub open spec fn is_rotation_z(m: Matrix, c: Binary64, s: Binary64) -> bool {
    forall|i: int, j: int|
        0 <= i < 4 && 0 <= j < 4 ==> #[trigger] m[i][j] == rotation_z_entry(c, s, i, j)
}

/// Whether `m` is the rotation about the X axis with the given cosine and
/// sine.
pub open spec fn is_rotation_x(m: Matrix, c: Binary64, s: Binary64) -> bool {
    forall|i: int, j: int|
        0 <= i < 4 && 0 <= j < 4 ==> #[trigger] m[i][j] == rotation_x_entry(c, s, i, j)
}

/// A cosine and a sine are at most 2 in magnitude.
proof fn lemma_circle_within(c: Binary64, s: Binary64)
    requires
        near_unit_circle(c, s),
    ensures
        within(c, 2),
        within(s, 2),
{
    lemma_pow2_pos(1074);
    let (a, b, o) = (value(c), value(s), unit());
    assert(absolute(a) <= 2 * o && absolute(b) <= 2 * o) by (nonlinear_arith)
        requires
            0x4000_0000 * (a * a + b * b) <= 0x4000_0001 * (o * o),
            o > 0,
            absolute(a) == if a < 0 {
                -a
            } else {
                a
            },
            absolute(b) == if b < 0 {
                -b
            } else {
                b
            },
    ;
}

/// A coordinate of a corner of the cube is zero or the unit.
proof fn lemma_corner_coordinate(n: int)
    requires
        0 <= n <= 1,
    ensures
        within(of_integer(n), 1),
        within(of_integer(n), 5),
        value(of_integer(n)) == n * unit(),
{
    lemma_value_of_integer(n);
    lemma_pow2_pos(1074);
    assert(absolute(n * unit()) <= 1 * unit() && 1 * unit() <= 5 * unit()) by (nonlinear_arith)
        requires
            0 <= n <= 1,
            unit() > 0,
            absolute(n * unit()) == if n * unit() < 0 {
                -(n * unit())
            } else {
                n * unit()
            },
    ;
}

/// A corner of the cube after the rotation about the Z axis: its `x` and
/// `y` are at most the square root of 2 and a little, its `z` is that of
/// the corner.
pub proof fn lemma_turned_corner(corner: Corner, c: Binary64, s: Binary64, z_rot: Matrix)
    requires
        corner.on_cube(),
        near_unit_circle(c, s),
        is_rotation_z(z_rot, c, s),
    ensures
        ({
            let p = transformed(z_rot, corner_point(corner));
            &&& within(p.x, 2)
            &&& within(p.y, 2)
            &&& within(p.z, 1)
            &&& 1000 * (value(p.y) * value(p.y)) <= 2001 * (unit() * unit())
            &&& value(p.z) == corner.z * unit()
        }),
{
    reveal(transformed);
    lemma2_to64();
    lemma2_to64_rest();
    lemma_pow2_pos(1074);
    let o = unit();
    let q = o * o;
    let p0 = corner_point(corner);
    lemma_corner_coordinate(corner.x as int);
    lemma_corner_coordinate(corner.y as int);
    lemma_corner_coordinate(corner.z as int);
    lemma_value_of_one();
    lemma_value_of_negation(s);
    lemma_circle_within(c, s);
    let nothing = z_rot[2][0];
    lemma_value_of_same_number(nothing, nothing);
    assert(within(p0.x, 5) && within(p0.y, 5) && within(p0.z, 5) && within(p0.z, 1));
    assert forall|col: int, i: int| 0 <= col < 4 && 0 <= i < 4 implies within(
        #[trigger] z_rot[i][col],
        4,
    ) by {
        assert(z_rot[i][col] == rotation_z_entry(c, s, i, col));
    }
    assert(is_unit_column(z_rot, 3, 3)) by {
        assert forall|i: int| 0 <= i < 4 implies if i == 3 {
            #[trigger] z_rot[i][3] == one()
        } else {
            z_rot[i][3].is_zero()
        } by {
            assert(z_rot[i][3] == rotation_z_entry(c, s, i, 3));
        }
    }
    assert(is_unit_column(z_rot, 2, 2)) by {
        assert forall|i: int| 0 <= i < 4 implies if i == 2 {
            #[trigger] z_rot[i][2] == one()
        } else {
            z_rot[i][2].is_zero()
        } by {
            assert(z_rot[i][2] == rotation_z_entry(c, s, i, 2));
        }
    }
    lemma_unit_column(z_rot, p0, 3, 3);
    lemma_unit_column(z_rot, p0, 2, 2);
    let x = combination(z_rot, p0, 0);
    let y = combination(z_rot, p0, 1);
    let z = combination(z_rot, p0, 2);
    lemma_combination_near(z_rot, p0, 0);
    lemma_combination_near(z_rot, p0, 1);
    lemma_quotient_by_one(x);
    lemma_quotient_by_one(y);
    lemma_quotient_by_one(z);
    lemma_value_of_same_number(z, p0.z);
    let p = transformed(z_rot, p0);
    assert(p.x == x && p.y == y && p.z == z);
    // The exact combinations.
    let (a, b) = (value(c), value(s));
    let (i, j) = (corner.x as int, corner.y as int);
    assert(z_rot[0][0] == c && z_rot[1][0] == negation(s) && z_rot[2][0].is_zero()
        && z_rot[3][0].is_zero());
    assert(z_rot[0][1] == s && z_rot[1][1] == c && z_rot[2][1].is_zero()
        && z_rot[3][1].is_zero());
    lemma_value_of_same_number(z_rot[2][0], z_rot[2][0]);
    lemma_value_of_same_number(z_rot[3][0], z_rot[3][0]);
    lemma_value_of_same_number(z_rot[2][1], z_rot[2][1]);
    lemma_value_of_same_number(z_rot[3][1], z_rot[3][1]);
    let ex = (i * a - j * b) * o;
    let ey = (i * b + j * a) * o;
    assert((i * o) * a == (i * a) * o && (j * o) * (-b) == -((j * b) * o) && (i * o) * b == (i
        * b) * o && (j * o) * a == (j * a) * o) by (nonlinear_arith);
    assert(ex == (i * a) * o - (j * b) * o && ey == (i * b) * o + (j * a) * o)
        by (nonlinear_arith)
        requires
            ex == (i * a - j * b) * o,
            ey == (i * b + j * a) * o,
    ;
    assert(value(p0.z) * 0 == 0 && 0 * o == 0) by (nonlinear_arith);
    assert(exact_combination(z_rot, p0, 0) == ex);
    assert(exact_combination(z_rot, p0, 1) == ey);
    lemma_near_root_two(value(x), i * a - j * b, i * b + j * a, o);
    lemma_near_root_two(value(y), i * b + j * a, i * a - j * b, o);
    assert((i * a - j * b) * (i * a - j * b) + (i * b + j * a) * (i * b + j * a) <= 2 * (a * a + b
        * b)) by (nonlinear_arith)
        requires
            0 <= i <= 1,
            0 <= j <= 1,
    ;
}

/// A value within 2^-41 of one of two numbers whose squares sum to at most
/// 2 and a little has a square of at most 2.001.
proof fn lemma_near_root_two(got: int, exact: int, other: int, o: int)
    requires
        o > 0,
        0x200_0000_0000 * absolute(got * o - exact * o) <= o * o,
    ensures
        0x4000_0000 * (exact * exact + other * other) <= 2 * (0x4000_0001 * (o * o)) ==> 1000 * (
        got * got) <= 2001 * (o * o) && absolute(got) <= 2 * o,
{
    if 0x4000_0000 * (exact * exact + other * other) <= 2 * (0x4000_0001 * (o * o)) {
        let off = got - exact;
        assert(0x200_0000_0000 * absolute(off) <= o) by (nonlinear_arith)
            requires
                0x200_0000_0000 * absolute(got * o - exact * o) <= o * o,
                off == got - exact,
                o > 0,
                absolute(off) == if off < 0 {
                    -off
                } else {
                    off
                },
                absolute(got * o - exact * o) == if got * o - exact * o < 0 {
                    -(got * o - exact * o)
                } else {
                    got * o - exact * o
                },
        ;
        assert(absolute(exact) * 1000000 <= 1414214 * o) by (nonlinear_arith)
            requires
                0x4000_0000 * (exact * exact + other * other) <= 2 * (0x4000_0001 * (o * o)),
                o > 0,
                absolute(exact) == if exact < 0 {
                    -exact
                } else {
                    exact
                },
        ;
        assert(absolute(got) * 1000000 <= 1414215 * o);
        assert(1000 * (got * got) <= 2001 * (o * o)) by (nonlinear_arith)
            requires
                -1414215 * o <= got * 1000000 <= 1414215 * o,
                o > 0,
        ;
    }
}

/// A pair of numbers whose squares sum to at most 3.001, turned by an angle:
/// each of the two results is at most 1.733.
proof fn lemma_rotated_pair(u: int, v: int, a: int, b: int, o: int)
    requires
        o > 0,
        1000 * (u * u + v * v) <= 3001 * (o * o),
        0x4000_0000 * (a * a + b * b) <= 0x4000_0001 * (o * o),
    ensures
        1000 * absolute(u * a - v * b) <= 1733 * (o * o),
        1000 * absolute(u * b + v * a) <= 1733 * (o * o),
{
    let q = o * o;
    let g = u * u + v * v;
    let h = a * a + b * b;
    let first = u * a - v * b;
    let second = u * b + v * a;
    let (ua, vb, ub, va) = (u * a, v * b, u * b, v * a);
    assert(ua * ua == (u * u) * (a * a) && vb * vb == (v * v) * (b * b) && ub * ub == (u * u) * (b
        * b) && va * va == (v * v) * (a * a) && ua * vb == ub * va) by (nonlinear_arith)
        requires
            ua == u * a,
            vb == v * b,
            ub == u * b,
            va == v * a,
    ;
    assert(first * first == ua * ua - 2 * (ua * vb) + vb * vb && second * second == ub * ub + 2
        * (ub * va) + va * va) by (nonlinear_arith)
        requires
            first == ua - vb,
            second == ub + va,
    ;
    assert(g * h == (u * u) * (a * a) + (u * u) * (b * b) + (v * v) * (a * a) + (v * v) * (b * b))
        by (nonlinear_arith)
        requires
            g == u * u + v * v,
            h == a * a + b * b,
    ;
    assert(first * first + second * second == g * h);
    assert(g >= 0 && h >= 0 && first * first >= 0 && second * second >= 0 && q > 0)
        by (nonlinear_arith)
        requires
            g == u * u + v * v,
            h == a * a + b * b,
            q == o * o,
            o > 0,
    ;
    assert((1000 * 0x4000_0000) * (g * h) <= (3001 * 0x4000_0001) * (q * q)) by (nonlinear_arith)
        requires
            0 <= 1000 * g <= 3001 * q,
            0 <= 0x4000_0000 * h <= 0x4000_0001 * q,
    ;
    let (ff, ss, gh, qq) = (first * first, second * second, g * h, q * q);
    assert(ff + ss == gh);
    assert(ff >= 0 && ss >= 0) by (nonlinear_arith)
        requires
            ff == first * first,
            ss == second * second,
    ;
    assert(1073741824000 * gh <= 3222299216825 * qq);
    lemma_parts_below(ff, ss, gh, qq);
    lemma_root_of_square(first, q, ff, qq);
    lemma_root_of_square(second, q, ss, qq);
    assert(1000 * absolute(first) <= 1733 * q);
    assert(1000 * absolute(second) <= 1733 * q);
}

/// Each of two squares is at most their sum.
proof fn lemma_parts_below(first: int, second: int, both: int, bound: int)
    requires
        first >= 0,
        second >= 0,
        first + second == both,
        1073741824000 * both <= 3222299216825 * bound,
    ensures
        1073741824000 * first <= 3222299216825 * bound,
        1073741824000 * second <= 3222299216825 * bound,
{
}

/// A number whose square is at most 3.002 is at most 1.733.
proof fn lemma_root_of_square(x: int, q: int, square: int, unit_square: int)
    requires
        q > 0,
        square == x * x,
        unit_square == q * q,
    ensures
        (1000 * 0x4000_0000) * square <= (3001 * 0x4000_0001) * unit_square ==> 1000 * absolute(x)
            <= 1733 * q,
{
    let big = absolute(x) as int;
    if 1000 * big > 1733 * q {
        let high = 1000 * big;
        let low = 1733 * q + 1;
        assert(high * high >= low * low) by (nonlinear_arith)
            requires
                high >= low,
                low > 0,
        ;
        assert(high * high == 1000000 * square) by (nonlinear_arith)
            requires
                high == 1000 * big,
                square == x * x,
                big == x || big == -x,
        ;
        assert(low * low > 3003289 * unit_square && unit_square > 0) by (nonlinear_arith)
            requires
                low == 1733 * q + 1,
                unit_square == q * q,
                q > 0,
        ;
        assert(1000000 * square > 3003289 * unit_square);
        assert(1073741824000 * square > 3222299216825 * unit_square);
    }
}

/// A value within 2^-41 of an exact one of at most `k` thousandths is at
/// most `k + 1` thousandths.
proof fn lemma_value_near(got: int, exact: int, o: int, k: int)
    requires
        o > 0,
        0 <= k <= 100000,
        0x200_0000_0000 * absolute(got * o - exact) <= o * o,
        1000 * absolute(exact) <= k * (o * o),
    ensures
        1000 * absolute(got) <= (k + 1) * o,
{
    let q = o * o;
    let scaled = got * o;
    assert(q > 0) by (nonlinear_arith)
        requires
            q == o * o,
            o > 0,
    ;
    let room = k * q;
    assert((k + 1) * q == room + q) by (nonlinear_arith)
        requires
            room == k * q,
    ;
    assert(1000 * absolute(scaled) <= (k + 1) * q);
    assert(1000 * absolute(got) <= (k + 1) * o) by (nonlinear_arith)
        requires
            1000 * absolute(scaled) <= (k + 1) * q,
            scaled == got * o,
            q == o * o,
            o > 0,
            absolute(got) == if got < 0 {
                -got
            } else {
                got
            },
            absolute(scaled) == if scaled < 0 {
                -scaled
            } else {
                scaled
            },
    ;
}

/// A turned corner after the rotation about the X axis: its `x` is at most
/// 2, its `y` and its `z` are at most 1.734.
pub proof fn lemma_tilted_corner(p: Point3d, c: Binary64, s: Binary64, x_rot: Matrix)
    requires
        near_unit_circle(c, s),
        is_rotation_x(x_rot, c, s),
        within(p.x, 2),
        within(p.y, 2),
        within(p.z, 1),
        1000 * (value(p.y) * value(p.y)) <= 2001 * (unit() * unit()),
    ensures
        ({
            let r = transformed(x_rot, p);
            &&& within(r.x, 2)
            &&& within(r.y, 2)
            &&& within(r.z, 2)
            &&& 1000 * absolute(value(r.y)) <= 1734 * unit()
            &&& 1000 * absolute(value(r.z)) <= 1734 * unit()
        }),
{
    reveal(transformed);
    lemma2_to64();
    lemma2_to64_rest();
    lemma_pow2_pos(1074);
    let o = unit();
    lemma_value_of_one();
    lemma_circle_within(c, s);
    lemma_product_with_minus_one(s);
    lemma_value_of_negation(s);
    lemma_within_more(p.x, 2, 5);
    lemma_within_more(p.y, 2, 5);
    lemma_within_more(p.z, 1, 5);
    assert(x_rot[0][1].is_zero() && x_rot[1][1] == c && x_rot[2][1] == negation(s)
        && x_rot[3][1].is_zero()) by {
        assert(x_rot[0][1] == rotation_x_entry(c, s, 0, 1));
        assert(x_rot[1][1] == rotation_x_entry(c, s, 1, 1));
        assert(x_rot[2][1] == rotation_x_entry(c, s, 2, 1));
        assert(x_rot[3][1] == rotation_x_entry(c, s, 3, 1));
    }
    assert(x_rot[0][2].is_zero() && x_rot[1][2] == s && x_rot[2][2] == c
        && x_rot[3][2].is_zero()) by {
        assert(x_rot[0][2] == rotation_x_entry(c, s, 0, 2));
        assert(x_rot[1][2] == rotation_x_entry(c, s, 1, 2));
        assert(x_rot[2][2] == rotation_x_entry(c, s, 2, 2));
        assert(x_rot[3][2] == rotation_x_entry(c, s, 3, 2));
    }
    lemma_value_of_same_number(x_rot[0][1], x_rot[0][1]);
    lemma_value_of_same_number(x_rot[3][1], x_rot[3][1]);
    lemma_value_of_same_number(x_rot[0][2], x_rot[0][2]);
    lemma_value_of_same_number(x_rot[3][2], x_rot[3][2]);
    assert forall|i: int| 0 <= i < 4 implies within(#[trigger] x_rot[i][1], 4) by {}
    assert forall|i: int| 0 <= i < 4 implies within(#[trigger] x_rot[i][2], 4) by {}
    assert(is_unit_column(x_rot, 3, 3)) by {
        assert forall|i: int| 0 <= i < 4 implies if i == 3 {
            #[trigger] x_rot[i][3] == one()
        } else {
            x_rot[i][3].is_zero()
        } by {
            assert(x_rot[i][3] == rotation_x_entry(c, s, i, 3));
        }
    }
    assert(is_unit_column(x_rot, 0, 0)) by {
        assert forall|i: int| 0 <= i < 4 implies if i == 0 {
            #[trigger] x_rot[i][0] == one()
        } else {
            x_rot[i][0].is_zero()
        } by {
            assert(x_rot[i][0] == rotation_x_entry(c, s, i, 0));
        }
    }
    lemma_unit_column(x_rot, p, 3, 3);
    lemma_unit_column(x_rot, p, 0, 0);
    let x = combination(x_rot, p, 0);
    let y = combination(x_rot, p, 1);
    let z = combination(x_rot, p, 2);
    lemma_combination_near(x_rot, p, 1);
    lemma_combination_near(x_rot, p, 2);
    lemma_quotient_by_one(x);
    lemma_quotient_by_one(y);
    lemma_quotient_by_one(z);
    lemma_value_of_same_number(x, p.x);
    let r = transformed(x_rot, p);
    assert(r.x == x && r.y == y && r.z == z);
    let (u, v) = (value(p.y), value(p.z));
    let (a, b) = (value(c), value(s));
    assert(value(p.x) * 0 == 0 && 0 * o == 0 && v * (-b) == -(v * b)) by (nonlinear_arith);
    assert(exact_combination(x_rot, p, 1) == u * a - v * b);
    assert(exact_combination(x_rot, p, 2) == u * b + v * a);
    assert(1000 * (u * u + v * v) <= 3001 * (o * o)) by (nonlinear_arith)
        requires
            1000 * (u * u) <= 2001 * (o * o),
            -o <= v <= o,
            o > 0,
    ;
    lemma_rotated_pair(u, v, a, b, o);
    lemma_value_near(value(y), u * a - v * b, o, 1733);
    lemma_value_near(value(z), u * b + v * a, o, 1733);
}

/// What the projection must be for the cube to stay on the surface: its
/// first column scales `x` by at most a half, its second scales `y` by at
/// most five eighths, and its last copies the depth.
pub open spec fn is_narrow_projection(m: Matrix) -> bool {
    &&& m[0][0].is_finite() && 2 * absolute(value(m[0][0])) <= unit()
    &&& m[1][0].is_zero() && m[2][0].is_zero() && m[3][0].is_zero()
    &&& m[1][1].is_finite() && 8 * absolute(value(m[1][1])) <= 5 * unit()
    &&& m[0][1].is_zero() && m[2][1].is_zero() && m[3][1].is_zero()
    &&& is_unit_column(m, 3, 2)
}

/// A point no wider than 2 and no higher than 1.734, at a depth of at least
/// 1.265, is projected to between -1 and 1.
pub proof fn lemma_projected_in_range(p: Point3d, projection: Matrix)
    requires
        is_narrow_projection(projection),
        within(p.x, 2),
        within(p.y, 2),
        within(p.z, 5),
        1000 * absolute(value(p.y)) <= 1734 * unit(),
        1000 * value(p.z) >= 1265 * unit(),
    ensures
        transformed(projection, p).x.in_unit_range(),
        transformed(projection, p).y.in_unit_range(),
{
    reveal(transformed);
    lemma2_to64();
    lemma2_to64_rest();
    lemma_pow2_pos(1074);
    let o = unit();
    let m = projection;
    lemma_within_more(p.x, 2, 5);
    lemma_within_more(p.y, 2, 5);
    lemma_value_of_same_number(m[1][0], m[1][0]);
    lemma_value_of_same_number(m[2][0], m[2][0]);
    lemma_value_of_same_number(m[3][0], m[3][0]);
    lemma_value_of_same_number(m[0][1], m[0][1]);
    lemma_value_of_same_number(m[2][1], m[2][1]);
    lemma_value_of_same_number(m[3][1], m[3][1]);
    assert forall|i: int| 0 <= i < 4 implies within(#[trigger] m[i][0], 4) by {}
    assert forall|i: int| 0 <= i < 4 implies within(#[trigger] m[i][1], 4) by {}
    lemma_unit_column(m, p, 3, 2);
    let x = combination(m, p, 0);
    let y = combination(m, p, 1);
    let w = combination(m, p, 3);
    lemma_combination_near(m, p, 0);
    lemma_combination_near(m, p, 1);
    lemma_value_of_same_number(w, p.z);
    lemma_value_of_same_number(w, w);
    assert(!w.is_zero());
    let (a, f) = (value(m[0][0]), value(m[1][1]));
    let (u, v) = (value(p.x), value(p.y));
    assert(u * 0 == 0 && v * 0 == 0 && value(p.z) * 0 == 0 && 0 * o == 0) by (nonlinear_arith);
    assert(exact_combination(m, p, 0) == u * a);
    assert(exact_combination(m, p, 1) == v * f);
    assert(1000 * absolute(u * a) <= 1000 * (o * o)) by (nonlinear_arith)
        requires
            absolute(u) <= 2 * o,
            2 * absolute(a) <= o,
            o > 0,
            absolute(u * a) == if u * a < 0 {
                -(u * a)
            } else {
                u * a
            },
            absolute(u) == if u < 0 {
                -u
            } else {
                u
            },
            absolute(a) == if a < 0 {
                -a
            } else {
                a
            },
    ;
    assert(1000 * absolute(v * f) <= 1084 * (o * o)) by (nonlinear_arith)
        requires
            1000 * absolute(v) <= 1734 * o,
            8 * absolute(f) <= 5 * o,
            o > 0,
            absolute(v * f) == if v * f < 0 {
                -(v * f)
            } else {
                v * f
            },
            absolute(v) == if v < 0 {
                -v
            } else {
                v
            },
            absolute(f) == if f < 0 {
                -f
            } else {
                f
            },
    ;
    lemma_value_near(value(x), u * a, o, 1000);
    lemma_value_near(value(y), v * f, o, 1084);
    lemma_quotient_in_unit_range(x, w);
    lemma_quotient_in_unit_range(y, w);
}

/// The cube stays on the surface: where the cosines and sines of a frame
/// lie near the unit circle and the projection is narrow, every corner of
/// the cube is projected to between -1 and 1.
pub proof fn lemma_corner_on_surface(
    corner: Corner,
    turn: (Binary64, Binary64),
    tilt: (Binary64, Binary64),
    z_rot: Matrix,
    x_rot: Matrix,
    projection: Matrix,
)
    requires
        corner.on_cube(),
        near_unit_circle(turn.0, turn.1),
        near_unit_circle(tilt.0, tilt.1),
        is_rotation_z(z_rot, turn.0, turn.1),
        is_rotation_x(x_rot, tilt.0, tilt.1),
        is_narrow_projection(projection),
    ensures
        projected(corner_point(corner), z_rot, x_rot, projection).x.in_unit_range(),
        projected(corner_point(corner), z_rot, x_rot, projection).y.in_unit_range(),
{
    lemma2_to64();
    lemma2_to64_rest();
    lemma_pow2_pos(1074);
    let o = unit();
    let turned = transformed(z_rot, corner_point(corner));
    lemma_turned_corner(corner, turn.0, turn.1, z_rot);
    let tilted = transformed(x_rot, turned);
    lemma_tilted_corner(turned, tilt.0, tilt.1, x_rot);
    let moved = pushed_back(tilted);
    let three = Binary64 { bits: DEPTH_OFFSET_BITS };
    lemma_value_of_three();
    lemma_within_more(tilted.z, 2, 3);
    lemma_sum_near(tilted.z, three, 3);
    assert(1000 * value(moved.z) >= 1265 * o && absolute(value(moved.z)) <= 5 * o);
    lemma_projected_in_range(moved, projection);
}

/// The depth offset has the value 3.
proof fn lemma_value_of_three()
    ensures
        within(Binary64 { bits: DEPTH_OFFSET_BITS }, 3),
        value(Binary64 { bits: DEPTH_OFFSET_BITS }) == 3 * unit(),
{
    lemma2_to64_rest();
    lemma_value_of_bits(DEPTH_OFFSET_BITS, 3, 51);
}

/// The bit pattern of five eighths.
const FIVE_EIGHTHS_BITS: u64 = 0x3fe4_0000_0000_0000;

/// Whether `m` is the projection for the surface, the planes and the
/// tangent of half the field of view.
pub open spec fn is_projection(
    m: Matrix,
    surface: Surface,
    near: Binary64,
    far: Binary64,
    tan_half_angle: Binary64,
) -> bool {
    forall|i: int, j: int|
        0 <= i < 4 && 0 <= j < 4 ==> #[trigger] m[i][j] == projection_entry(
            surface,
            near,
            far,
            tan_half_angle,
            i,
            j,
        )
}

/// Five eighths has the value of five eighths of the unit.
proof fn lemma_value_of_five_eighths()
    ensures
        (Binary64 { bits: FIVE_EIGHTHS_BITS }).is_finite(),
        8 * value(Binary64 { bits: FIVE_EIGHTHS_BITS }) == 5 * unit(),
{
    reveal(value);
    lemma2_to64();
    lemma2_to64_rest();
    let x = Binary64 { bits: FIVE_EIGHTHS_BITS };
    assert(x.significand() == 5 * pow2(50) && x.exponent() == -53);
    lemma_pow2_adds(50, 1021);
    lemma_pow2_adds(3, 1071);
    assert(8 * x.magnitude() == 5 * pow2(1074)) by (nonlinear_arith)
        requires
            x.magnitude() == (5 * pow2(50)) * pow2(1021),
            pow2(1071) == pow2(50) * pow2(1021),
            pow2(1074) == 8 * pow2(1071),
    ;
}

/// The projection of the window is narrow where the tangent of half the
/// field of view is at least 1.6 in magnitude.
pub proof fn lemma_window_projection_is_narrow(
    m: Matrix,
    near: Binary64,
    far: Binary64,
    tan_half_angle: Binary64,
)
    requires
        is_projection(m, window(), near, far, tan_half_angle),
        tan_half_angle.is_finite(),
        5 * absolute(value(tan_half_angle)) >= 8 * unit(),
    ensures
        is_narrow_projection(m),
{
    lemma2_to64();
    lemma2_to64_rest();
    lemma_pow2_pos(1074);
    let o = unit();
    let five = Binary64 { bits: FIVE_EIGHTHS_BITS };
    let scale = field_of_view_scale(tan_half_angle);
    let height = of_integer(500);
    let width = of_integer(800);
    let aspect = quotient(height, width);
    lemma_value_of_five_eighths();
    lemma_value_of_one();
    lemma_value_of_integer(500);
    lemma_value_of_integer(800);
    lemma_value_of_same_number(tan_half_angle, tan_half_angle);
    lemma_value_of_same_number(width, width);
    let (t, b) = (absolute(value(tan_half_angle)) as int, value(five));
    assert(o * o <= b * t) by (nonlinear_arith)
        requires
            8 * b == 5 * o,
            5 * t >= 8 * o,
            o > 0,
    ;
    lemma_quotient_bounded(one(), tan_half_angle, five);
    assert((500 * o) * o <= b * (800 * o)) by (nonlinear_arith)
        requires
            8 * b == 5 * o,
            o > 0,
    ;
    lemma_quotient_bounded(height, width, five);
    lemma_product_near(aspect, scale, 1, 1);
    let (u, v, a) = (value(aspect), value(scale), value(product(aspect, scale)));
    assert(64 * absolute(u * v) <= 25 * (o * o)) by (nonlinear_arith)
        requires
            8 * absolute(u) <= 5 * o,
            8 * absolute(v) <= 5 * o,
            o > 0,
            absolute(u * v) == if u * v < 0 {
                -(u * v)
            } else {
                u * v
            },
            absolute(u) == if u < 0 {
                -u
            } else {
                u
            },
            absolute(v) == if v < 0 {
                -v
            } else {
                v
            },
    ;
    lemma_value_near(a, u * v, o, 391);
    assert(m[0][0] == product(aspect, scale) && m[1][1] == scale) by {
        assert(m[0][0] == projection_entry(window(), near, far, tan_half_angle, 0, 0));
        assert(m[1][1] == projection_entry(window(), near, far, tan_half_angle, 1, 1));
    }
    assert(m[1][0].is_zero() && m[2][0].is_zero() && m[3][0].is_zero() && m[0][1].is_zero()
        && m[2][1].is_zero() && m[3][1].is_zero()) by {
        assert(m[1][0] == projection_entry(window(), near, far, tan_half_angle, 1, 0));
        assert(m[2][0] == projection_entry(window(), near, far, tan_half_angle, 2, 0));
        assert(m[3][0] == projection_entry(window(), near, far, tan_half_angle, 3, 0));
        assert(m[0][1] == projection_entry(window(), near, far, tan_half_angle, 0, 1));
        assert(m[2][1] == projection_entry(window(), near, far, tan_half_angle, 2, 1));
        assert(m[3][1] == projection_entry(window(), near, far, tan_half_angle, 3, 1));
    }
    assert(is_unit_column(m, 3, 2)) by {
        assert forall|i: int| 0 <= i < 4 implies if i == 2 {
            #[trigger] m[i][3] == one()
        } else {
            m[i][3].is_zero()
        } by {
            assert(m[i][3] == projection_entry(window(), near, far, tan_half_angle, i, 3));
        }
    }
}

/// Every triangle of the mesh is drawn: where the cosines and sines of a
/// frame lie near the unit circle and the projection is narrow, the surface
/// shows every projected corner, and no outline is an error.
pub proof fn lemma_every_triangle_is_shown(
    surface: Surface,
    i: int,
    outline: Result<[Segment; 3], MapError>,
    turn: (Binary64, Binary64),
    tilt: (Binary64, Binary64),
    z_rot: Matrix,
    x_rot: Matrix,
    projection: Matrix,
)
    requires
        0 <= i < 12,
        near_unit_circle(turn.0, turn.1),
        near_unit_circle(tilt.0, tilt.1),
        is_rotation_z(z_rot, turn.0, turn.1),
        is_rotation_x(x_rot, tilt.0, tilt.1),
        is_narrow_projection(projection),
        is_outline_of(surface, i, outline, z_rot, x_rot, projection),
    ensures
        forall|k: int|
            0 <= k < 3 ==> surface.shows(
                #[trigger] projected_corner(i, k, z_rot, x_rot, projection),
            ),
        outline is Ok,
{
    lemma_mesh_size();
    assert forall|k: int| 0 <= k < 3 implies surface.shows(
        #[trigger] projected_corner(i, k, z_rot, x_rot, projection),
    ) by {
        let corner = cube_triangles()[i][k];
        assert(corner.on_cube());
        lemma_corner_on_surface(corner, turn, tilt, z_rot, x_rot, projection);
    }
}

} // verus!
