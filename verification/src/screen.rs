//! From normalized coordinates to pixels of the drawing surface.

use vstd::prelude::*;
use crate::arithmetic::{
    absolute, from_integer, integer_part, minus_one, negation, of_integer, one, product, times,
    to_integer, MINUS_ONE_BITS,
};
use crate::arithmetic_laws::{
    lemma_integer_is_exact, lemma_integer_part_of_zero, lemma_integer_part_within,
    lemma_negation_fields, lemma_product_shrinks, lemma_product_with_minus_one,
    lemma_product_with_one, lemma_product_with_zero,
};
use crate::binary64::{lemma_unit_range_bits, Binary64, ONE_BITS};
use crate::transform::Point3d;

verus! {

/// A pixel of the drawing surface, counted from its top left corner.
#[derive(Clone, Copy, Debug, PartialEq, Eq, Structural)]
pub struct ScreenPoint {
    pub x: i32,
    pub y: i32,
}

/// Why a pair of coordinates has no pixel.
#[derive(Clone, Copy, Debug, PartialEq, Eq, Structural)]
pub enum MapError {
    /// A coordinate lies outside the interval from -1 to 1, or is no number.
    OutOfRange,
}

/// A straight line between two pixels.
#[derive(Clone, Copy, Debug, PartialEq, Eq, Structural)]
pub struct Segment {
    pub start: ScreenPoint,
    pub end: ScreenPoint,
}

/// The width of the window in pixels.
pub const WINDOW_WIDTH: i32 = 800;

/// The height of the window in pixels.
pub const WINDOW_HEIGHT: i32 = 500;

/// The size of the drawing surface in pixels.
#[derive(Clone, Copy, Debug, PartialEq, Eq, Structural)]
pub struct Surface {
    pub width: i32,
    pub height: i32,
}

/// The drawing surface of the window.
pub open spec fn window() -> Surface {
    Surface { width: WINDOW_WIDTH, height: WINDOW_HEIGHT }
}

/// Half of `w`, rounded toward zero.
pub open spec fn half(w: int) -> int {
    if w >= 0 {
        w / 2
    } else {
        -((-w) / 2)
    }
}

impl Surface {
    /// The pixel column of the normalized coordinate `x`: the middle column,
    /// moved by the integer part of `x` times half the width. The product is
    /// that of two doubles, rounded before its integer part is taken.
    pub open spec fn pixel_x(self, x: Binary64) -> int {
        half(self.width as int) + integer_part(product(x, of_integer(half(self.width as int))))
    }

    /// The pixel row of the normalized coordinate `y`. Rows count downward,
    /// so `y` is multiplied by -1 first, then by half the height.
    pub open spec fn pixel_y(self, y: Binary64) -> int {
        half(self.height as int) + integer_part(
            product(product(minus_one(), y), of_integer(half(self.height as int))),
        )
    }

    /// Whether a point has a pixel: its `x` and its `y` lie between -1 and
    /// 1. Its depth plays no part.
    pub open spec fn shows(self, p: Point3d) -> bool {
        p.x.in_unit_range() && p.y.in_unit_range()
    }

    /// The pixel of a point that the surface shows: the column of its `x`
    /// and the row of its `y`.
    pub open spec fn pixel_of(self, p: Point3d) -> ScreenPoint {
        ScreenPoint { x: self.pixel_x(p.x) as i32, y: self.pixel_y(p.y) as i32 }
    }

    /// Maps normalized coordinates to a pixel. Both coordinates must lie
    /// between -1 and 1; any other pair, a NaN included, is out of range.
    pub fn to_pixel(&self, x: Binary64, y: Binary64) -> (r: Result<ScreenPoint, MapError>)
        ensures
            r is Ok <==> x.in_unit_range() && y.in_unit_range(),
            r matches Ok(p) ==> p.x == self.pixel_x(x) && p.y == self.pixel_y(y),
            r matches Err(e) ==> e == MapError::OutOfRange,
    {
        if !x.is_in_unit_range() || !y.is_in_unit_range() {
            return Err(MapError::OutOfRange);
        }
        let half_width: i32 = half_of(self.width);
        let half_height: i32 = half_of(self.height);
        let across: i32 = to_integer(times(x, from_integer(half_width)));
        let turned = times(Binary64 { bits: MINUS_ONE_BITS }, y);
        let down: i32 = to_integer(times(turned, from_integer(half_height)));
        proof {
            lemma_offsets_within(x, half_width as int);
            lemma_offsets_within(y, half_height as int);
        }
        Ok(ScreenPoint { x: half_width + across, y: half_height + down })
    }

    /// The three edges of a projected triangle as lines between pixels, in
    /// the order in which they are drawn: from the first corner to the
    /// second, from the second to the third, and back to the first. A
    /// triangle with a corner that the surface does not show has no outline.
    pub fn triangle_outline(&self, triangle: &[Point3d; 3]) -> (r: Result<[Segment; 3], MapError>)
        ensures
            r is Ok <==> forall|i: int| 0 <= i < 3 ==> self.shows(#[trigger] triangle@[i]),
            r matches Ok(edges) ==> forall|i: int|
                0 <= i < 3 ==> (#[trigger] edges@[i]).start == self.pixel_of(triangle@[i])
                    && edges@[i].end == self.pixel_of(triangle@[(i + 1) % 3]),
            r matches Err(e) ==> e == MapError::OutOfRange,
    {
        let first = match self.to_pixel(triangle[0].x, triangle[0].y) {
            Ok(pixel) => pixel,
            Err(e) => {
                return Err(e);
            },
        };
        let second = match self.to_pixel(triangle[1].x, triangle[1].y) {
            Ok(pixel) => pixel,
            Err(e) => {
                return Err(e);
            },
        };
        let third = match self.to_pixel(triangle[2].x, triangle[2].y) {
            Ok(pixel) => pixel,
            Err(e) => {
                return Err(e);
            },
        };
        Ok(
            [
                Segment { start: first, end: second },
                Segment { start: second, end: third },
                Segment { start: third, end: first },
            ],
        )
    }
}

/// Maps normalized coordinates to a pixel of the window.
pub fn convert_coord_to_pixels(x: Binary64, y: Binary64) -> (r: Result<ScreenPoint, MapError>)
    ensures
        r is Ok <==> x.in_unit_range() && y.in_unit_range(),
        r matches Ok(p) ==> p.x == window().pixel_x(x) && p.y == window().pixel_y(y),
        r matches Err(e) ==> e == MapError::OutOfRange,
{
    let surface = Surface { width: WINDOW_WIDTH, height: WINDOW_HEIGHT };
    surface.to_pixel(x, y)
}

fn half_of(w: i32) -> (h: i32)
    ensures
        h == half(w as int),
{
    w / 2
}

/// How far a coordinate between -1 and 1 moves a pixel from the middle: at
/// most half the size, and as far the other way when multiplied by -1.
pub proof fn lemma_offsets_within(x: Binary64, h: int)
    requires
        x.in_unit_range(),
        -0x4000_0000 <= h <= 0x4000_0000,
    ensures
        -absolute(h) <= integer_part(product(x, of_integer(h))) <= absolute(h),
        h == 0 ==> integer_part(product(x, of_integer(h))) == 0,
        integer_part(product(product(minus_one(), x), of_integer(h))) == -integer_part(
            product(x, of_integer(h)),
        ),
        integer_part(product(negation(x), of_integer(h))) == -integer_part(
            product(x, of_integer(h)),
        ),
{
    let y = of_integer(h);
    lemma_integer_is_exact(h);
    lemma_product_shrinks(x, y);
    lemma_product_with_minus_one(x);
    lemma_integer_part_within(product(x, y), absolute(h));
    lemma_integer_part_within(product(negation(x), y), absolute(h));
}

/// Every pair of coordinates in range has its pixel on the surface: between
/// column 0 and the last column, and between row 0 and the last row.
pub proof fn lemma_pixel_on_surface(surface: Surface, x: Binary64, y: Binary64)
    requires
        surface.width >= 0,
        surface.height >= 0,
        x.in_unit_range(),
        y.in_unit_range(),
    ensures
        0 <= surface.pixel_x(x) <= 2 * half(surface.width as int) <= surface.width,
        0 <= surface.pixel_y(y) <= 2 * half(surface.height as int) <= surface.height,
{
    lemma_offsets_within(x, half(surface.width as int));
    lemma_offsets_within(y, half(surface.height as int));
}

/// The ends and the middle of the range, on every surface: -1 maps to
/// column 0, zero to the middle column and 1 to twice the middle column,
/// which is the width where that is even; 1 maps to row 0, zero to the
/// middle row and -1 to twice the middle row.
pub proof fn lemma_ends_and_middle(surface: Surface, unit: Binary64, nothing: Binary64)
    requires
        unit.magnitude_bits() == ONE_BITS,
        nothing.is_zero(),
    ensures
        surface.pixel_x(nothing) == half(surface.width as int),
        surface.pixel_y(nothing) == half(surface.height as int),
        surface.pixel_x(unit) == if unit.is_negative() {
            0
        } else {
            2 * half(surface.width as int)
        },
        surface.pixel_y(unit) == if unit.is_negative() {
            2 * half(surface.height as int)
        } else {
            0
        },
        surface.width % 2 == 0 ==> 2 * half(surface.width as int) == surface.width,
        surface.height % 2 == 0 ==> 2 * half(surface.height as int) == surface.height,
{
    lemma_middle(nothing, half(surface.width as int));
    lemma_middle(nothing, half(surface.height as int));
    lemma_ends(unit, half(surface.width as int));
    lemma_ends(unit, half(surface.height as int));
}

/// A zero moves no pixel from the middle.
proof fn lemma_middle(nothing: Binary64, h: int)
    requires
        nothing.is_zero(),
        -0x4000_0000 <= h <= 0x4000_0000,
    ensures
        integer_part(product(nothing, of_integer(h))) == 0,
        integer_part(product(product(minus_one(), nothing), of_integer(h))) == 0,
{
    let y = of_integer(h);
    lemma_integer_is_exact(h);
    lemma_product_with_zero(y, nothing);
    lemma_product_with_zero(minus_one(), nothing);
    lemma_product_with_zero(y, product(minus_one(), nothing));
    lemma_integer_part_of_zero(product(nothing, y));
    lemma_integer_part_of_zero(product(product(minus_one(), nothing), y));
}

/// One moves a pixel by the whole of `h`, and -1 by as much the other way.
proof fn lemma_ends(unit: Binary64, h: int)
    requires
        unit.magnitude_bits() == ONE_BITS,
        -0x4000_0000 <= h <= 0x4000_0000,
    ensures
        integer_part(product(unit, of_integer(h))) == if unit.is_negative() {
            -h
        } else {
            h
        },
        integer_part(product(product(minus_one(), unit), of_integer(h))) == if unit.is_negative() {
            h
        } else {
            -h
        },
{
    let y = of_integer(h);
    lemma_integer_is_exact(h);
    lemma_negation_fields(y);
    lemma_product_with_one(y);
    lemma_product_with_minus_one(y);
    lemma_product_with_minus_one(unit);
    lemma_integer_part_within(y, absolute(h));
    lemma_integer_part_within(negation(y), absolute(h));
    assert(unit == one() || unit == minus_one());
    assert(negation(one()) == minus_one() && negation(minus_one()) == one());
}

/// A number between -1 and 1 and the number with the other sign map to
/// pixels that mirror each other about the middle column, and about the
/// middle row.
pub proof fn lemma_mirror(surface: Surface, x: Binary64)
    requires
        x.in_unit_range(),
    ensures
        surface.pixel_x(x) + surface.pixel_x(negation(x)) == 2 * half(surface.width as int),
        surface.pixel_y(x) + surface.pixel_y(negation(x)) == 2 * half(surface.height as int),
{
    lemma_negation_fields(x);
    lemma_unit_range_bits(x);
    lemma_unit_range_bits(negation(x));
    lemma_offsets_within(x, half(surface.width as int));
    lemma_offsets_within(x, half(surface.height as int));
    lemma_offsets_within(negation(x), half(surface.height as int));
}

} // verus!
