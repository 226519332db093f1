use wireframe_cube::arithmetic::{from_integer, times, to_integer};
use wireframe_cube::binary64::Binary64;
use wireframe_cube::screen::{
    convert_coord_to_pixels, MapError, ScreenPoint, Segment, Surface, WINDOW_HEIGHT, WINDOW_WIDTH,
};
use wireframe_cube::transform::Point3d;

fn num(x: f64) -> Binary64 {
    Binary64::from_bits(x.to_bits())
}

fn pixel(x: f64, y: f64) -> Result<ScreenPoint, MapError> {
    convert_coord_to_pixels(num(x), num(y))
}

/// The mapping written with the machine's own doubles.
fn native(surface: &Surface, x: f64, y: f64) -> Option<ScreenPoint> {
    if !(x >= -1.0 && x <= 1.0 && y >= -1.0 && y <= 1.0) {
        return None;
    }
    let px = (x * (surface.width / 2) as f64) as i32 + surface.width / 2;
    let py = (-1.0 * y * (surface.height / 2) as f64) as i32 + surface.height / 2;
    Some(ScreenPoint { x: px, y: py })
}

fn agree(surface: &Surface, x: f64, y: f64) {
    let got = surface.to_pixel(num(x), num(y)).ok();
    assert_eq!(got, native(surface, x, y), "x = {:e}, y = {:e}, {:?}", x, y, surface);
}

/// The integer part of the double product of `x` and `h`.
fn scaled(x: f64, h: i32) -> i32 {
    to_integer(times(num(x), from_integer(h)))
}

/// A fixed sequence of 64-bit patterns.
fn next_pattern(state: &mut u64) -> u64 {
    *state = state
        .wrapping_mul(6364136223846793005)
        .wrapping_add(1442695040888963407);
    let mut z = *state;
    z ^= z >> 33;
    z = z.wrapping_mul(0xff51afd7ed558ccd);
    z ^= z >> 29;
    z
}

/// A double between -1 and 1 made from a pattern: a uniform fraction, or a
/// pattern with a small exponent.
fn unit_double(bits: u64) -> f64 {
    let sign = bits & 0x8000_0000_0000_0000;
    let fraction = bits & 0x000f_ffff_ffff_ffff;
    let exponent = 1022 - ((bits >> 52) & 0x3f);
    f64::from_bits(sign | (exponent << 52) | fraction)
}

#[test]
fn left_edge_top_row() {
    assert_eq!(pixel(-1.0, 1.0), Ok(ScreenPoint { x: 0, y: 0 }));
}

#[test]
fn middle_column_top_row() {
    assert_eq!(pixel(0.0, 1.0), Ok(ScreenPoint { x: WINDOW_WIDTH / 2, y: 0 }));
}

#[test]
fn right_edge_top_row() {
    assert_eq!(pixel(1.0, 1.0), Ok(ScreenPoint { x: WINDOW_WIDTH, y: 0 }));
}

#[test]
fn left_edge_bottom_row() {
    assert_eq!(pixel(-1.0, -1.0), Ok(ScreenPoint { x: 0, y: WINDOW_HEIGHT }));
}

#[test]
fn left_edge_middle_row() {
    assert_eq!(pixel(-1.0, 0.0), Ok(ScreenPoint { x: 0, y: WINDOW_HEIGHT / 2 }));
}

#[test]
fn centre_of_the_window() {
    assert_eq!(pixel(0.0, 0.0), Ok(ScreenPoint { x: 400, y: 250 }));
    assert_eq!(pixel(-0.0, -0.0), Ok(ScreenPoint { x: 400, y: 250 }));
}

#[test]
fn exact_pixels_inside_the_window() {
    assert_eq!(pixel(0.5, 0.5), Ok(ScreenPoint { x: 600, y: 125 }));
    assert_eq!(pixel(-0.25, -0.5), Ok(ScreenPoint { x: 300, y: 375 }));
    assert_eq!(pixel(0.0025, 0.004), Ok(ScreenPoint { x: 401, y: 249 }));
    assert_eq!(pixel(0.999, -0.999), Ok(ScreenPoint { x: 799, y: 499 }));
    assert_eq!(pixel(-0.999, 0.999), Ok(ScreenPoint { x: 1, y: 1 }));
}

#[test]
fn truncation_goes_toward_zero() {
    // 0.3 * 400 = 120 exactly as doubles; 0.299 * 400 = 119.6.
    assert_eq!(pixel(0.299, 0.0), Ok(ScreenPoint { x: 519, y: 250 }));
    assert_eq!(pixel(-0.299, 0.0), Ok(ScreenPoint { x: 281, y: 250 }));
    assert_eq!(pixel(0.0, 0.299), Ok(ScreenPoint { x: 400, y: 176 }));
    assert_eq!(pixel(0.0, -0.299), Ok(ScreenPoint { x: 400, y: 324 }));
}

#[test]
fn just_outside_is_out_of_range() {
    assert_eq!(pixel(1.0001, 0.0), Err(MapError::OutOfRange));
    assert_eq!(pixel(-1.0001, 0.0), Err(MapError::OutOfRange));
    assert_eq!(pixel(0.0, 1.0001), Err(MapError::OutOfRange));
    assert_eq!(pixel(0.0, -1.0001), Err(MapError::OutOfRange));
    let above_one = f64::from_bits(1.0f64.to_bits() + 1);
    assert_eq!(pixel(above_one, 0.0), Err(MapError::OutOfRange));
    assert_eq!(pixel(0.0, -above_one), Err(MapError::OutOfRange));
}

#[test]
fn far_outside_is_out_of_range() {
    assert_eq!(pixel(2.0, 0.5), Err(MapError::OutOfRange));
    assert_eq!(pixel(0.5, -1e300), Err(MapError::OutOfRange));
    assert_eq!(pixel(f64::MAX, f64::MIN), Err(MapError::OutOfRange));
}

#[test]
fn no_number_is_out_of_range() {
    assert_eq!(pixel(f64::NAN, 0.0), Err(MapError::OutOfRange));
    assert_eq!(pixel(0.0, f64::NAN), Err(MapError::OutOfRange));
    assert_eq!(pixel(f64::INFINITY, 0.0), Err(MapError::OutOfRange));
    assert_eq!(pixel(0.0, f64::NEG_INFINITY), Err(MapError::OutOfRange));
    let quiet_negative = Binary64::from_bits(0xfff8_0000_0000_0001);
    assert_eq!(
        convert_coord_to_pixels(quiet_negative, num(0.0)),
        Err(MapError::OutOfRange)
    );
}

#[test]
fn unit_range_is_decided_on_the_bits() {
    assert!(num(1.0).is_in_unit_range());
    assert!(num(-1.0).is_in_unit_range());
    assert!(num(0.0).is_in_unit_range());
    assert!(num(-0.0).is_in_unit_range());
    assert!(num(5e-324).is_in_unit_range());
    assert!(num(f64::MIN_POSITIVE).is_in_unit_range());
    assert!(!num(1.0000000000000002).is_in_unit_range());
    assert!(!num(-1.0000000000000002).is_in_unit_range());
    assert!(!num(f64::NAN).is_in_unit_range());
    assert!(!num(f64::INFINITY).is_in_unit_range());
}

#[test]
fn sign_bit_is_read() {
    assert!(num(-0.0).sign_bit());
    assert!(num(-3.5).sign_bit());
    assert!(!num(0.0).sign_bit());
    assert!(!num(3.5).sign_bit());
    assert_eq!(num(1.0).to_bits(), 0x3ff0_0000_0000_0000);
}

#[test]
fn scaling_rounds_before_it_truncates() {
    // 0.0075 as a double lies below 3/400, and 0.036 below 9/250: the exact
    // products lie below 3 and 9, the double products are 3 and 9.
    assert_eq!(0.0075f64 * 400.0, 3.0);
    assert_eq!(0.036f64 * 250.0, 9.0);
    assert_eq!(scaled(0.0075, 400), 3);
    assert_eq!(scaled(0.036, 250), 9);
    assert_eq!(pixel(0.0075, 0.036), Ok(ScreenPoint { x: 403, y: 241 }));
    assert_eq!(pixel(-0.0075, -0.036), Ok(ScreenPoint { x: 397, y: 259 }));
}

#[test]
fn scaling_of_small_and_large() {
    assert_eq!(scaled(1.0, 0x4000_0000), 0x4000_0000);
    assert_eq!(scaled(-1.0, 7), -7);
    assert_eq!(scaled(0.0, 400), 0);
    assert_eq!(scaled(5e-324, 0x4000_0000), 0);
    assert_eq!(scaled(0.5, 401), 200);
    assert_eq!(scaled(-0.5, -401), 200);
    assert_eq!(scaled(1.0 - f64::EPSILON / 2.0, 400), 399);
}

#[test]
fn conversion_to_integers_saturates() {
    let convert = |x: f64| to_integer(num(x));
    for x in [
        0.0,
        -0.0,
        0.9,
        -0.9,
        1.0,
        -1.5,
        2147483647.0,
        2147483647.5,
        2147483648.0,
        -2147483648.0,
        -2147483648.5,
        -2147483649.0,
        1e10,
        -1e10,
        1e300,
        f64::INFINITY,
        f64::NEG_INFINITY,
        f64::NAN,
        5e-324,
        4503599627370496.0,
        123456.789,
        -123456.789,
    ] {
        assert_eq!(convert(x), x as i32, "{:e}", x);
    }
}

#[test]
fn window_agrees_with_native_doubles() {
    let window = Surface { width: WINDOW_WIDTH, height: WINDOW_HEIGHT };
    let mut state = 7u64;
    for _ in 0..20000 {
        let x = unit_double(next_pattern(&mut state));
        let y = unit_double(next_pattern(&mut state));
        agree(&window, x, y);
    }
}

#[test]
fn window_agrees_near_every_pixel_boundary() {
    let window = Surface { width: WINDOW_WIDTH, height: WINDOW_HEIGHT };
    for k in -400i64..=400 {
        let exact = k as f64 / 400.0;
        for step in -4i64..=4 {
            let x = f64::from_bits((exact.to_bits() as i64 + step) as u64);
            agree(&window, x, 0.0);
        }
    }
    for k in -250i64..=250 {
        let exact = k as f64 / 250.0;
        for step in -4i64..=4 {
            let y = f64::from_bits((exact.to_bits() as i64 + step) as u64);
            agree(&window, 0.0, y);
        }
    }
}

#[test]
fn other_surfaces_agree_with_native_doubles() {
    let sizes = [
        (1, 1),
        (2, 3),
        (801, 499),
        (1999, 1001),
        (i32::MAX, i32::MAX - 1),
        (0, 0),
        (-800, -501),
        (i32::MIN, i32::MIN + 1),
        (123456789, 7),
    ];
    let mut state = 11u64;
    for (width, height) in sizes {
        let surface = Surface { width, height };
        for _ in 0..3000 {
            let x = unit_double(next_pattern(&mut state));
            let y = unit_double(next_pattern(&mut state));
            agree(&surface, x, y);
        }
        for x in [1.0, -1.0, 0.0, -0.0, 5e-324, -5e-324, 0.5, -0.5] {
            agree(&surface, x, -x);
        }
    }
}

#[test]
fn any_pattern_agrees_with_native_doubles() {
    let window = Surface { width: WINDOW_WIDTH, height: WINDOW_HEIGHT };
    let mut state = 13u64;
    for _ in 0..5000 {
        let x = f64::from_bits(next_pattern(&mut state));
        let y = unit_double(next_pattern(&mut state));
        if x.is_nan() {
            assert_eq!(pixel(x, y), Err(MapError::OutOfRange));
        } else {
            agree(&window, x, y);
            agree(&window, y, x);
        }
    }
}

#[test]
fn outline_joins_the_corners_in_order() {
    let window = Surface { width: WINDOW_WIDTH, height: WINDOW_HEIGHT };
    let corner = |x: f64, y: f64| Point3d { x: num(x), y: num(y), z: num(9.0) };
    let triangle = [corner(0.0, 0.0), corner(0.5, 0.0), corner(0.5, -0.5)];
    let a = ScreenPoint { x: 400, y: 250 };
    let b = ScreenPoint { x: 600, y: 250 };
    let c = ScreenPoint { x: 600, y: 375 };
    assert_eq!(
        window.triangle_outline(&triangle),
        Ok([
            Segment { start: a, end: b },
            Segment { start: b, end: c },
            Segment { start: c, end: a },
        ])
    );
}

#[test]
fn outline_needs_every_corner_in_range() {
    let window = Surface { width: WINDOW_WIDTH, height: WINDOW_HEIGHT };
    let corner = |x: f64, y: f64| Point3d { x: num(x), y: num(y), z: num(0.0) };
    for bad in 0..3 {
        let mut triangle = [corner(0.0, 0.0), corner(0.5, 0.0), corner(0.5, -0.5)];
        triangle[bad].y = num(1.5);
        assert_eq!(window.triangle_outline(&triangle), Err(MapError::OutOfRange));
        triangle[bad].y = num(0.0);
        triangle[bad].x = num(f64::NAN);
        assert_eq!(window.triangle_outline(&triangle), Err(MapError::OutOfRange));
    }
}

#[test]
fn depth_plays_no_part_in_the_outline() {
    let window = Surface { width: WINDOW_WIDTH, height: WINDOW_HEIGHT };
    let at = |z: f64| {
        let corner = |x: f64, y: f64| Point3d { x: num(x), y: num(y), z: num(z) };
        window.triangle_outline(&[corner(-1.0, 1.0), corner(1.0, 1.0), corner(0.0, -1.0)])
    };
    assert_eq!(at(0.0), at(f64::NAN));
    assert_eq!(at(-5.0), at(f64::INFINITY));
    assert!(at(0.0).is_ok());
}

#[test]
fn a_number_and_its_negative_mirror_each_other() {
    let mut state = 31u64;
    for (width, height) in [(800, 500), (801, 499), (1, 1), (-800, 500), (i32::MAX, i32::MIN)] {
        let surface = Surface { width, height };
        for _ in 0..2000 {
            let x = unit_double(next_pattern(&mut state));
            let here = surface.to_pixel(num(x), num(x)).unwrap();
            let there = surface.to_pixel(num(-x), num(-x)).unwrap();
            assert_eq!(here.x as i64 + there.x as i64, 2 * (width as i64 / 2));
            assert_eq!(here.y as i64 + there.y as i64, 2 * (height as i64 / 2));
        }
    }
}

#[test]
fn pixels_of_numbers_in_range_lie_on_the_surface() {
    let mut state = 37u64;
    for (width, height) in [(800, 500), (801, 499), (1, 1), (0, 0), (i32::MAX, i32::MAX)] {
        let surface = Surface { width, height };
        for _ in 0..2000 {
            let x = unit_double(next_pattern(&mut state));
            let y = unit_double(next_pattern(&mut state));
            let p = surface.to_pixel(num(x), num(y)).unwrap();
            assert!(0 <= p.x && p.x <= width);
            assert!(0 <= p.y && p.y <= height);
        }
    }
}

#[test]
fn ends_and_middle_of_any_surface() {
    for (width, height) in [(800, 500), (801, 499), (2, 4), (1, 1), (0, 0), (i32::MAX, 6)] {
        let surface = Surface { width, height };
        let (w, h) = (width / 2, height / 2);
        let at = |x: f64, y: f64| surface.to_pixel(num(x), num(y));
        assert_eq!(at(-1.0, 1.0), Ok(ScreenPoint { x: 0, y: 0 }));
        assert_eq!(at(0.0, 0.0), Ok(ScreenPoint { x: w, y: h }));
        assert_eq!(at(-0.0, -0.0), Ok(ScreenPoint { x: w, y: h }));
        assert_eq!(at(1.0, -1.0), Ok(ScreenPoint { x: 2 * w, y: 2 * h }));
    }
}
