use wireframe_cube::arithmetic::{from_integer, MINUS_ONE_BITS};
use wireframe_cube::binary64::Binary64;
use wireframe_cube::mesh::{cube_mesh, Corner};
use wireframe_cube::scene::frame_outlines;
use wireframe_cube::screen::{ScreenPoint, Segment, Surface, WINDOW_HEIGHT, WINDOW_WIDTH};
use wireframe_cube::transform::{
    multiply_matrix_vector, point_of_corner, project_point, project_triangle, projection_matrix,
    rotation_x, rotation_z, Matrix, Point3d, DEPTH_OFFSET_BITS, FAR_PLANE_BITS, FIELD_OF_VIEW_BITS,
    HALF_BITS, NEAR_PLANE_BITS,
};

fn num(x: f64) -> Binary64 {
    Binary64::from_bits(x.to_bits())
}

fn val(x: Binary64) -> f64 {
    f64::from_bits(x.to_bits())
}

fn point(x: f64, y: f64, z: f64) -> Point3d {
    Point3d { x: num(x), y: num(y), z: num(z) }
}

fn matrix(m: [[f64; 4]; 4]) -> Matrix {
    m.map(|row| row.map(num))
}

fn same(got: Binary64, expected: f64) -> bool {
    if expected.is_nan() {
        val(got).is_nan()
    } else {
        got.to_bits() == expected.to_bits()
    }
}

/// The transform written with the machine's own doubles.
fn native_transform(m: [[f64; 4]; 4], p: [f64; 3]) -> [f64; 3] {
    let mut out = [0.0; 3];
    for a in 0..3 {
        out[a] = p[0] * m[0][a] + p[1] * m[1][a] + p[2] * m[2][a] + m[3][a];
    }
    let w = p[0] * m[0][3] + p[1] * m[1][3] + p[2] * m[2][3] + m[3][3];
    if w != 0.0 {
        for a in 0..3 {
            out[a] /= w;
        }
    }
    out
}

fn native_rotation_z(theta: f64) -> [[f64; 4]; 4] {
    let mut m = [[0.0; 4]; 4];
    m[0][0] = theta.cos();
    m[0][1] = theta.sin();
    m[1][0] = -theta.sin();
    m[1][1] = theta.cos();
    m[2][2] = 1.0;
    m[3][3] = 1.0;
    m
}

fn native_rotation_x(theta: f64) -> [[f64; 4]; 4] {
    let mut m = [[0.0; 4]; 4];
    m[0][0] = 1.0;
    m[1][1] = theta.cos();
    m[1][2] = theta.sin();
    m[2][1] = -1.0 * theta.sin();
    m[2][2] = theta.cos();
    m[3][3] = 1.0;
    m
}

fn native_projection() -> [[f64; 4]; 4] {
    let near = 0.1;
    let far = 1000.0;
    let fov: f64 = 90.0;
    let aspect = WINDOW_HEIGHT as f64 / WINDOW_WIDTH as f64;
    let scale = 1.0 / (fov * 0.5f64).tan();
    let mut m = [[0.0; 4]; 4];
    m[0][0] = aspect * scale;
    m[1][1] = scale;
    m[2][2] = far / (far - near);
    m[3][2] = (-far * near) / (far - near);
    m[2][3] = 1.0;
    m[3][3] = 0.0;
    m
}

fn native_pipeline(t: f64, p: [f64; 3]) -> [f64; 3] {
    let theta = 1.0 * t;
    let turned = native_transform(native_rotation_z(theta), p);
    let tilted = native_transform(native_rotation_x(theta * 0.5), turned);
    let moved = [tilted[0], tilted[1], tilted[2] + 3.0];
    native_transform(native_projection(), moved)
}

fn window() -> Surface {
    Surface { width: WINDOW_WIDTH, height: WINDOW_HEIGHT }
}

fn projection() -> Matrix {
    let angle = f64::from_bits(FIELD_OF_VIEW_BITS) * f64::from_bits(HALF_BITS);
    projection_matrix(
        window(),
        Binary64::from_bits(NEAR_PLANE_BITS),
        Binary64::from_bits(FAR_PLANE_BITS),
        num(angle.tan()),
    )
}

fn rotations(t: f64) -> (Matrix, Matrix) {
    let theta = 1.0 * t;
    let half = theta * 0.5;
    (
        rotation_z(num(theta.cos()), num(theta.sin())),
        rotation_x(num(half.cos()), num(half.sin())),
    )
}

fn transform(m: Matrix, p: Point3d) -> Point3d {
    let mut out = point(7.0, 7.0, 7.0);
    multiply_matrix_vector(m, p, &mut out);
    out
}

fn next_pattern(state: &mut u64) -> u64 {
    *state = state
        .wrapping_mul(6364136223846793005)
        .wrapping_add(1442695040888963407);
    let mut z = *state;
    z ^= z >> 33;
    z = z.wrapping_mul(0xff51afd7ed558ccd);
    z ^= z >> 29;
    z
}

fn moderate(state: &mut u64) -> f64 {
    let bits = next_pattern(state);
    let exponent = 1023 - 6 + (bits >> 52) % 12;
    f64::from_bits((bits & 0x800f_ffff_ffff_ffff) | (exponent << 52))
}

#[test]
fn constants_are_the_numbers_they_stand_for() {
    assert_eq!(f64::from_bits(MINUS_ONE_BITS), -1.0);
    assert_eq!(f64::from_bits(HALF_BITS), 0.5);
    assert_eq!(f64::from_bits(DEPTH_OFFSET_BITS), 3.0);
    assert_eq!(f64::from_bits(NEAR_PLANE_BITS), 0.1);
    assert_eq!(f64::from_bits(FAR_PLANE_BITS), 1000.0);
    assert_eq!(f64::from_bits(FIELD_OF_VIEW_BITS), 90.0);
}

#[test]
fn integers_become_their_doubles() {
    for n in [0, 1, -1, 2, 3, 500, 800, -800, 1 << 30, i32::MAX, i32::MIN, 123456789] {
        assert_eq!(from_integer(n).to_bits(), (n as f64).to_bits());
    }
}

#[test]
fn corners_become_points() {
    let p = point_of_corner(Corner { x: 1, y: 0, z: 1 });
    assert_eq!(p, point(1.0, 0.0, 1.0));
}

#[test]
fn identity_changes_no_point() {
    let mut identity = [[0.0; 4]; 4];
    for k in 0..4 {
        identity[k][k] = 1.0;
    }
    let mut state = 23u64;
    for _ in 0..2000 {
        let p = [
            f64::from_bits(next_pattern(&mut state)),
            moderate(&mut state),
            f64::from_bits(next_pattern(&mut state)),
        ];
        if !p.iter().all(|c| c.is_finite()) {
            continue;
        }
        let image = transform(matrix(identity), point(p[0], p[1], p[2]));
        assert_eq!(val(image.x), p[0]);
        assert_eq!(val(image.y), p[1]);
        assert_eq!(val(image.z), p[2]);
    }
    let image = transform(matrix(identity), point(-0.0, 0.0, -2.5));
    assert_eq!(image, point(0.0, 0.0, -2.5));
}

#[test]
fn transform_follows_the_formula() {
    let m = [
        [2.0, 0.0, 0.0, 0.0],
        [0.0, 3.0, 0.0, 0.0],
        [0.0, 0.0, 4.0, 1.0],
        [1.0, -1.0, 0.5, 0.0],
    ];
    // w = z = 2: ((1*2 + 1) / 2, (1*3 - 1) / 2, (2*4 + 0.5) / 2)
    assert_eq!(transform(matrix(m), point(1.0, 1.0, 2.0)), point(1.5, 1.0, 4.25));
}

#[test]
fn zero_w_leaves_the_point_undivided() {
    let m = [
        [2.0, 0.0, 0.0, 0.0],
        [0.0, 3.0, 0.0, 0.0],
        [0.0, 0.0, 4.0, 1.0],
        [1.0, -1.0, 0.5, 0.0],
    ];
    assert_eq!(transform(matrix(m), point(1.0, 1.0, 0.0)), point(3.0, 2.0, 0.5));
    assert_eq!(transform(matrix(m), point(1.0, 1.0, -0.0)), point(3.0, 2.0, 0.5));
}

#[test]
fn transform_agrees_with_native_doubles() {
    let mut state = 29u64;
    for round in 0..3000 {
        let mut m = [[0.0; 4]; 4];
        for row in m.iter_mut() {
            for entry in row.iter_mut() {
                *entry = if round % 3 == 0 {
                    f64::from_bits(next_pattern(&mut state))
                } else {
                    moderate(&mut state)
                };
            }
        }
        let p = [moderate(&mut state), moderate(&mut state), moderate(&mut state)];
        let expected = native_transform(m, p);
        let got = transform(matrix(m), point(p[0], p[1], p[2]));
        assert!(same(got.x, expected[0]), "x of {:?} under {:?}", p, m);
        assert!(same(got.y, expected[1]), "y of {:?} under {:?}", p, m);
        assert!(same(got.z, expected[2]), "z of {:?} under {:?}", p, m);
    }
}

#[test]
fn rotation_by_nothing_is_the_identity() {
    let (z_rot, x_rot) = rotations(0.0);
    for m in [z_rot, x_rot] {
        for i in 0..4 {
            for j in 0..4 {
                assert_eq!(val(m[i][j]), if i == j { 1.0 } else { 0.0 });
            }
        }
        let p = point(0.25, -0.75, 1.0);
        assert_eq!(transform(m, p), p);
    }
}

#[test]
fn half_turn_about_z_mirrors_x_and_y() {
    let theta = std::f64::consts::PI;
    let m = rotation_z(num(theta.cos()), num(theta.sin()));
    let image = transform(m, point(1.0, 0.0, 0.0));
    assert!((val(image.x) + 1.0).abs() < 1e-12);
    assert!(val(image.y).abs() < 1e-12);
    assert_eq!(val(image.z), 0.0);
    let image = transform(m, point(0.0, 1.0, 0.5));
    assert!(val(image.x).abs() < 1e-12);
    assert!((val(image.y) + 1.0).abs() < 1e-12);
    assert_eq!(val(image.z), 0.5);
}

#[test]
fn quarter_turn_about_x_tilts_y_into_z() {
    let theta = std::f64::consts::FRAC_PI_2;
    let m = rotation_x(num(theta.cos()), num(theta.sin()));
    let image = transform(m, point(0.5, 1.0, 0.0));
    assert_eq!(val(image.x), 0.5);
    assert!(val(image.y).abs() < 1e-12);
    assert!((val(image.z) - 1.0).abs() < 1e-12);
}

#[test]
fn rotations_hold_the_sines_where_they_belong() {
    let z_rot = rotation_z(num(0.8), num(0.6));
    assert_eq!(matrix(
        [[0.8, 0.6, 0.0, 0.0], [-0.6, 0.8, 0.0, 0.0], [0.0, 0.0, 1.0, 0.0], [0.0, 0.0, 0.0, 1.0]]
    ), z_rot);
    let x_rot = rotation_x(num(0.8), num(0.6));
    assert_eq!(matrix(
        [[1.0, 0.0, 0.0, 0.0], [0.0, 0.8, 0.6, 0.0], [0.0, -0.6, 0.8, 0.0], [0.0, 0.0, 0.0, 1.0]]
    ), x_rot);
}

#[test]
fn projection_follows_its_formulas() {
    let expected = native_projection();
    let got = projection();
    for i in 0..4 {
        for j in 0..4 {
            assert_eq!(got[i][j].to_bits(), expected[i][j].to_bits(), "entry {} {}", i, j);
        }
    }
    assert_eq!(val(got[2][3]), 1.0);
    assert_eq!(val(got[3][3]), 0.0);
    assert_eq!(val(got[1][1]), 1.0 / 45.0f64.tan());
    assert_eq!(val(got[0][0]), 0.625 * (1.0 / 45.0f64.tan()));
}

#[test]
fn first_corner_at_the_start_lands_in_the_middle() {
    let (z_rot, x_rot) = rotations(0.0);
    let corner = point_of_corner(Corner { x: 0, y: 0, z: 0 });
    let flat = project_point(corner, z_rot, x_rot, projection());
    assert_eq!(val(flat.x), 0.0);
    assert_eq!(val(flat.y), 0.0);
    assert_eq!(
        window().to_pixel(flat.x, flat.y),
        Ok(ScreenPoint { x: 400, y: 250 })
    );
}

#[test]
fn south_face_at_the_start() {
    let (z_rot, x_rot) = rotations(0.0);
    let mesh = cube_mesh();
    let flat = project_triangle(&mesh[0], z_rot, x_rot, projection());
    let a = ScreenPoint { x: 400, y: 250 };
    let b = ScreenPoint { x: 400, y: 199 };
    let c = ScreenPoint { x: 451, y: 199 };
    assert_eq!(
        window().triangle_outline(&flat),
        Ok([
            Segment { start: a, end: b },
            Segment { start: b, end: c },
            Segment { start: c, end: a },
        ])
    );
}

#[test]
fn frame_at_the_start() {
    let (z_rot, x_rot) = rotations(0.0);
    let outlines = frame_outlines(&window(), z_rot, x_rot, projection());
    assert_eq!(outlines.len(), 12);
    let pixel = |x: i32, y: i32| ScreenPoint { x, y };
    let outline = |a: ScreenPoint, b: ScreenPoint, c: ScreenPoint| {
        Ok([
            Segment { start: a, end: b },
            Segment { start: b, end: c },
            Segment { start: c, end: a },
        ])
    };
    // The near face, at depth 3, and the far face, at depth 4.
    assert_eq!(outlines[0], outline(pixel(400, 250), pixel(400, 199), pixel(451, 199)));
    assert_eq!(outlines[1], outline(pixel(400, 250), pixel(451, 199), pixel(451, 250)));
    assert_eq!(outlines[2], outline(pixel(438, 250), pixel(438, 212), pixel(400, 212)));
    assert_eq!(outlines[3], outline(pixel(438, 250), pixel(400, 212), pixel(400, 250)));
}

#[test]
fn frame_holds_the_outline_of_every_triangle() {
    let projection = projection();
    for step in 0..50 {
        let (z_rot, x_rot) = rotations(step as f64 * 0.31);
        let outlines = frame_outlines(&window(), z_rot, x_rot, projection);
        let mesh = cube_mesh();
        assert_eq!(outlines.len(), mesh.len());
        for (triangle, outline) in mesh.iter().zip(outlines) {
            let flat = project_triangle(triangle, z_rot, x_rot, projection);
            assert_eq!(outline, window().triangle_outline(&flat));
        }
    }
}

#[test]
fn frame_reports_triangles_off_the_surface() {
    // A projection that stretches x puts the corners at x = 1 off the surface.
    let mut wide = native_projection();
    wide[0][0] = 8.0;
    let (z_rot, x_rot) = rotations(0.0);
    let outlines = frame_outlines(&window(), z_rot, x_rot, matrix(wide));
    assert_eq!(outlines.len(), 12);
    assert!(outlines[0].is_err());
    // Only the face at x = 0 is left.
    assert!(outlines[6].is_ok());
    assert!(outlines[7].is_ok());
    assert_eq!(outlines.iter().filter(|o| o.is_ok()).count(), 2);
}

#[test]
fn pipeline_agrees_with_native_doubles() {
    let projection = projection();
    for step in 0..400 {
        let t = step as f64 * 0.0373;
        let (z_rot, x_rot) = rotations(t);
        for triangle in cube_mesh() {
            let flat = project_triangle(&triangle, z_rot, x_rot, projection);
            for k in 0..3 {
                let c = triangle[k];
                let expected = native_pipeline(t, [c.x as f64, c.y as f64, c.z as f64]);
                assert_eq!(flat[k].x.to_bits(), expected[0].to_bits());
                assert_eq!(flat[k].y.to_bits(), expected[1].to_bits());
                assert_eq!(flat[k].z.to_bits(), expected[2].to_bits());
            }
        }
    }
}

#[test]
fn every_frame_stays_on_the_surface() {
    let projection = projection();
    for step in 0..1000 {
        let t = step as f64 * 0.0127;
        let (z_rot, x_rot) = rotations(t);
        for triangle in cube_mesh() {
            let flat = project_triangle(&triangle, z_rot, x_rot, projection);
            for p in flat {
                assert!(val(p.x).is_finite() && val(p.y).is_finite() && val(p.z).is_finite());
                assert!(p.x.is_in_unit_range() && p.y.is_in_unit_range());
            }
            let outline = window().triangle_outline(&flat).unwrap();
            for edge in outline {
                assert!(0 <= edge.start.x && edge.start.x <= WINDOW_WIDTH);
                assert!(0 <= edge.start.y && edge.start.y <= WINDOW_HEIGHT);
            }
        }
    }
}

#[test]
fn cosines_and_sines_lie_near_the_unit_circle() {
    // The squares are summed exactly, in units of 2^-2148 scaled down to fit.
    let square = |x: f64| {
        let mantissa = (x.to_bits() & 0x000f_ffff_ffff_ffff) | (1 << 52);
        let exponent = ((x.to_bits() >> 52) & 0x7ff) as i64 - 1075;
        if x == 0.0 || exponent < -116 {
            0u128
        } else {
            ((mantissa as u128) * (mantissa as u128)) >> (2 * (-52 - exponent)) as u32
        }
    };
    let one: u128 = 1 << 104;
    for step in 0..5000 {
        let theta = step as f64 * 0.0123;
        for angle in [theta, theta * 0.5, -theta, theta * 1e6] {
            let sum = square(angle.cos()) + square(angle.sin());
            assert!(sum <= one + (one >> 30), "angle {}", angle);
        }
    }
}

#[test]
fn projection_of_the_window_is_narrow() {
    let angle = f64::from_bits(FIELD_OF_VIEW_BITS) * f64::from_bits(HALF_BITS);
    assert_eq!(angle, 45.0);
    assert!(angle.tan().abs() >= 1.6);
    let m = projection();
    assert!(val(m[0][0]).abs() <= 0.5);
    assert!(val(m[1][1]).abs() <= 0.625);
    for (i, j) in [(1, 0), (2, 0), (3, 0), (0, 1), (2, 1), (3, 1), (0, 3), (1, 3), (3, 3)] {
        assert_eq!(val(m[i][j]), 0.0);
    }
    assert_eq!(val(m[2][3]), 1.0);
}

#[test]
fn no_pair_on_the_unit_circle_moves_the_cube_off_the_surface() {
    // Cosines and sines that no angle gives exactly, but that lie on the circle.
    let pairs = [
        (1.0, 0.0),
        (0.0, 1.0),
        (-1.0, 0.0),
        (0.0, -1.0),
        (0.6, 0.8),
        (-0.8, 0.6),
        (0.28, -0.96),
        (std::f64::consts::FRAC_1_SQRT_2, std::f64::consts::FRAC_1_SQRT_2),
        (-std::f64::consts::FRAC_1_SQRT_2, -std::f64::consts::FRAC_1_SQRT_2),
    ];
    let projection = projection();
    for (c, s) in pairs {
        for (c2, s2) in pairs {
            let z_rot = rotation_z(num(c), num(s));
            let x_rot = rotation_x(num(c2), num(s2));
            for outline in frame_outlines(&window(), z_rot, x_rot, projection) {
                assert!(outline.is_ok());
            }
        }
    }
}
