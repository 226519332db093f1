use wireframe_cube::mesh::{cube_mesh, Corner, TRIANGLE_COUNT};

fn shared(a: &[Corner; 3], b: &[Corner; 3]) -> usize {
    a.iter().filter(|c| b.contains(c)).count()
}

#[test]
fn mesh_has_twelve_triangles() {
    let mesh = cube_mesh();
    assert_eq!(mesh.len(), 12);
    assert_eq!(TRIANGLE_COUNT, 12);
    let references: usize = mesh.iter().map(|t| t.len()).sum();
    assert_eq!(references, 36);
}

#[test]
fn mesh_corners_lie_on_the_unit_cube() {
    for triangle in cube_mesh() {
        for c in triangle {
            assert!(c.x <= 1 && c.y <= 1 && c.z <= 1);
        }
    }
}

#[test]
fn triangles_of_a_face_share_a_diagonal() {
    let mesh = cube_mesh();
    for face in 0..6 {
        assert_eq!(shared(&mesh[2 * face], &mesh[2 * face + 1]), 2);
        assert_eq!(mesh[2 * face][0], mesh[2 * face + 1][0]);
        assert_eq!(mesh[2 * face][2], mesh[2 * face + 1][1]);
    }
}

#[test]
fn every_face_lies_in_its_plane() {
    let mesh = cube_mesh();
    // South, North, East, West, Top, Bottom: the axis and the side.
    let planes = [(2, 0), (2, 1), (0, 1), (0, 0), (1, 1), (1, 0)];
    for (face, (axis, side)) in planes.iter().enumerate() {
        for triangle in &mesh[2 * face..2 * face + 2] {
            for c in triangle {
                let coordinate = [c.x, c.y, c.z][*axis];
                assert_eq!(coordinate, *side);
            }
        }
    }
}

#[test]
fn mesh_uses_all_eight_corners() {
    let mut seen = [false; 8];
    for triangle in cube_mesh() {
        for c in triangle {
            seen[(c.x + 2 * c.y + 4 * c.z) as usize] = true;
        }
    }
    assert_eq!(seen, [true; 8]);
}

#[test]
fn south_face_comes_first() {
    let mesh = cube_mesh();
    assert_eq!(
        mesh[0],
        [
            Corner { x: 0, y: 0, z: 0 },
            Corner { x: 0, y: 1, z: 0 },
            Corner { x: 1, y: 1, z: 0 }
        ]
    );
    assert_eq!(
        mesh[11],
        [
            Corner { x: 1, y: 0, z: 0 },
            Corner { x: 0, y: 0, z: 1 },
            Corner { x: 0, y: 0, z: 0 }
        ]
    );
}

#[test]
fn every_triangle_winds_outward() {
    for triangle in cube_mesh() {
        let d = |a: Corner, b: Corner| {
            [
                b.x as i32 - a.x as i32,
                b.y as i32 - a.y as i32,
                b.z as i32 - a.z as i32,
            ]
        };
        let u = d(triangle[0], triangle[1]);
        let v = d(triangle[0], triangle[2]);
        let n = [
            u[1] * v[2] - u[2] * v[1],
            u[2] * v[0] - u[0] * v[2],
            u[0] * v[1] - u[1] * v[0],
        ];
        let from_centre = [
            2 * triangle[0].x as i32 - 1,
            2 * triangle[0].y as i32 - 1,
            2 * triangle[0].z as i32 - 1,
        ];
        let outward: i32 = (0..3).map(|k| n[k] * from_centre[k]).sum();
        assert_eq!(outward, 1);
    }
}
