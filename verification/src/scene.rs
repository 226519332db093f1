//! One frame of the scene: every triangle of the mesh on its way to the
//! surface, and the lines to draw for it.

use vstd::prelude::*;
use crate::mesh::{cube_mesh, cube_triangles, Triangle, TRIANGLE_COUNT};
use crate::screen::{MapError, Segment, Surface};
use crate::transform::{corner_point, project_triangle, projected, Matrix, Point3d};

verus! {

/// Where corner `k` of triangle `i` of the mesh lies after the two
/// rotations, the push into the depth and the projection.
pub open spec fn projected_corner(
    i: int,
    k: int,
    z_rot: Matrix,
    x_rot: Matrix,
    projection: Matrix,
) -> Point3d {
    projected(corner_point(cube_triangles()[i][k]), z_rot, x_rot, projection)
}

/// Whether `outline` is what is drawn of triangle `i` of the mesh: its three
/// edges between the pixels of its projected corners, from each corner to
/// the next and from the last to the first; or the error, where the surface
/// does not show one of the corners.
pub open spec fn is_outline_of(
    surface: Surface,
    i: int,
    outline: Result<[Segment; 3], MapError>,
    z_rot: Matrix,
    x_rot: Matrix,
    projection: Matrix,
) -> bool {
    &&& outline is Ok <==> forall|k: int|
        0 <= k < 3 ==> surface.shows(#[trigger] projected_corner(i, k, z_rot, x_rot, projection))
    &&& outline matches Ok(edges) ==> forall|k: int|
        0 <= k < 3 ==> (#[trigger] edges[k]).start == surface.pixel_of(
            projected_corner(i, k, z_rot, x_rot, projection),
        ) && edges[k].end == surface.pixel_of(
            projected_corner(i, (k + 1) % 3, z_rot, x_rot, projection),
        )
    &&& outline matches Err(e) ==> e == MapError::OutOfRange
}

/// What is drawn in one frame: for every triangle of the mesh, in the order
/// of the mesh, its outline under the frame's rotations and the projection.
pub fn frame_outlines(surface: &Surface, z_rot: Matrix, x_rot: Matrix, projection: Matrix) -> (r:
    Vec<Result<[Segment; 3], MapError>>)
    ensures
        r.len() == 12,
        forall|i: int|
            0 <= i < 12 ==> is_outline_of(*surface, i, #[trigger] r[i], z_rot, x_rot, projection),
{
    let mesh: [Triangle; 12] = cube_mesh();
    let mut outlines: Vec<Result<[Segment; 3], MapError>> = Vec::new();
    let mut i: usize = 0;
    while i < TRIANGLE_COUNT
        invariant
            i <= 12,
            outlines.len() == i,
            forall|j: int| 0 <= j < 12 ==> (#[trigger] mesh@[j])@ == cube_triangles()[j],
            forall|j: int|
                0 <= j < i ==> is_outline_of(
                    *surface,
                    j,
                    #[trigger] outlines[j],
                    z_rot,
                    x_rot,
                    projection,
                ),
        decreases TRIANGLE_COUNT - i,
    {
        let flat = project_triangle(&mesh[i], z_rot, x_rot, projection);
        let outline = surface.triangle_outline(&flat);
        proof {
            assert(mesh@[i as int]@ == cube_triangles()[i as int]);
            assert forall|k: int| 0 <= k < 3 implies #[trigger] flat[k] == projected_corner(
                i as int,
                k,
                z_rot,
                x_rot,
                projection,
            ) by {
                assert(mesh@[i as int]@[k] == cube_triangles()[i as int][k]);
            }
            let corner = |k: int| projected_corner(i as int, k, z_rot, x_rot, projection);
            assert(flat@[0] == corner(0) && flat@[1] == corner(1) && flat@[2] == corner(2));
            if forall|k: int| 0 <= k < 3 ==> surface.shows(#[trigger] flat@[k]) {
                assert forall|k: int| 0 <= k < 3 implies surface.shows(
                    #[trigger] projected_corner(i as int, k, z_rot, x_rot, projection),
                ) by {
                    assert(surface.shows(flat@[k]));
                }
            }
            if forall|k: int|
                0 <= k < 3 ==> surface.shows(
                    #[trigger] projected_corner(i as int, k, z_rot, x_rot, projection),
                ) {
                assert forall|k: int| 0 <= k < 3 implies surface.shows(#[trigger] flat@[k]) by {
                    assert(surface.shows(corner(k)));
                }
            }
            if let Ok(edges) = outline {
                assert forall|k: int| 0 <= k < 3 implies (#[trigger] edges[k]).start
                    == surface.pixel_of(corner(k)) && edges[k].end == surface.pixel_of(
                    corner((k + 1) % 3),
                ) by {
                    assert(edges@[k].start == surface.pixel_of(flat@[k]));
                    assert(flat@[(k + 1) % 3] == corner((k + 1) % 3));
                }
            }
            assert(is_outline_of(*surface, i as int, outline, z_rot, x_rot, projection));
        }
        outlines.push(outline);
        i += 1;
    }
    outlines
}

} // verus!
