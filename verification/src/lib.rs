//! The core of a wireframe renderer for a rotating unit cube.
//!
//! A frame starts from the mesh of the cube. Each corner is rotated about
//! the Z axis and about the X axis, pushed into the depth and projected;
//! the projected corners are mapped to pixels, and the edges of each
//! triangle become lines between pixels. The render loop decides what
//! comes next, and when it ends.
//!
//! Double-precision numbers are held by their bit patterns. Their
//! arithmetic is that of IEEE 754, carried out on integers, so that every
//! result here is fixed bit for bit.
//!
//! - `binary64`, `rounding`, `arithmetic`: the numbers and their operations;
//!   `rounding_laws`, `arithmetic_laws`, `error_bounds`: what holds of them.
//! - `mesh`, `transform`, `screen`, `scene`: from the cube to the lines of a
//!   frame; `visibility`: that the cube stays on the surface.
//! - `frame`: the steps of the render loop.

pub mod binary64;
pub mod rounding;
pub mod rounding_laws;
pub mod arithmetic;
pub mod arithmetic_laws;
pub mod error_bounds;
pub mod mesh;
pub mod transform;
pub mod screen;
pub mod scene;
pub mod visibility;
pub mod frame;
