//! Depth ordering for point-splat rendering.
//!
//! A [`Sorter`] holds the attributes of the instances to draw: a position, a
//! rotation, a color and a scale each. Given the depth of every instance
//! under the current camera transform, [`perform_sort`] gathers the
//! attributes of the instances in front of the camera into the output
//! arrays, from the farthest to the nearest, so that they can be blended back
//! to front.
//!
//! Numbers are held as IEEE 754 single-precision bit patterns, one `u32` per
//! number, and are never computed with: the library compares depths and moves
//! attributes. Projecting a position to its depth is left to the caller.

pub mod depth;
pub mod error;
pub mod order;
pub mod pass;
pub mod store;
pub mod words;

pub use error::SortError;
pub use pass::perform_sort;
pub use store::{
    get_colors, get_num_instances, get_positions, get_rotations, get_scales, get_sorted_colors,
    get_sorted_positions, get_sorted_rotations, get_sorted_scales, resize_buffers, set_buffers,
    set_camera_matrix, set_colors, set_positions, set_rotations, set_scales, Sorter,
};
