//! Sliding-window reduction engine over dense three-dimensional arrays of
//! unsigned integers.
//!
//! The library models an image or volume as a rectangular row-major grid,
//! describes a sliding window by a [`window::WindowShape`], and reduces every
//! window position to a single cell of a smaller output grid.  The reduction
//! can be computed in one pass, or partitioned along the first axis into
//! independent blocks whose outputs are concatenated back in order; both
//! paths are proved to satisfy the same cell-by-cell specification.

pub mod array_reshape;
pub mod grid;
pub mod window;
