//! A quadtree of axis-aligned rectangles that answers point queries.
//!
//! Coordinates are IEEE 754 single-precision numbers, held as bit patterns
//! (`binary32`). A tree is built over a fixed region, takes rectangles one by
//! one or in bulk, numbers them in the order they come, and reports the
//! numbers of those that contain a given point.
pub mod binary32;
pub mod geometry;
pub mod node;
pub mod quadtree;

pub use crate::binary32::Binary32;
pub use crate::geometry::{Item, Point, Rectangle, Size};
pub use crate::node::QuadTreeNode;
pub use crate::quadtree::QuadTree;
