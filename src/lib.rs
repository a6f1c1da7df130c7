//! A dock-tree layout engine: panes arranged in a tree of two-way splits
//! whose leaves are tab groups, with insertion, removal, moves, focus,
//! layout over an integer viewport and hit testing.

pub mod geometry;
pub mod shape;
mod node;
pub mod layout;
mod tree;
pub mod laws;

pub use geometry::{Orientation, Rect, RATIO_SCALE};
pub use shape::{Placement, Shape};
pub use tree::{DockError, DockTree, HitTarget};
pub use node::Node;
pub use layout::DropZone;
