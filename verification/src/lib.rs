//! Binary space partitioning of the plane: trees of line segments and of
//! convex polygons, their traversal from a viewpoint, portals between
//! neighbouring cells and potentially visible sets.
//!
//! The library is generic over the point type; whatever measures a point
//! against a line (signed distances, intersection points) is done by the
//! caller and handed in as sides, points or functions.

pub mod bsp;
pub mod node;
pub mod portal;
pub mod pvs;
pub mod segment;
pub mod splitter;

pub use segment::{BspNode, Line};
