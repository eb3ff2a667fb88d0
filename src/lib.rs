//! Grid pathfinding over sparse obstacle fields: blocked cells are grouped into
//! 8-connected objects, each object contributes its convex corner nodes, and
//! paths are searched over the visibility graph of those nodes.
//!
//! Coordinates of blocked cells and query points are bounded by `MAX_COORD`,
//! which keeps every distance within machine integers.
pub mod geometry;
pub mod map;
pub mod sight;
pub mod connect;
pub mod fast_hash;

pub use geometry::{distance, GridPos, MAX_COORD};
pub use fast_hash::{BuildHash128to64, Hash128to64};
pub use map::DS2Map;

