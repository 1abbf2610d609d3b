//! A spatial index over moving 2D entities and a bounded-degree proximity
//! graph ("power grid") maintained incrementally on top of it.
//!
//! Positions are integer world units; distances are compared squared, so
//! every comparison is exact.
pub mod geometry;
pub mod graph;
pub mod index;
pub mod links;
pub mod power;
pub mod spatial;

pub use geometry::{squared_distance, Pos};
pub use graph::{GridError, PowerGrid};
pub use index::{IndexError, IndexPluginGroup, TileGrid};
pub use power::EnergyPluginGroup;
pub use spatial::SpatialIndex;
