//! Connectivity and mesh generation for networks of walls.
//!
//! Walls are line segments in the ground plane. Coordinates are integers in
//! millimetres, so every geometric decision (containment, intersection,
//! angular order at a joint) is exact.

pub mod angle;
pub mod collider;
pub mod connections;
pub mod geometry;
pub mod lot;
pub mod mesh;
pub mod network;
pub mod pipeline;
pub mod triangulator;

pub use collider::{generate_collider, TriMesh};
pub use connections::{MinMaxResult, SegmentConnection, SegmentConnections};
pub use lot::LotVertices;
pub use geometry::{distance, isqrt, width_vector, Line, Point, PointKind, Segment};
pub use mesh::{offset_points, position_to_uv, Aperture, Point3, Uv, WallMesh};
pub use network::{SegmentEntry, SegmentNetwork};
pub use triangulator::Triangulator;
