//! The items that most users need.

pub use crate::algorithms::{Bvh, Naive, Octree, OctreeConfig};
pub use crate::geometry::{EntityPositionPair, Position};
pub use crate::{prepare_spatial_lookup, SpatialLookupAlgorithm, SpatialLookupState};
