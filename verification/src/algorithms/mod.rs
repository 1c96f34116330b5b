//! Spatial lookup algorithms.

pub mod bvh;
pub mod forest;
pub mod naive;
pub mod octree;

pub use bvh::Bvh;
pub use naive::Naive;
pub use octree::Octree;
pub use octree::OctreeConfig;
