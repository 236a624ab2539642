pub mod key;
pub mod payload;
pub mod serial;
pub mod store;
pub mod voxel;
pub mod voxels;
