pub mod voxel;
pub mod voxel_read;
