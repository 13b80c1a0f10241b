//! Point-cloud processing for FAST-LIO2 output: Morton voxel keys, voxel and
//! height-grid grouping, the byte layout of `PointCloud2` messages, IEEE-754
//! bit-pattern ordering, and the bookkeeping shared between the subscribers.

pub mod morton;
pub mod float_bits;
pub mod grouping;
pub mod sorting;
pub mod voxelization;
pub mod remove_ceiling;
pub mod pointcloud;
pub mod types;
pub mod send_data;
