# r2r_for_fastlio2

Processing of FAST-LIO2 point clouds received over ROS 2 and forwarded to a
server over QUIC.

- `src/` is the verified library: Morton voxel keys (`morton`), grouping of
  items by integer key through a `nohash_hasher` index (`grouping`), stable
  ordering by key (`sorting`), the ordering of `f32` values read from their
  bit patterns (`float_bits`), voxel grouping (`voxelization`), height-grid
  grouping and the integer side of ceiling removal (`remove_ceiling`), the
  byte layout of `PointCloud2` messages (`pointcloud`), and the state shared
  by the subscribers with the packet built from it (`types`, `send_data`).
- `app/` is the program: ROS 2 subscriptions, the QUIC client, PCD output,
  and the floating-point arithmetic (grid coordinates, averages, densities)
  around the library's decisions.
- `tests/` exercises the library on concrete inputs.
