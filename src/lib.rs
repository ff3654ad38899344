//! Compressed storage for a sparse voxel grid: a run-length encoded array per
//! chunk, a map from chunk coordinates to chunks, and iterators over boxes of
//! voxels that hop between chunks.
pub mod bit_array;
pub mod chunk;
pub mod interval_tree;
