//! Voxel terrain engine core: points, octants, a compressed persistent
//! octree, Morton codes, chunks and their binary file format.
pub mod point;
pub mod octree;
pub mod chunk;
pub mod morton_code;
pub mod dimension;
pub mod iter_tools;
pub mod collision;
