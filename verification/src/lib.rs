//! A sparse, hierarchical voxel world ("brickmap").
//!
//! The world is a flat, arena-addressed sparse octree over fixed-size voxel
//! blocks ("bricks").  The library provides
//! - the brick store and the brickmap tree with lazy placement of bricks,
//! - bottom-up mip aggregation (pruning of all-empty internal nodes),
//! - pre-order traversal and extraction of the materialized leaf bricks as an
//!   instance list, optionally ordered by distance to a streaming position.
use vstd::prelude::*;

pub mod brick;
pub mod brickmap;
pub mod builder;
pub mod extract;
pub mod mipmap;

verus! {

/// Side length of a brick in voxels.
pub const BRICK_SIZE: u32 = 4;

/// Number of voxels in a brick (`BRICK_SIZE` cubed).
pub const BRICK_VOLUME: usize = 64;

/// Largest supported tree depth: the world side length in bricks is
/// `2^depth`, and this bound keeps every coordinate in `u32` and every
/// squared distance used as a sort key in `u64`.
pub const MAX_DEPTH: u32 = 28;

} // verus!
