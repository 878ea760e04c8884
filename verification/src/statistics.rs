//! Per-chunk bookkeeping figures reported alongside generation and
//! meshing results.
use vstd::prelude::*;

verus! {

/// What generating one chunk produced.
#[derive(Debug, Clone, Copy, PartialEq, Eq, Structural)]
pub struct ChunkInfo {
    pub non_air_block_count: u16,
}

/// What meshing one chunk produced.
#[derive(Debug, Clone, Copy, PartialEq, Eq, Structural)]
pub struct ChunkMeshInfo {
    pub face_count: usize,
}

} // verus!
