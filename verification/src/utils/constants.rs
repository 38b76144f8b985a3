use vstd::prelude::*;

verus! {

/// Number of lattice points along each axis of a chunk.
pub const CHUNK_BOUNDS: usize = 8;

/// Half the edge length, in chunks, of the cube of chunks kept around the camera.
pub const CHUNK_VIEW_LIMIT: i32 = 3;

/// World-space distance between neighbouring lattice points (the number 1), as the bit
/// pattern of an IEEE-754 binary32 value.
pub const SPACING_PER_VERTEX_BITS: u32 = 0x3f80_0000;

/// Density threshold of the surface (the binary32 value nearest to 0.2), as a bit pattern.
pub const TEST_ISOVALUE_BITS: u32 = 0x3e4c_cccd;

} // verus!
