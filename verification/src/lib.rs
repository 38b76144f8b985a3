//! Voxel terrain streaming: a density field sampled on a lattice is labelled against an
//! isovalue, turned into triangles by marching cubes, and cached chunk by chunk around
//! the camera.
//!
//! The library works on integers only. A density is carried as the bit pattern of an
//! IEEE-754 binary32 number, and a vertex of a mesh as the lattice edge on which it
//! lies; sampling the density and placing vertices in space are the caller's part.
//!
//! Everything here is proved against its contract, but for the three functions of
//! [`utils::grid`] that call into the `ndarray` crate: their contracts say what that
//! crate is taken to do.

pub mod entities;
pub mod input;
pub mod models;
pub mod rendering;
pub mod utils;
