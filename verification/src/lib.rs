//! The server-side core of a voxel world: a sparse chunked block
//! grid with cached transparency, a deterministic terrain generator,
//! a face-culling mesh builder, the world store with its generation
//! and remesh queues, and the tagged-byte-message protocol through
//! which the renderer, simulation and generator actors talk. Every
//! function here is verified against its contract.
pub mod chunk;
pub mod generator;
pub mod mesh;
pub mod noise;
pub mod position;
pub mod simulation;
pub mod statistics;
pub mod terrain;
pub mod worker;
pub mod world;
