//! Strided tensors over shared buffers: shapes, a graph of tensor views with
//! transpose, reshape and row-major materialisation, and a xoshiro256++
//! generator.
pub mod graph;
pub mod layout;
pub mod rng;
pub mod shape;
