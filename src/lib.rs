//! Two-dimensional Ising model on a periodic square lattice, updated by the
//! Wolff single-cluster algorithm.
pub mod grid;
pub mod random;
pub mod lattice;
