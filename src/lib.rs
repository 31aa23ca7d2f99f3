//! A symbolic state-vector quantum circuit simulator.
//!
//! A register's state is a sparse sum of basis kets, each holding an exact
//! Gaussian-integer amplitude, a bit pattern and the entanglement records that
//! predicate its existence. Gates act on the kets symbolically; measurement
//! prunes the kets whose records disagree with the observed outcome.

pub mod bits;
pub mod coefficient;
pub mod ket;
pub mod state;
pub mod ensemble;
pub mod parser;
