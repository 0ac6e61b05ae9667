//! The kernel: keys, trajectories, topology and the reversible operators.
pub mod trajectory;
pub mod budget;
pub mod key;
pub mod spectral;
pub mod operator;
pub mod topology;
pub mod compile;
pub mod invert;
pub mod base;
pub mod reversible;
pub mod strict;
