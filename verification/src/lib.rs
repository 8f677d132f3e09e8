//! A fused arithmetic gate for folding-based proof systems, together with a
//! symbolic polynomial engine that expands this gate's constraint, duplicates
//! its variable space for two instances, and extracts the cross-term
//! coefficients needed when the instances are combined under a random
//! challenge.

pub mod field;
pub mod gate;
pub mod polynomial;
pub mod render;
pub mod rlc;
