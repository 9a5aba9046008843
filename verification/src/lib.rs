//! Finite-field polynomial arithmetic over FFT-friendly evaluation domains,
//! a Bowe-Hopwood Pedersen collision-resistant hash over a twisted Edwards
//! group, and the transition records built on top of them.

pub mod field;
pub mod polynomial;
pub mod domain;
pub mod group;
pub mod bhp;
pub mod transition;
pub mod circuit;
