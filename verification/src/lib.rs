//! An exact simplex engine for small linear programs.

pub mod engine;
pub mod equations;
pub mod invariants;
pub mod laws;
pub mod model;
pub mod natural;
pub mod optimality;
pub mod problem;
pub mod rational;
pub mod readout;
pub mod region;
