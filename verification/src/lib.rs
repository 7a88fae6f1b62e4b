//! Verified core of a galaxy N-body simulation: reading the configuration
//! block of a settings file, and the spatial grid that selects which bodies
//! are tested against each other for collisions.
use vstd::prelude::*;

pub mod config;
pub mod config_laws;
pub mod grid;
pub mod grid_laws;
pub mod text;

verus! {
} // verus!
