//! An editor model for metro maps: stations placed on a grid, edges between
//! them and the lines that run over those edges, together with the state the
//! editor keeps about what the user has selected and what can be undone.
use vstd::prelude::*;

pub mod error;
pub mod models;
pub mod state;

pub use error::Error;

verus! {

} // verus!
