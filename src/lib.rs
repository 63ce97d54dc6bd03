//! Two-line element sets for the SGP4 orbit propagator: the fixed-column
//! text format, its mean elements in exact decimal form, and the gravity
//! model tables.
use vstd::prelude::*;

pub mod fields;
pub mod sgp4;
pub mod utils;

verus! {

} // verus!
