//! Infer a temporal Postgres schema from a series of monthly account CSVs,
//! compare the months, and plan the loading of the deltas.

use vstd::prelude::*;

pub mod cli;
pub mod error;
pub mod ident;
pub mod infer;
pub mod load;
pub mod location;
pub mod manifest;
pub mod months;
pub mod number;
pub mod order;
pub mod profile;
pub mod report;
pub mod scalar;
pub mod table;
pub mod text;
pub mod util;

verus! {

} // verus!
