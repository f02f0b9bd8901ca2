//! Line-level history of a git repository: which cohort, author, directory,
//! file type and mail domain the lines of each sampled commit belong to, and
//! how long the lines of a commit survive.

pub mod analysis;
pub mod blame;
pub mod breakdown;
pub mod calendar;
pub mod conservation;
pub mod count;
pub mod course;
pub mod curves;
pub mod git;
pub mod matcher;
pub mod order;
pub mod path;
pub mod plot;
pub mod sample;
pub mod setup;
pub mod state;
pub mod survival;
pub mod table;
pub mod tally;
pub mod text;

use vstd::prelude::*;

verus! {

} // verus!
