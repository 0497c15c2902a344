//! Verified solvers for a handful of CodinGame puzzles and contests.
use vstd::prelude::*;

pub mod text;
pub mod sorting;
pub mod rings;
pub mod chess;
pub mod brewing;
pub mod neighbours;
pub mod lander;
pub mod wizards;
pub mod ghost_legs;

verus! {

} // verus!
