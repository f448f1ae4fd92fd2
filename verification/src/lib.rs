//! A poker hand classifier: a validated card model, rank and suit
//! histograms, straight / flush / group detectors, and an orchestrator
//! that assigns one of the ten standard hand categories by explicit
//! priority.

pub mod deck;
pub mod laws;
pub mod poker_orderings;
pub mod texas_holdem;

use vstd::prelude::*;

verus! {

} // verus!
