//! Ranked Pairs tabulation: ballots of ranked, possibly tied candidates are
//! tallied pair by pair, the victories are ranked by strength and locked in
//! from the strongest down unless one would close a cycle, and the candidate
//! that no locked victory beats wins.
use vstd::prelude::*;

pub mod dfs;
pub mod election;
pub mod graph;
pub mod matchup;
pub mod matchup_result;
pub mod names;
pub mod ranked_pairs;
pub mod settled_matchup;
pub mod sum_matrix;
pub mod table;

verus! {

} // verus!
