use vstd::prelude::*;

use crate::graph::Graph;

verus! {

/// A matchup whose outcome is already settled: the winner, the loser and
/// the wins of each.
pub struct Matchup {
    winner: usize,
    winning_votes: u32,
    loser: usize,
    losing_votes: u32,
}

impl Matchup {
    pub closed spec fn winner(&self) -> usize {
        self.winner
    }

    pub closed spec fn loser(&self) -> usize {
        self.loser
    }

    pub closed spec fn winner_wins(&self) -> u32 {
        self.winning_votes
    }

    pub closed spec fn loser_wins(&self) -> u32 {
        self.losing_votes
    }

    /// The outcome between `c1`, with `c1_wins`, and `c2`, with `c2_wins`:
    /// `c1` wins when it has more, `c2` otherwise.
    pub fn new(c1: usize, c1_wins: u32, c2: usize, c2_wins: u32) -> (r: Matchup)
        ensures
            r.wf(),
            c1_wins > c2_wins ==> r.winner() == c1 && r.winner_wins() == c1_wins && r.loser() == c2
                && r.loser_wins() == c2_wins,
            c1_wins <= c2_wins ==> r.winner() == c2 && r.winner_wins() == c2_wins && r.loser() == c1
                && r.loser_wins() == c1_wins,
    {
        if c1_wins > c2_wins {
            Matchup { winner: c1, winning_votes: c1_wins, loser: c2, losing_votes: c2_wins }
        } else {
            Matchup { winner: c2, winning_votes: c2_wins, loser: c1, losing_votes: c1_wins }
        }
    }

    /// The winner has at least as many wins as the loser.
    pub open spec fn wf(&self) -> bool {
        self.loser_wins() <= self.winner_wins()
    }

    /// How many more wins the winner has than the loser.
    pub fn margin(&self) -> (r: u32)
        requires
            self.wf(),
        ensures
            r == self.winner_wins() - self.loser_wins(),
    {
        self.winning_votes - self.losing_votes
    }

    /// The winner's wins.
    pub fn winning_votes(&self) -> (r: u32)
        ensures
            r == self.winner_wins(),
    {
        self.winning_votes
    }

    /// Adds the edge from the loser to the winner, unless the loser can
    /// already be reached from the winner; tells whether it was added.
    pub fn lock_in(&self, graph: &mut Graph) -> (r: bool)
        requires
            old(graph).wf(),
        ensures
            r == !old(graph).reachable(self.winner(), self.loser()),
            final(graph).wf(),
            r ==> Graph::adds_edge(*old(graph), *final(graph), self.loser(), self.winner()),
            !r ==> *final(graph) == *old(graph),
            old(graph).acyclic() ==> final(graph).acyclic(),
    {
        let ghost before = *graph;
        if !graph.is_path(&self.winner, &self.loser) {
            graph.add_edge(self.loser, self.winner);
            proof {
                if before.acyclic() {
                    Graph::lemma_add_edge_acyclic(before, *graph, self.loser, self.winner);
                }
            }
            return true;
        }
        false
    }
}

} // verus!
