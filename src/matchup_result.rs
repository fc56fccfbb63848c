use vstd::prelude::*;

use std::cmp::Ordering;

use crate::graph::Graph;

verus! {

/// The outcome of a matchup: who won, by how much, and which measure of
/// strength ranks it.
#[derive(Clone, Copy, PartialEq, Eq, Structural)]
pub struct MatchupResult {
    winner: usize,
    loser: usize,
    wins: u32,
    loses: u32,
    use_margin: bool,
}

/// The strength of a victory of `wins` against `loses`: the margin when
/// `use_margin` holds, the winner's own count otherwise.
pub open spec fn strength_of(wins: u32, loses: u32, use_margin: bool) -> int {
    if use_margin {
        wins - loses
    } else {
        wins as int
    }
}

impl MatchupResult {
    pub closed spec fn winner(&self) -> usize {
        self.winner
    }

    pub closed spec fn loser(&self) -> usize {
        self.loser
    }

    pub closed spec fn wins(&self) -> u32 {
        self.wins
    }

    pub closed spec fn loses(&self) -> u32 {
        self.loses
    }

    pub closed spec fn use_margin(&self) -> bool {
        self.use_margin
    }

    /// The strength of this victory under its own policy.
    pub open spec fn strength(&self) -> int {
        strength_of(self.wins(), self.loses(), self.use_margin())
    }

    /// Compares two victories by strength, under the policy of `self`.
    pub open spec fn order(&self, other: &MatchupResult) -> Ordering {
        let (a, b) = (
            strength_of(self.wins(), self.loses(), self.use_margin()),
            strength_of(other.wins(), other.loses(), self.use_margin()),
        );
        if a < b {
            Ordering::Less
        } else if a > b {
            Ordering::Greater
        } else {
            Ordering::Equal
        }
    }

    /// The result with the given fields.
    pub closed spec fn made(
        winner: usize,
        loser: usize,
        wins: u32,
        loses: u32,
        use_margin: bool,
    ) -> MatchupResult {
        MatchupResult { winner, loser, wins, loses, use_margin }
    }

    pub proof fn lemma_made(winner: usize, loser: usize, wins: u32, loses: u32, use_margin: bool)
        ensures
            Self::made(winner, loser, wins, loses, use_margin).winner() == winner,
            Self::made(winner, loser, wins, loses, use_margin).loser() == loser,
            Self::made(winner, loser, wins, loses, use_margin).wins() == wins,
            Self::made(winner, loser, wins, loses, use_margin).loses() == loses,
            Self::made(winner, loser, wins, loses, use_margin).use_margin() == use_margin,
    {
    }

    pub fn new(winner: usize, loser: usize, wins: u32, loses: u32, use_margin: bool) -> (r:
        MatchupResult)
        ensures
            r == Self::made(winner, loser, wins, loses, use_margin),
            r.winner() == winner,
            r.loser() == loser,
            r.wins() == wins,
            r.loses() == loses,
            r.use_margin() == use_margin,
    {
        MatchupResult { winner, loser, wins, loses, use_margin }
    }

    pub fn winner_candidate(&self) -> (r: usize)
        ensures
            r == self.winner(),
    {
        self.winner
    }

    pub fn loser_candidate(&self) -> (r: usize)
        ensures
            r == self.loser(),
    {
        self.loser
    }

    pub fn wins_count(&self) -> (r: u32)
        ensures
            r == self.wins(),
    {
        self.wins
    }

    pub fn loses_count(&self) -> (r: u32)
        ensures
            r == self.loses(),
    {
        self.loses
    }
}

impl MatchupResult {
    /// Locks the victory in: adds the edge from the loser to the winner,
    /// unless the loser can already be reached from the winner, where the
    /// edge would close a cycle. Tells whether the edge was added.
    pub fn try_lock_in(&self, graph: &mut Graph) -> (r: bool)
        requires
            old(graph).wf(),
        ensures
            r == !old(graph).reachable(self.winner(), self.loser()),
            final(graph).wf(),
            r ==> Graph::adds_edge(*old(graph), *final(graph), self.loser(), self.winner()),
            r ==> final(graph).node_set() == old(graph).node_set().insert(self.loser()).insert(
                self.winner(),
            ),
            r ==> final(graph).first_node() == if old(graph).is_empty() {
                self.loser()
            } else {
                old(graph).first_node()
            },
            r ==> !final(graph).is_empty(),
            !r ==> *final(graph) == *old(graph),
            old(graph).acyclic() ==> final(graph).acyclic(),
            forall|a: usize, b: usize| #[trigger]
                old(graph).reachable(a, b) ==> final(graph).reachable(a, b),
            final(graph).reachable(self.winner(), self.loser()) || final(graph).reachable(
                self.loser(),
                self.winner(),
            ),
    {
        let ghost before = *graph;
        let is_path = graph.is_path(&self.winner, &self.loser);
        if !is_path {
            graph.add_edge(self.loser, self.winner);
            proof {
                Graph::lemma_add_edge_keeps_paths(before, *graph, self.loser, self.winner);
                if before.acyclic() {
                    Graph::lemma_add_edge_acyclic(before, *graph, self.loser, self.winner);
                }
                graph.lemma_reach_self(self.loser);
                assert(graph.succ(self.loser) == before.succ(self.loser).push(self.winner));
                assert(graph.succ(self.loser)[before.succ(self.loser).len() as int] == self.winner);
                graph.lemma_reach_step(self.loser, self.loser, self.winner);
            }
            true
        } else {
            false
        }
    }
}

/// The smaller of the two candidates of `r`.
pub open spec fn low(r: MatchupResult) -> usize {
    if r.winner() <= r.loser() {
        r.winner()
    } else {
        r.loser()
    }
}

/// The larger of the two candidates of `r`.
pub open spec fn high(r: MatchupResult) -> usize {
    if r.winner() <= r.loser() {
        r.loser()
    } else {
        r.winner()
    }
}

/// Whether `a` ranks ahead of `b`: a stronger victory, or one just as strong
/// whose pair of candidates comes first (smaller first number, then smaller
/// second number). A tally built by `SumMatrix::new` numbers candidates in
/// name order, so there this is the order of the names.
pub open spec fn ranks_ahead(a: MatchupResult, b: MatchupResult) -> bool {
    ||| a.strength() > b.strength()
    ||| a.strength() == b.strength() && low(a) < low(b)
    ||| a.strength() == b.strength() && low(a) == low(b) && high(a) < high(b)
}

impl MatchupResult {
    /// Whether this result ranks ahead of `other`, both under one policy.
    pub fn ranks_ahead_of(&self, other: &MatchupResult) -> (r: bool)
        requires
            self.use_margin() == other.use_margin(),
        ensures
            r == ranks_ahead(*self, *other),
    {
        match self.partial_cmp(other) {
            Some(Ordering::Greater) => true,
            Some(Ordering::Equal) => {
                let (a_low, a_high) = if self.winner <= self.loser {
                    (self.winner, self.loser)
                } else {
                    (self.loser, self.winner)
                };
                let (b_low, b_high) = if other.winner <= other.loser {
                    (other.winner, other.loser)
                } else {
                    (other.loser, other.winner)
                };
                a_low < b_low || (a_low == b_low && a_high < b_high)
            },
            _ => false,
        }
    }
}

impl PartialOrd for MatchupResult {
    fn partial_cmp(&self, other: &MatchupResult) -> (r: Option<Ordering>)
        ensures
            r == Some(self.order(other)),
    {
        if self.use_margin {
            let margin: i64 = self.wins as i64 - self.loses as i64;
            let other_margin: i64 = other.wins as i64 - other.loses as i64;
            if margin < other_margin {
                Some(Ordering::Less)
            } else if margin > other_margin {
                Some(Ordering::Greater)
            } else {
                Some(Ordering::Equal)
            }
        } else {
            if self.wins < other.wins {
                Some(Ordering::Less)
            } else if self.wins > other.wins {
                Some(Ordering::Greater)
            } else {
                Some(Ordering::Equal)
            }
        }
    }
}

impl vstd::std_specs::cmp::PartialOrdSpecImpl for MatchupResult {
    open spec fn obeys_partial_cmp_spec() -> bool {
        true
    }

    open spec fn partial_cmp_spec(&self, other: &MatchupResult) -> Option<Ordering> {
        Some(self.order(other))
    }
}

} // verus!
