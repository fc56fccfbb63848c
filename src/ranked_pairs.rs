use vstd::prelude::*;

use crate::election::Election;
use crate::graph::{acyclic_in, follow_in, reach_in, succ_in, EmptyGraphError, Graph};
use crate::matchup::Matchup;
use crate::matchup_result::{high, low, ranks_ahead, MatchupResult};
use crate::names::names_sorted;
use crate::sum_matrix::{named, tally, SumMatrix};

verus! {

/// How the strength of a victory is measured for ranking.
#[derive(Clone, Copy, PartialEq, Eq, Structural)]
pub enum StrengthType {
    /// The winner's wins minus the loser's.
    Margin,
    /// The winner's wins alone.
    WinningVotes,
}

impl StrengthType {
    /// Whether victories are ranked by margin.
    pub fn use_margin(&self) -> (r: bool)
        ensures
            r == (*self is Margin),
    {
        match *self {
            StrengthType::Margin => true,
            StrengthType::WinningVotes => false,
        }
    }
}

impl<'a> From<&'a StrengthType> for bool {
    /// Whether victories are ranked by margin.
    fn from(stype: &'a StrengthType) -> (r: bool) {
        match *stype {
            StrengthType::Margin => true,
            StrengthType::WinningVotes => false,
        }
    }
}

impl<'a> vstd::std_specs::convert::FromSpecImpl<&'a StrengthType> for bool {
    open spec fn obeys_from_spec() -> bool {
        true
    }

    open spec fn from_spec(stype: &'a StrengthType) -> bool {
        *stype is Margin
    }
}

/// The results of the matchups `ms`, in order, under one strength policy.
pub open spec fn results_of(ms: Seq<Matchup>, use_margin: bool) -> Seq<MatchupResult> {
    ms.map_values(
        |m: Matchup|
            MatchupResult::made(m.winner(), m.loser(), m.winner_wins(), m.loser_wins(), use_margin),
    )
}

/// `x` placed into the ranking `sorted`: before the first result that it
/// ranks ahead of.
pub open spec fn insert_ranked(sorted: Seq<MatchupResult>, x: MatchupResult) -> Seq<MatchupResult>
    decreases sorted.len(),
{
    if sorted.len() == 0 {
        seq![x]
    } else if ranks_ahead(x, sorted[0]) {
        seq![x] + sorted
    } else {
        seq![sorted[0]] + insert_ranked(sorted.drop_first(), x)
    }
}

/// The results ranked from the strongest victory down; among victories of
/// equal strength, the pair of candidates with smaller numbers (earlier
/// names) comes first.
pub open spec fn rank(s: Seq<MatchupResult>) -> Seq<MatchupResult>
    decreases s.len(),
{
    if s.len() == 0 {
        Seq::empty()
    } else {
        insert_ranked(rank(s.drop_last()), s.last())
    }
}

/// A locked graph: its adjacency map and the set of its nodes.
pub type Locked = (Map<usize, Seq<usize>>, Set<usize>);

/// The graph after an attempt to lock in `r`: the edge from loser to winner
/// is added unless the loser can be reached from the winner.
pub open spec fn lock_step(g: Locked, r: MatchupResult) -> Locked {
    if reach_in(g.0, r.winner(), r.loser()) {
        g
    } else {
        (
            g.0.insert(r.loser(), succ_in(g.0, r.loser()).push(r.winner())),
            g.1.insert(r.loser()).insert(r.winner()),
        )
    }
}

/// The graph after attempts to lock in each result of `rs`, in order.
pub open spec fn lock_all(rs: Seq<MatchupResult>) -> Locked
    decreases rs.len(),
{
    if rs.len() == 0 {
        (Map::empty(), Set::empty())
    } else {
        lock_step(lock_all(rs.drop_last()), rs.last())
    }
}

/// The winner of the ranking `rs`: from the loser of the strongest victory,
/// follow first edges of the locked graph to a node without outgoing edges.
pub open spec fn winner_of(rs: Seq<MatchupResult>) -> usize {
    follow_in(lock_all(rs).0, rs[0].loser(), lock_all(rs).1.len())
}

/// `x` is the winner or the loser of some result of `rs`.
pub open spec fn involved(rs: Seq<MatchupResult>, x: usize) -> bool {
    exists|c: int| 0 <= c < rs.len() && (#[trigger] rs[c].winner() == x || rs[c].loser() == x)
}

/// Some result of `rs` is between `x` and `y`.
pub open spec fn met(rs: Seq<MatchupResult>, x: usize, y: usize) -> bool {
    exists|c: int|
        0 <= c < rs.len() && ((#[trigger] rs[c].winner() == x && rs[c].loser() == y) || (
        rs[c].winner() == y && rs[c].loser() == x))
}

/// Every two candidates of `rs` have a result between them.
pub open spec fn every_pair_met(rs: Seq<MatchupResult>) -> bool {
    forall|x: usize, y: usize|
        involved(rs, x) && involved(rs, y) && x != y ==> #[trigger] met(rs, x, y)
}

/// The Ranked Pairs method over a tally: rank the victories by strength,
/// lock them in from the strongest down unless one would close a cycle, and
/// take the candidate that no locked victory beats.
pub struct RankedPairs {
    sum_matrix: SumMatrix,
    strength_type: StrengthType,
}

impl RankedPairs {
    /// The tally.
    pub closed spec fn tally(&self) -> SumMatrix {
        self.sum_matrix
    }

    /// The strength policy.
    pub closed spec fn strength(&self) -> StrengthType {
        self.strength_type
    }

    /// The ranking of the tally's matchups under the strength policy.
    pub open spec fn ranking(&self) -> Seq<MatchupResult> {
        rank(results_of(self.tally().matchup_seq(), self.strength() is Margin))
    }

    pub fn with_matrix(sum_matrix: SumMatrix, strength_type: StrengthType) -> (r: RankedPairs)
        ensures
            r.tally() == sum_matrix,
            r.strength() == strength_type,
    {
        RankedPairs { sum_matrix, strength_type }
    }

    /// The tabulation of all ballots of `election`.
    pub fn with_election(election: &Election, strength_type: StrengthType) -> (r: RankedPairs)
        requires
            forall|x: Seq<char>, y: Seq<char>| x != y ==> #[trigger] tally(election@, x, y) <= u32::MAX,
        ensures
            r.tally().wf(),
            names_sorted(r.tally().names()),
            forall|z: Seq<char>| #[trigger] r.tally().names().contains(z) <==> named(election@, z),
            forall|x: Seq<char>, y: Seq<char>|
                x != y ==> #[trigger] r.tally().wins(x, y) == tally(election@, x, y),
            r.strength() == strength_type,
    {
        RankedPairs::with_matrix(SumMatrix::new(election), strength_type)
    }
}

/// Where `x` goes into `sorted`: the first position whose result it ranks
/// ahead of.
proof fn lemma_insert_ranked(sorted: Seq<MatchupResult>, x: MatchupResult, pos: int)
    requires
        0 <= pos <= sorted.len(),
        forall|q: int| 0 <= q < pos ==> !ranks_ahead(x, sorted[q]),
        pos < sorted.len() ==> ranks_ahead(x, sorted[pos]),
    ensures
        insert_ranked(sorted, x) == sorted.insert(pos, x),
    decreases pos,
{
    if sorted.len() == 0 {
        assert(seq![x] =~= sorted.insert(pos, x));
    } else if pos == 0 {
        assert(seq![x] + sorted =~= sorted.insert(0, x));
    } else {
        let rest = sorted.drop_first();
        assert forall|q: int| 0 <= q < pos - 1 implies !ranks_ahead(x, rest[q]) by {
            assert(rest[q] == sorted[q + 1]);
        }
        lemma_insert_ranked(rest, x, pos - 1);
        assert(seq![sorted[0]] + rest.insert(pos - 1, x) =~= sorted.insert(pos, x));
    }
}

impl RankedPairs {
    /// The results of all matchups, ranked from the strongest victory down.
    fn ranked_pairs(&self) -> (r: Vec<MatchupResult>)
        requires
            self.tally().wf(),
        ensures
            r@ == self.ranking(),
            forall|k: int|
                0 <= k < r@.len() ==> {
                    &&& (#[trigger] r@[k]).winner() < self.tally().names().len()
                    &&& r@[k].loser() < self.tally().names().len()
                    &&& r@[k].winner() != r@[k].loser()
                },
    {
        let use_margin = self.strength_type.use_margin();
        let ghost ms = self.sum_matrix.matchup_seq();
        let ghost rs = results_of(ms, use_margin);
        let ghost n = self.sum_matrix.names().len();
        let mut ranked: Vec<MatchupResult> = Vec::new();
        let mut it = self.sum_matrix.matchups();
        let ghost mut k: int = 0;
        proof {
            assert(ms.skip(0) =~= ms);
            assert(rs.take(0) =~= Seq::<MatchupResult>::empty());
        }
        loop
            invariant
                self.tally().wf(),
                use_margin == (self.strength() is Margin),
                ms == self.tally().matchup_seq(),
                rs == results_of(ms, use_margin),
                n == self.tally().names().len(),
                0 <= k <= ms.len(),
                it.remaining() == ms.skip(k),
                ranked@ == rank(rs.take(k)),
                forall|c: int|
                    0 <= c < ranked@.len() ==> {
                        &&& (#[trigger] ranked@[c]).winner() < n
                        &&& ranked@[c].loser() < n
                        &&& ranked@[c].winner() != ranked@[c].loser()
                        &&& ranked@[c].use_margin() == use_margin
                    },
            ensures
                k == ms.len(),
                ranked@ == rank(rs.take(k)),
                forall|c: int|
                    0 <= c < ranked@.len() ==> {
                        &&& (#[trigger] ranked@[c]).winner() < n
                        &&& ranked@[c].loser() < n
                        &&& ranked@[c].winner() != ranked@[c].loser()
                        &&& ranked@[c].use_margin() == use_margin
                    },
            decreases ms.len() - k,
        {
            match it.next() {
                None => {
                    break;
                },
                Some(m) => {
                    let res = m.result(use_margin);
                    proof {
                        assert(*m == ms[k]);
                        assert(res == rs[k]);
                        MatchupResult::lemma_made(
                            m.winner(),
                            m.loser(),
                            m.winner_wins(),
                            m.loser_wins(),
                            use_margin,
                        );
                    }
                    let mut pos: usize = 0;
                    while pos < ranked.len()
                        invariant
                            pos <= ranked@.len(),
                            forall|q: int| 0 <= q < pos ==> !ranks_ahead(res, ranked@[q]),
                            forall|c: int|
                                0 <= c < ranked@.len() ==> (#[trigger] ranked@[c]).use_margin()
                                    == use_margin,
                            res.use_margin() == use_margin,
                        ensures
                            pos <= ranked@.len(),
                            forall|q: int| 0 <= q < pos ==> !ranks_ahead(res, ranked@[q]),
                            pos < ranked@.len() ==> ranks_ahead(res, ranked@[pos as int]),
                        decreases ranked@.len() - pos,
                    {
                        if res.ranks_ahead_of(&ranked[pos]) {
                            break;
                        }
                        pos = pos + 1;
                    }
                    proof {
                        lemma_insert_ranked(ranked@, res, pos as int);
                        assert(rs.take(k + 1).drop_last() =~= rs.take(k));
                        assert(rs.take(k + 1).last() == rs[k]);
                        assert(ms.skip(k).drop_first() =~= ms.skip(k + 1));
                    }
                    ranked.insert(pos, res);
                    proof {
                        k = k + 1;
                    }
                },
            }
        }
        proof {
            assert(rs.take(k) =~= rs);
        }
        ranked
    }
}

impl RankedPairs {
    /// The Ranked Pairs winner of the tally; an error when there is no
    /// matchup at all.
    pub fn get_winner(&self) -> (r: Result<String, EmptyGraphError>)
        requires
            self.tally().wf(),
        ensures
            r is Err <==> self.tally().matchup_seq().len() == 0,
            match r {
                Ok(s) => {
                    let g = lock_all(self.ranking());
                    let w = winner_of(self.ranking());
                    &&& w < self.tally().names().len()
                    &&& s@ == self.tally().names()[w as int]
                    &&& g.1.contains(w)
                    &&& !g.0.contains_key(w)
                    &&& acyclic_in(g.0)
                    &&& forall|v: usize| #[trigger] involved(self.ranking(), v) ==> g.1.contains(v)
                    &&& every_pair_met(self.ranking()) ==> forall|v: usize|
                        g.1.contains(v) && !g.0.contains_key(v) ==> v == w
                },
                Err(e) => e.message() == "Graph was empty"@,
            },
    {
        let ranked = self.ranked_pairs();
        let ghost rs = ranked@;
        let ghost n = self.sum_matrix.names().len();
        let mut graph = Graph::new();
        let mut k: usize = 0;
        proof {
            assert(rs.take(0) =~= Seq::<MatchupResult>::empty());
            assert(graph.node_set() =~= Set::<usize>::empty());
            assert forall|p: Seq<usize>| #[trigger] graph.is_walk(p) && p.len() >= 2 implies p[0]
                != p.last() by {
                let z: int = 0;
                assert(graph.edge(p[z], p[z + 1]));
            }
            assert(graph@ =~= Map::<usize, Seq<usize>>::empty()) by {
                assert forall|u: usize| !graph@.contains_key(u) by {}
            }
        }
        while k < ranked.len()
            invariant
                self.tally().wf(),
                rs == ranked@,
                rs == self.ranking(),
                n == self.tally().names().len(),
                forall|c: int|
                    0 <= c < rs.len() ==> {
                        &&& (#[trigger] rs[c]).winner() < n
                        &&& rs[c].loser() < n
                        &&& rs[c].winner() != rs[c].loser()
                    },
                k <= rs.len(),
                graph.wf(),
                graph.acyclic(),
                graph@ == lock_all(rs.take(k as int)).0,
                graph.node_set() == lock_all(rs.take(k as int)).1,
                k == 0 ==> graph.is_empty(),
                k > 0 ==> !graph.is_empty() && graph.first_node() == rs[0].loser(),
                forall|v: usize| #[trigger]
                    graph.node_set().contains(v) ==> v < n && involved(rs, v),
                forall|c: int|
                    0 <= c < k ==> #[trigger] graph.reachable(rs[c].winner(), rs[c].loser())
                        || graph.reachable(rs[c].loser(), rs[c].winner()),
                forall|c: int|
                    0 <= c < k ==> graph.node_set().contains(#[trigger] rs[c].winner())
                        && graph.node_set().contains(rs[c].loser()),
            decreases rs.len() - k,
        {
            let ghost before = graph;
            let res = &ranked[k];
            proof {
                graph.lemma_as_map();
                if k == 0 {
                    graph.lemma_empty_reach(res.winner(), res.loser());
                }
                assert(rs.take(k + 1).drop_last() =~= rs.take(k as int));
                assert(rs.take(k + 1).last() == rs[k as int]);
            }
            let locked = res.try_lock_in(&mut graph);
            proof {
                graph.lemma_as_map();
                if locked {
                    assert(graph@ == lock_all(rs.take(k + 1)).0);
                    assert(graph.node_set() =~= lock_all(rs.take(k + 1)).1);
                    assert forall|v: usize| #[trigger] graph.node_set().contains(v) implies v < n
                        && involved(rs, v) by {
                        if v == res.winner() || v == res.loser() {
                            assert(rs[k as int].winner() == v || rs[k as int].loser() == v);
                        } else {
                            assert(before.node_set().contains(v));
                        }
                    }
                }
                if !locked {
                    let p = choose|p: Seq<usize>|
                        #[trigger] graph.is_walk(p) && p[0] == res.winner() && p.last() == res.loser();
                    let z: int = 0;
                    assert(graph.edge(p[z], p[z + 1]));
                    let t = p.len() - 2;
                    assert(graph.edge(p[t], p[t + 1]));
                }
                assert forall|c: int|
                    0 <= c < k + 1 implies graph.node_set().contains(#[trigger] rs[c].winner())
                    && graph.node_set().contains(rs[c].loser()) by {
                    if c < k {
                        assert(before.node_set().contains(rs[c].winner()));
                        assert(before.node_set().contains(rs[c].loser()));
                    }
                }
                assert forall|c: int|
                    0 <= c < k + 1 implies #[trigger] graph.reachable(rs[c].winner(), rs[c].loser())
                    || graph.reachable(rs[c].loser(), rs[c].winner()) by {
                    if c < k {
                        if before.reachable(rs[c].winner(), rs[c].loser()) {
                            assert(graph.reachable(rs[c].winner(), rs[c].loser()));
                        } else {
                            assert(graph.reachable(rs[c].loser(), rs[c].winner()));
                        }
                    }
                }
            }
            k = k + 1;
        }
        proof {
            assert(rs.take(k as int) =~= rs);
            graph.lemma_as_map();
            assert(self.tally().matchup_seq().len() == rs.len()) by {
                crate::ranked_pairs::lemma_rank_len(
                    results_of(self.tally().matchup_seq(), self.strength() is Margin),
                );
            }
        }
        match graph.find_sink() {
            Ok(w) => {
                proof {
                    assert(graph.node_set().contains(w));
                    assert forall|v: usize| #[trigger] involved(rs, v) implies graph.node_set().contains(v) by {
                        let c = choose|c: int|
                            0 <= c < rs.len() && (#[trigger] rs[c].winner() == v || rs[c].loser() == v);
                        assert(graph.node_set().contains(rs[c].winner()));
                    }
                    if every_pair_met(rs) {
                        assert forall|v: usize|
                            graph.node_set().contains(v) && !graph@.contains_key(v) implies v == w by {
                            assert forall|a: usize, b: usize|
                                graph.node_set().contains(a) && graph.node_set().contains(b) && a != b
                                    implies (#[trigger] graph.reachable(a, b) || graph.reachable(b, a)) by {
                                assert(met(rs, a, b));
                                let c = choose|c: int|
                                    0 <= c < rs.len() && ((#[trigger] rs[c].winner() == a && rs[c].loser()
                                        == b) || (rs[c].winner() == b && rs[c].loser() == a));
                                assert(graph.reachable(rs[c].winner(), rs[c].loser()) || graph.reachable(
                                    rs[c].loser(),
                                    rs[c].winner(),
                                ));
                            }
                            graph.lemma_unique_sink(w, v);
                        }
                    }
                }
                Ok(self.sum_matrix.name_of(w).clone())
            },
            Err(e) => Err(e),
        }
    }
}

/// Ranking keeps the number of results.
pub proof fn lemma_rank_len(s: Seq<MatchupResult>)
    ensures
        rank(s).len() == s.len(),
    decreases s.len(),
{
    if s.len() > 0 {
        lemma_rank_len(s.drop_last());
        lemma_insert_ranked_len(rank(s.drop_last()), s.last());
    }
}

proof fn lemma_insert_ranked_len(sorted: Seq<MatchupResult>, x: MatchupResult)
    ensures
        insert_ranked(sorted, x).len() == sorted.len() + 1,
    decreases sorted.len(),
{
    if sorted.len() > 0 && !ranks_ahead(x, sorted[0]) {
        lemma_insert_ranked_len(sorted.drop_first(), x);
    }
}

/// Each result of `s` ranks ahead of every later one.
pub open spec fn sorted_strictly(s: Seq<MatchupResult>) -> bool {
    forall|i: int, j: int| 0 <= i < j < s.len() ==> ranks_ahead(#[trigger] s[i], #[trigger] s[j])
}

/// No two results of `s` are between the same two candidates.
pub open spec fn distinct_pairs(s: Seq<MatchupResult>) -> bool {
    forall|i: int, j: int|
        0 <= i < s.len() && 0 <= j < s.len() && i != j ==> (low(#[trigger] s[i]), high(s[i])) != (
        low(#[trigger] s[j]),
        high(s[j]),
        )
}

proof fn lemma_insert_sorted(sorted: Seq<MatchupResult>, x: MatchupResult)
    requires
        sorted_strictly(sorted),
        forall|i: int| 0 <= i < sorted.len() ==> (low(#[trigger] sorted[i]), high(sorted[i])) != (
        low(x),
        high(x),
        ),
    ensures
        sorted_strictly(insert_ranked(sorted, x)),
        forall|y: MatchupResult| #[trigger]
            insert_ranked(sorted, x).contains(y) <==> (sorted.contains(y) || y == x),
    decreases sorted.len(),
{
    let r = insert_ranked(sorted, x);
    if sorted.len() == 0 {
        assert(r =~= seq![x]);
        assert forall|y: MatchupResult| #[trigger] r.contains(y) <==> (sorted.contains(y) || y == x) by {
            if y == x {
                assert(r[0] == x);
            }
        }
    } else if ranks_ahead(x, sorted[0]) {
        assert(r == seq![x] + sorted);
        assert forall|i: int, j: int| 0 <= i < j < r.len() implies ranks_ahead(
            #[trigger] r[i],
            #[trigger] r[j],
        ) by {
            if i == 0 {
                if j > 1 {
                    assert(ranks_ahead(sorted[0], sorted[j - 1]));
                }
            } else {
                assert(ranks_ahead(sorted[i - 1], sorted[j - 1]));
            }
        }
        assert forall|y: MatchupResult| #[trigger] r.contains(y) <==> (sorted.contains(y) || y == x) by {
            if r.contains(y) {
                let i = choose|i: int| 0 <= i < r.len() && r[i] == y;
                if i > 0 {
                    assert(sorted[i - 1] == y);
                }
            }
            if sorted.contains(y) {
                let i = choose|i: int| 0 <= i < sorted.len() && sorted[i] == y;
                assert(r[i + 1] == y);
            }
            if y == x {
                assert(r[0] == x);
            }
        }
    } else {
        let rest = sorted.drop_first();
        assert forall|i: int, j: int| 0 <= i < j < rest.len() implies ranks_ahead(
            #[trigger] rest[i],
            #[trigger] rest[j],
        ) by {
            assert(ranks_ahead(sorted[i + 1], sorted[j + 1]));
        }
        assert forall|i: int| 0 <= i < rest.len() implies (low(#[trigger] rest[i]), high(rest[i])) != (
        low(x),
        high(x),
        ) by {
            assert(rest[i] == sorted[i + 1]);
        }
        lemma_insert_sorted(rest, x);
        let t = insert_ranked(rest, x);
        assert(r == seq![sorted[0]] + t);
        assert(ranks_ahead(sorted[0], x)) by {
            assert((low(sorted[0]), high(sorted[0])) != (low(x), high(x)));
        }
        assert forall|j: int| 0 <= j < t.len() implies ranks_ahead(sorted[0], #[trigger] t[j]) by {
            assert(t.contains(t[j]));
            if t[j] != x {
                let k = choose|k: int| 0 <= k < rest.len() && rest[k] == t[j];
                assert(ranks_ahead(sorted[0], sorted[k + 1]));
            }
        }
        assert forall|i: int, j: int| 0 <= i < j < r.len() implies ranks_ahead(
            #[trigger] r[i],
            #[trigger] r[j],
        ) by {
            if i == 0 {
                assert(ranks_ahead(sorted[0], t[j - 1]));
            } else {
                assert(ranks_ahead(t[i - 1], t[j - 1]));
            }
        }
        assert forall|y: MatchupResult| #[trigger] r.contains(y) <==> (sorted.contains(y) || y == x) by {
            if r.contains(y) {
                let i = choose|i: int| 0 <= i < r.len() && r[i] == y;
                if i > 0 {
                    assert(t.contains(y));
                    if rest.contains(y) {
                        let k = choose|k: int| 0 <= k < rest.len() && rest[k] == y;
                        assert(sorted[k + 1] == y);
                    }
                } else {
                    assert(sorted[0] == y);
                }
            }
            if sorted.contains(y) {
                let i = choose|i: int| 0 <= i < sorted.len() && sorted[i] == y;
                if i == 0 {
                    assert(r[0] == y);
                } else {
                    assert(rest[i - 1] == y);
                    assert(t.contains(y));
                    let k = choose|k: int| 0 <= k < t.len() && t[k] == y;
                    assert(r[k + 1] == y);
                }
            }
            if y == x {
                assert(t.contains(x));
                let k = choose|k: int| 0 <= k < t.len() && t[k] == x;
                assert(r[k + 1] == x);
            }
        }
    }
}

/// Ranking results between distinct pairs sorts them strictly and keeps
/// exactly the same results.
pub proof fn lemma_rank_sorted(s: Seq<MatchupResult>)
    requires
        distinct_pairs(s),
    ensures
        sorted_strictly(rank(s)),
        forall|y: MatchupResult| #[trigger] rank(s).contains(y) <==> s.contains(y),
    decreases s.len(),
{
    if s.len() == 0 {
    } else {
        let d = s.drop_last();
        assert forall|i: int, j: int|
            0 <= i < d.len() && 0 <= j < d.len() && i != j implies (low(#[trigger] d[i]), high(d[i]))
            != (low(#[trigger] d[j]), high(d[j])) by {
            assert(d[i] == s[i] && d[j] == s[j]);
        }
        lemma_rank_sorted(d);
        let rd = rank(d);
        assert forall|i: int| 0 <= i < rd.len() implies (low(#[trigger] rd[i]), high(rd[i])) != (
        low(s.last()),
        high(s.last()),
        ) by {
            assert(rd.contains(rd[i]));
            let k = choose|k: int| 0 <= k < d.len() && d[k] == rd[i];
            assert(s[k] == rd[i]);
            assert(s[s.len() - 1] == s.last());
        }
        lemma_insert_sorted(rd, s.last());
        assert forall|y: MatchupResult| #[trigger] rank(s).contains(y) <==> s.contains(y) by {
            if d.contains(y) {
                let k = choose|k: int| 0 <= k < d.len() && d[k] == y;
                assert(s[k] == y);
            }
            if s.contains(y) && y != s.last() {
                let k = choose|k: int| 0 <= k < s.len() && s[k] == y;
                assert(d[k] == y);
            }
            if y == s.last() {
                assert(s[s.len() - 1] == y);
            }
        }
    }
}

/// Two strictly sorted sequences of the same results are equal.
pub proof fn lemma_sorted_unique(s1: Seq<MatchupResult>, s2: Seq<MatchupResult>)
    requires
        sorted_strictly(s1),
        sorted_strictly(s2),
        forall|y: MatchupResult| #[trigger] s1.contains(y) <==> s2.contains(y),
    ensures
        s1 == s2,
    decreases s1.len(),
{
    if s1.len() == 0 {
        if s2.len() > 0 {
            assert(s2.contains(s2[0]));
            assert(s1.contains(s2[0]));
        }
        assert(s1 =~= s2);
    } else {
        assert(s1.contains(s1[0]));
        let a = s1[0];
        let b = s2[0];
        assert(s2.contains(b));
        assert(s1.contains(b));
        assert(s2.contains(a));
        if a != b {
            let j = choose|j: int| 0 <= j < s2.len() && s2[j] == a;
            let i = choose|i: int| 0 <= i < s1.len() && s1[i] == b;
            assert(ranks_ahead(s2[0], s2[j]));
            assert(ranks_ahead(s1[0], s1[i]));
        }
        let r1 = s1.drop_first();
        let r2 = s2.drop_first();
        assert forall|i: int, j: int| 0 <= i < j < r1.len() implies ranks_ahead(
            #[trigger] r1[i],
            #[trigger] r1[j],
        ) by {
            assert(ranks_ahead(s1[i + 1], s1[j + 1]));
        }
        assert forall|i: int, j: int| 0 <= i < j < r2.len() implies ranks_ahead(
            #[trigger] r2[i],
            #[trigger] r2[j],
        ) by {
            assert(ranks_ahead(s2[i + 1], s2[j + 1]));
        }
        assert forall|y: MatchupResult| #[trigger] r1.contains(y) <==> r2.contains(y) by {
            if r1.contains(y) {
                let k = choose|k: int| 0 <= k < r1.len() && r1[k] == y;
                assert(s1[k + 1] == y);
                assert(ranks_ahead(s1[0], s1[k + 1]));
                assert(s1.contains(y));
                assert(s2.contains(y));
                let m = choose|m: int| 0 <= m < s2.len() && s2[m] == y;
                assert(m != 0);
                assert(r2[m - 1] == y);
            }
            if r2.contains(y) {
                let k = choose|k: int| 0 <= k < r2.len() && r2[k] == y;
                assert(s2[k + 1] == y);
                assert(ranks_ahead(s2[0], s2[k + 1]));
                assert(s2.contains(y));
                assert(s1.contains(y));
                let m = choose|m: int| 0 <= m < s1.len() && s1[m] == y;
                assert(m != 0);
                assert(r1[m - 1] == y);
            }
        }
        lemma_sorted_unique(r1, r2);
        assert(s1 =~= s2) by {
            assert forall|i: int| 0 <= i < s1.len() implies s1[i] == s2[i] by {
                if i > 0 {
                    assert(r1[i - 1] == r2[i - 1]);
                }
            }
        }
    }
}

proof fn lemma_results_distinct(m: SumMatrix, use_margin: bool)
    requires
        m.wf(),
    ensures
        distinct_pairs(results_of(m.matchup_seq(), use_margin)),
        forall|i: int|
            0 <= i < m.matchup_seq().len() ==> low(
                #[trigger] results_of(m.matchup_seq(), use_margin)[i],
            ) == m.matchup_seq()[i].first() && high(results_of(m.matchup_seq(), use_margin)[i])
                == m.matchup_seq()[i].second(),
{
    let ms = m.matchup_seq();
    let rs = results_of(ms, use_margin);
    assert forall|i: int| 0 <= i < ms.len() implies low(#[trigger] rs[i]) == ms[i].first() && high(
        rs[i],
    ) == ms[i].second() by {
        let mm = ms[i];
        MatchupResult::lemma_made(mm.winner(), mm.loser(), mm.winner_wins(), mm.loser_wins(), use_margin);
        assert(mm.first() < mm.second());
    }
    assert forall|i: int, j: int|
        0 <= i < rs.len() && 0 <= j < rs.len() && i != j implies (low(#[trigger] rs[i]), high(rs[i]))
        != (low(#[trigger] rs[j]), high(rs[j])) by {
        if i < j {
            assert(ms[i].first() != ms[j].first() || ms[i].second() != ms[j].second());
        } else {
            assert(ms[j].first() != ms[i].first() || ms[j].second() != ms[i].second());
        }
    }
}

proof fn lemma_results_follow(a: Seq<Matchup>, b: Seq<Matchup>, use_margin: bool, y: MatchupResult)
    requires
        forall|m: Matchup| a.contains(m) ==> b.contains(m),
        results_of(a, use_margin).contains(y),
    ensures
        results_of(b, use_margin).contains(y),
{
    let ra = results_of(a, use_margin);
    let i = choose|i: int| 0 <= i < ra.len() && ra[i] == y;
    assert(a.contains(a[i]));
    let j = choose|j: int| 0 <= j < b.len() && b[j] == a[i];
    assert(results_of(b, use_margin)[j] == y);
}

/// Tabulating the same ballots under the same policy always names the same
/// winner. Two tallies of one election agree on the names and on every
/// count (which is what `with_election` states), so they hold the same
/// matchups, perhaps in another order; the ranking, a strict order,
/// does not depend on that order.
pub proof fn lemma_same_ballots_same_winner(a: &RankedPairs, b: &RankedPairs)
    requires
        a.tally().wf(),
        b.tally().wf(),
        a.tally().names() == b.tally().names(),
        forall|x: Seq<char>, y: Seq<char>|
            x != y ==> #[trigger] a.tally().wins(x, y) == b.tally().wins(x, y),
        a.strength() == b.strength(),
    ensures
        a.ranking() == b.ranking(),
        a.tally().matchup_seq().len() == b.tally().matchup_seq().len(),
        winner_of(a.ranking()) == winner_of(b.ranking()),
{
    let (ta, tb) = (a.tally(), b.tally());
    crate::sum_matrix::lemma_same_counts_same_matchups(&ta, &tb);
    let um = a.strength() is Margin;
    let ra = results_of(ta.matchup_seq(), um);
    let rb = results_of(tb.matchup_seq(), um);
    lemma_results_distinct(ta, um);
    lemma_results_distinct(tb, um);
    assert forall|y: MatchupResult| #[trigger] ra.contains(y) <==> rb.contains(y) by {
        if ra.contains(y) {
            lemma_results_follow(ta.matchup_seq(), tb.matchup_seq(), um, y);
        }
        if rb.contains(y) {
            lemma_results_follow(tb.matchup_seq(), ta.matchup_seq(), um, y);
        }
    }
    lemma_rank_sorted(ra);
    lemma_rank_sorted(rb);
    assert forall|y: MatchupResult| #[trigger] rank(ra).contains(y) <==> rank(rb).contains(y) by {
        assert(rank(ra).contains(y) == ra.contains(y));
        assert(rank(rb).contains(y) == rb.contains(y));
    }
    lemma_sorted_unique(rank(ra), rank(rb));
    lemma_rank_len(ra);
    lemma_rank_len(rb);
}

/// The winner does not depend on the order of the ballots: two tabulations,
/// under one policy, of the same ballots in any order (as `with_election`
/// describes them) number the candidates alike, count alike, rank alike and
/// name the same winner.
pub proof fn lemma_ballot_order_irrelevant(
    a: &RankedPairs,
    b: &RankedPairs,
    e1: Seq<Seq<Seq<Seq<char>>>>,
    e2: Seq<Seq<Seq<Seq<char>>>>,
)
    requires
        e1.to_multiset() == e2.to_multiset(),
        a.tally().wf(),
        b.tally().wf(),
        names_sorted(a.tally().names()),
        names_sorted(b.tally().names()),
        forall|z: Seq<char>| #[trigger] a.tally().names().contains(z) <==> named(e1, z),
        forall|z: Seq<char>| #[trigger] b.tally().names().contains(z) <==> named(e2, z),
        forall|x: Seq<char>, y: Seq<char>| x != y ==> #[trigger] a.tally().wins(x, y) == tally(e1, x, y),
        forall|x: Seq<char>, y: Seq<char>| x != y ==> #[trigger] b.tally().wins(x, y) == tally(e2, x, y),
        a.strength() == b.strength(),
    ensures
        a.tally().names() == b.tally().names(),
        a.tally().matchup_seq().len() == b.tally().matchup_seq().len(),
        a.ranking() == b.ranking(),
        winner_of(a.ranking()) == winner_of(b.ranking()),
{
    assert forall|z: Seq<char>| #[trigger] a.tally().names().contains(z) <==> b.tally().names().contains(z) by {
        crate::sum_matrix::lemma_named_reordered(e1, e2, z);
    }
    crate::names::lemma_sorted_names_unique(a.tally().names(), b.tally().names());
    assert forall|x: Seq<char>, y: Seq<char>| x != y implies #[trigger] a.tally().wins(x, y) == b.tally().wins(x, y) by {
        crate::sum_matrix::lemma_tally_reordered(e1, e2, x, y);
    }
    lemma_same_ballots_same_winner(a, b);
}

/// When every two candidates of the tally are ranked apart on some ballot
/// (one has a win over the other), every two candidates of the ranking have
/// a result between them, so the winner is the one node of the locked graph
/// without an outgoing edge.
pub proof fn lemma_all_pairs_ranked_apart(rp: &RankedPairs)
    requires
        rp.tally().wf(),
        forall|i: int, j: int|
            0 <= i < j < rp.tally().names().len() ==> #[trigger] rp.tally().wins(
                rp.tally().names()[i],
                rp.tally().names()[j],
            ) + rp.tally().wins(rp.tally().names()[j], rp.tally().names()[i]) > 0,
    ensures
        every_pair_met(rp.ranking()),
{
    let t = rp.tally();
    let um = rp.strength() is Margin;
    let ms = t.matchup_seq();
    let rs = results_of(ms, um);
    let n = t.names().len();
    lemma_results_distinct(t, um);
    lemma_rank_sorted(rs);
    let ranked = rp.ranking();
    assert forall|x: usize| #[trigger] involved(ranked, x) implies x < n by {
        let c = choose|c: int|
            0 <= c < ranked.len() && (#[trigger] ranked[c].winner() == x || ranked[c].loser() == x);
        assert(ranked.contains(ranked[c]));
        assert(rs.contains(ranked[c]));
        let k = choose|k: int| 0 <= k < rs.len() && rs[k] == ranked[c];
        let m = ms[k];
        MatchupResult::lemma_made(m.winner(), m.loser(), m.winner_wins(), m.loser_wins(), um);
    }
    assert forall|x: usize, y: usize|
        involved(ranked, x) && involved(ranked, y) && x != y implies #[trigger] met(ranked, x, y) by {
        let (i, j) = if x < y {
            (x as int, y as int)
        } else {
            (y as int, x as int)
        };
        assert(t.wins(t.names()[i], t.names()[j]) + t.wins(t.names()[j], t.names()[i]) > 0);
        t.lemma_pair_present(i, j);
        let k = choose|k: int|
            0 <= k < ms.len() && (#[trigger] ms[k]).first() == i && ms[k].second() == j;
        let m = ms[k];
        MatchupResult::lemma_made(m.winner(), m.loser(), m.winner_wins(), m.loser_wins(), um);
        assert(rs.contains(rs[k]));
        assert(ranked.contains(rs[k]));
        let c = choose|c: int| 0 <= c < ranked.len() && ranked[c] == rs[k];
        assert(ranked[c].winner() == x && ranked[c].loser() == y || ranked[c].winner() == y
            && ranked[c].loser() == x);
    }
}

} // verus!
