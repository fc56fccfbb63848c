use vstd::prelude::*;

use crate::election::{Ballot, Election};
use crate::matchup::Matchup;
use crate::names::{lemma_name_order, name_seq, names_sorted, sort_names};
use crate::table::{pair_key, Table, TableEntry, Values};

verus! {

/// Occurrences of the name `x` in the rank-group `g`.
pub open spec fn count_in(g: Seq<Seq<char>>, x: Seq<char>) -> nat
    decreases g.len(),
{
    if g.len() == 0 {
        0
    } else {
        count_in(g.drop_last(), x) + if g.last() == x {
            1nat
        } else {
            0nat
        }
    }
}

/// Occurrences of the name `y` in the rank-groups `lo .. hi` of ballot `b`.
pub open spec fn count_between(b: Seq<Seq<Seq<char>>>, lo: int, hi: int, y: Seq<char>) -> nat
    decreases hi - lo,
{
    if hi <= lo {
        0
    } else {
        count_between(b, lo, hi - 1, y) + count_in(b[hi - 1], y)
    }
}

/// The credits that the first `n` rank-groups of ballot `b` give `x` over
/// `y`: each occurrence of `x` in a group counts once for each occurrence of
/// `y` in a later group.
pub open spec fn prefix_wins(b: Seq<Seq<Seq<char>>>, n: int, x: Seq<char>, y: Seq<char>) -> nat
    decreases n,
{
    if n <= 0 {
        0
    } else {
        prefix_wins(b, n - 1, x, y) + count_in(b[n - 1], x) * count_between(
            b,
            n,
            b.len() as int,
            y,
        )
    }
}

/// How many times ballot `b` ranks `x` strictly ahead of `y`. Candidates tied
/// in one rank-group give each other nothing.
pub open spec fn ballot_wins(b: Seq<Seq<Seq<char>>>, x: Seq<char>, y: Seq<char>) -> nat {
    prefix_wins(b, b.len() as int, x, y)
}

/// How many times the ballots of `e` rank `x` strictly ahead of `y`, in all.
pub open spec fn tally(e: Seq<Seq<Seq<Seq<char>>>>, x: Seq<char>, y: Seq<char>) -> nat
    decreases e.len(),
{
    if e.len() == 0 {
        0
    } else {
        tally(e.drop_last(), x, y) + ballot_wins(e.last(), x, y)
    }
}

/// `ns` with `x` added at the end, unless it holds `x` already.
pub open spec fn register(ns: Seq<Seq<char>>, x: Seq<char>) -> Seq<Seq<char>> {
    if ns.contains(x) {
        ns
    } else {
        ns.push(x)
    }
}

/// `ns` with the names of the group `g` registered in order.
pub open spec fn register_group(ns: Seq<Seq<char>>, g: Seq<Seq<char>>) -> Seq<Seq<char>>
    decreases g.len(),
{
    if g.len() == 0 {
        ns
    } else {
        register(register_group(ns, g.drop_last()), g.last())
    }
}

/// `ns` with the names of ballot `b` registered, group after group.
pub open spec fn register_ballot(ns: Seq<Seq<char>>, b: Seq<Seq<Seq<char>>>) -> Seq<Seq<char>>
    decreases b.len(),
{
    if b.len() == 0 {
        ns
    } else {
        register_group(register_ballot(ns, b.drop_last()), b.last())
    }
}

/// `ns` with the names of all ballots of `e` registered, ballot after ballot.
pub open spec fn register_all(ns: Seq<Seq<char>>, e: Seq<Seq<Seq<Seq<char>>>>) -> Seq<Seq<char>>
    decreases e.len(),
{
    if e.len() == 0 {
        ns
    } else {
        register_ballot(register_all(ns, e.drop_last()), e.last())
    }
}

/// The pairwise tally: for every unordered pair of candidates that one
/// ballot or more ranks apart, a matchup with the wins of each over the other.
///
/// A tally built by `new` numbers its candidates in the order of their names
/// (`add_vote` numbers names it has not seen after the others); a matchup's
/// first candidate is the one with the smaller number.
pub struct SumMatrix {
    names: Vec<String>,
    table: Table<Matchup>,
}

/// A cursor over the matchups of a tally.
pub struct Matchups<'a> {
    adapt: Values<'a, Matchup>,
}

impl SumMatrix {
    /// The candidate names, by number.
    pub closed spec fn names(&self) -> Seq<Seq<char>> {
        self.names@.map_values(|s: String| s@)
    }

    /// The matchups, in the order in which their pairs were first credited.
    pub closed spec fn matchup_seq(&self) -> Seq<Matchup> {
        self.table.value_seq()
    }

    /// The matchup of the candidates numbered `i` and `j`, if there is one.
    pub closed spec fn matchup_of(&self, i: int, j: int) -> Option<Matchup> {
        self.table.lookup(i as usize, j as usize)
    }

    /// The wins of candidate number `i` over candidate number `j`.
    pub open spec fn id_wins(&self, i: int, j: int) -> nat {
        match self.matchup_of(i, j) {
            Some(m) => if i < j {
                m.first_wins() as nat
            } else {
                m.second_wins() as nat
            },
            None => 0,
        }
    }

    /// The wins recorded for name `x` over name `y`.
    pub open spec fn wins(&self, x: Seq<char>, y: Seq<char>) -> nat {
        if self.names().contains(x) && self.names().contains(y) && x != y {
            self.id_wins(self.names().index_of(x), self.names().index_of(y))
        } else {
            0
        }
    }

    pub closed spec fn inv(&self) -> bool {
        &&& self.table.wf()
        &&& self.names().no_duplicates()
        &&& self.names@.len() <= usize::MAX
        &&& forall|k: (usize, usize)| #[trigger]
            self.table@.contains_key(k) ==> {
                let m = self.table@[k];
                &&& k.0 < k.1 < self.names@.len()
                &&& m.first() == k.0
                &&& m.second() == k.1
                &&& m.first_wins() + m.second_wins() > 0
            }
    }

    /// Well-formedness: distinct names, and each matchup is between two
    /// numbered candidates, smaller number first, with one win or more,
    /// no pair twice.
    pub open spec fn wf(&self) -> bool {
        &&& self.inv()
        &&& self.names().no_duplicates()
        &&& forall|k: int|
            0 <= k < self.matchup_seq().len() ==> {
                let m = #[trigger] self.matchup_seq()[k];
                &&& m.first() < m.second() < self.names().len()
                &&& m.first_wins() + m.second_wins() > 0
                &&& self.matchup_of(m.first() as int, m.second() as int) == Some(m)
            }
        &&& forall|k1: int, k2: int|
            0 <= k1 < k2 < self.matchup_seq().len() ==> (#[trigger] self.matchup_seq()[k1]).first()
                != (#[trigger] self.matchup_seq()[k2]).first() || self.matchup_seq()[k1].second()
                != self.matchup_seq()[k2].second()
        &&& forall|i: int, j: int| #[trigger]
            self.matchup_of(i, j) is Some ==> exists|k: int|
                0 <= k < self.matchup_seq().len() && #[trigger] self.matchup_seq()[k]
                    == self.matchup_of(i, j)->0
    }

    proof fn lemma_wf(&self)
        requires
            self.inv(),
        ensures
            self.wf(),
    {
        let ks = self.table.key_seq();
        let vs = self.table.value_seq();
        assert forall|k: int| 0 <= k < vs.len() implies {
            let m = #[trigger] vs[k];
            &&& m.first() < m.second() < self.names().len()
            &&& m.first_wins() + m.second_wins() > 0
            &&& self.matchup_of(m.first() as int, m.second() as int) == Some(m)
        } by {
            assert(self.table@.contains_key(ks[k]));
            assert(self.table@[ks[k]] == vs[k]);
        }
        assert forall|k1: int, k2: int| 0 <= k1 < k2 < vs.len() implies (#[trigger] vs[k1]).first()
            != (#[trigger] vs[k2]).first() || vs[k1].second() != vs[k2].second() by {
            assert(self.table@.contains_key(ks[k1]));
            assert(self.table@.contains_key(ks[k2]));
            assert(self.table@[ks[k1]] == vs[k1]);
            assert(self.table@[ks[k2]] == vs[k2]);
        }
        assert forall|i: int, j: int| #[trigger] self.matchup_of(i, j) is Some implies exists|k: int|
            0 <= k < vs.len() && #[trigger] vs[k] == self.matchup_of(i, j)->0 by {
            let key = pair_key(i as usize, j as usize);
            assert(ks.contains(key));
            let k = ks.index_of(key);
            assert(self.table@[ks[k]] == vs[k]);
        }
    }

    proof fn lemma_index_of(&self, i: int)
        requires
            self.names().no_duplicates(),
            0 <= i < self.names().len(),
        ensures
            self.names().contains(self.names()[i]),
            self.names().index_of(self.names()[i]) == i,
    {
        let x = self.names()[i];
        assert(self.names().contains(x));
        let j = self.names().index_of(x);
        assert(self.names()[j] == x);
    }
}

/// Dropping groups from the end of a group never adds occurrences.
pub proof fn lemma_count_take(g: Seq<Seq<char>>, k: int, x: Seq<char>)
    requires
        0 <= k <= g.len(),
    ensures
        count_in(g.take(k), x) <= count_in(g, x),
    decreases g.len() - k,
{
    if k < g.len() {
        lemma_count_take(g, k + 1, x);
        assert(g.take(k + 1).drop_last() =~= g.take(k));
    } else {
        assert(g.take(k) =~= g);
    }
}

/// Counting over fewer groups never gives more.
pub proof fn lemma_count_between_mono(b: Seq<Seq<Seq<char>>>, lo: int, j: int, hi: int, y: Seq<char>)
    requires
        j <= hi,
    ensures
        count_between(b, lo, j, y) <= count_between(b, lo, hi, y),
    decreases hi - j,
{
    if j < hi {
        lemma_count_between_mono(b, lo, j, hi - 1, y);
    }
}

/// The credits of the first `i` groups are part of those of the first `n`.
pub proof fn lemma_prefix_mono(b: Seq<Seq<Seq<char>>>, i: int, n: int, x: Seq<char>, y: Seq<char>)
    requires
        i <= n,
    ensures
        prefix_wins(b, i, x, y) <= prefix_wins(b, n, x, y),
    decreases n - i,
{
    if i < n {
        lemma_prefix_mono(b, i, n - 1, x, y);
    }
}

proof fn lemma_count_in_contains(g: Seq<Seq<char>>, x: Seq<char>)
    requires
        count_in(g, x) > 0,
    ensures
        g.contains(x),
    decreases g.len(),
{
    if g.last() == x {
        assert(g[g.len() - 1] == x);
    } else {
        lemma_count_in_contains(g.drop_last(), x);
        let i = choose|i: int| 0 <= i < g.drop_last().len() && g.drop_last()[i] == x;
        assert(g[i] == x);
    }
}

proof fn lemma_register_group_keeps(ns: Seq<Seq<char>>, g: Seq<Seq<char>>, z: Seq<char>)
    ensures
        (ns.contains(z) || g.contains(z)) ==> register_group(ns, g).contains(z),
        ns.len() <= register_group(ns, g).len(),
        forall|k: int| 0 <= k < ns.len() ==> #[trigger] register_group(ns, g)[k] == ns[k],
    decreases g.len(),
{
    if g.len() > 0 {
        let d = g.drop_last();
        lemma_register_group_keeps(ns, d, z);
        let r = register_group(ns, d);
        if g.contains(z) && z != g.last() {
            let i = choose|i: int| 0 <= i < g.len() && g[i] == z;
            assert(d[i] == z);
        }
        if r.contains(z) {
            let i = choose|i: int| 0 <= i < r.len() && r[i] == z;
            assert(register(r, g.last())[i] == z);
        }
        if !r.contains(g.last()) {
            assert(r.push(g.last())[r.len() as int] == g.last());
        }
    }
}

proof fn lemma_register_ballot_keeps(ns: Seq<Seq<char>>, b: Seq<Seq<Seq<char>>>, z: Seq<char>)
    ensures
        (ns.contains(z) || exists|i: int| 0 <= i < b.len() && #[trigger] b[i].contains(z))
            ==> register_ballot(ns, b).contains(z),
        ns.len() <= register_ballot(ns, b).len(),
        forall|k: int| 0 <= k < ns.len() ==> #[trigger] register_ballot(ns, b)[k] == ns[k],
    decreases b.len(),
{
    if b.len() > 0 {
        let d = b.drop_last();
        lemma_register_ballot_keeps(ns, d, z);
        let r = register_ballot(ns, d);
        lemma_register_group_keeps(r, b.last(), z);
        if exists|i: int| 0 <= i < b.len() && #[trigger] b[i].contains(z) {
            let i = choose|i: int| 0 <= i < b.len() && #[trigger] b[i].contains(z);
            if i < d.len() {
                assert(d[i].contains(z));
            }
        }
    }
}

proof fn lemma_count_between_positive(b: Seq<Seq<Seq<char>>>, lo: int, hi: int, y: Seq<char>)
    requires
        0 <= lo,
        hi <= b.len(),
        count_between(b, lo, hi, y) > 0,
    ensures
        exists|i: int| 0 <= i < b.len() && #[trigger] b[i].contains(y),
    decreases hi - lo,
{
    if count_in(b[hi - 1], y) > 0 {
        lemma_count_in_contains(b[hi - 1], y);
    } else {
        lemma_count_between_positive(b, lo, hi - 1, y);
    }
}

proof fn lemma_prefix_positive(b: Seq<Seq<Seq<char>>>, n: int, x: Seq<char>, y: Seq<char>)
    requires
        n <= b.len(),
        prefix_wins(b, n, x, y) > 0,
    ensures
        exists|i: int| 0 <= i < b.len() && #[trigger] b[i].contains(x),
        exists|i: int| 0 <= i < b.len() && #[trigger] b[i].contains(y),
    decreases n,
{
    let c = count_in(b[n - 1], x);
    let d = count_between(b, n, b.len() as int, y);
    if c * d > 0 {
        assert(c > 0 && d > 0) by (nonlinear_arith)
            requires
                c * d > 0,
        ;
        lemma_count_in_contains(b[n - 1], x);
        lemma_count_between_positive(b, n, b.len() as int, y);
    } else {
        lemma_prefix_positive(b, n - 1, x, y);
    }
}

/// A ballot credits only candidates that it names.
proof fn lemma_ballot_wins_named(ns: Seq<Seq<char>>, b: Seq<Seq<Seq<char>>>, x: Seq<char>, y: Seq<char>)
    requires
        ballot_wins(b, x, y) > 0,
    ensures
        register_ballot(ns, b).contains(x),
        register_ballot(ns, b).contains(y),
{
    lemma_prefix_positive(b, b.len() as int, x, y);
    lemma_register_ballot_keeps(ns, b, x);
    lemma_register_ballot_keeps(ns, b, y);
}

/// Some ballot of `e` names `z`.
pub open spec fn named(e: Seq<Seq<Seq<Seq<char>>>>, z: Seq<char>) -> bool {
    exists|k: int, i: int| 0 <= k < e.len() && 0 <= i < e[k].len() && #[trigger] e[k][i].contains(z)
}

proof fn lemma_register_group_only(ns: Seq<Seq<char>>, g: Seq<Seq<char>>, z: Seq<char>)
    ensures
        register_group(ns, g).contains(z) <==> (ns.contains(z) || g.contains(z)),
        (forall|i: int| 0 <= i < g.len() ==> ns.contains(#[trigger] g[i])) ==> register_group(ns, g)
            == ns,
    decreases g.len(),
{
    lemma_register_group_keeps(ns, g, z);
    if g.len() > 0 {
        let d = g.drop_last();
        lemma_register_group_only(ns, d, z);
        let r = register_group(ns, d);
        if register_group(ns, g).contains(z) && z != g.last() {
            if !r.contains(g.last()) {
                let i = choose|i: int| 0 <= i < r.push(g.last()).len() && r.push(g.last())[i] == z;
                assert(r[i] == z);
            }
            assert(r.contains(z));
            if d.contains(z) {
                let i = choose|i: int| 0 <= i < d.len() && d[i] == z;
                assert(g[i] == z);
            }
        }
        if forall|i: int| 0 <= i < g.len() ==> ns.contains(#[trigger] g[i]) {
            assert forall|i: int| 0 <= i < d.len() implies ns.contains(#[trigger] d[i]) by {
                assert(g[i] == d[i]);
            }
            assert(ns.contains(g[g.len() - 1]));
        }
    }
}

proof fn lemma_register_ballot_only(ns: Seq<Seq<char>>, b: Seq<Seq<Seq<char>>>, z: Seq<char>)
    ensures
        register_ballot(ns, b).contains(z) <==> (ns.contains(z) || exists|i: int|
            0 <= i < b.len() && #[trigger] b[i].contains(z)),
        (forall|i: int, j: int| 0 <= i < b.len() && 0 <= j < b[i].len() ==> ns.contains(
            #[trigger] b[i][j],
        )) ==> register_ballot(ns, b) == ns,
    decreases b.len(),
{
    lemma_register_ballot_keeps(ns, b, z);
    if b.len() > 0 {
        let d = b.drop_last();
        lemma_register_ballot_only(ns, d, z);
        let r = register_ballot(ns, d);
        lemma_register_group_only(r, b.last(), z);
        if register_ballot(ns, b).contains(z) && !ns.contains(z) {
            if r.contains(z) {
                let i = choose|i: int| 0 <= i < d.len() && #[trigger] d[i].contains(z);
                assert(b[i].contains(z));
            } else {
                assert(b[b.len() - 1].contains(z));
            }
        }
        if forall|i: int, j: int| 0 <= i < b.len() && 0 <= j < b[i].len() ==> ns.contains(
            #[trigger] b[i][j],
        ) {
            assert forall|i: int, j: int| 0 <= i < d.len() && 0 <= j < d[i].len() implies ns.contains(
                #[trigger] d[i][j],
            ) by {
                assert(b[i][j] == d[i][j]);
            }
            let g = b.last();
            assert forall|j: int| 0 <= j < g.len() implies r.contains(#[trigger] g[j]) by {
                assert(b[b.len() - 1][j] == g[j]);
            }
        }
    }
}

proof fn lemma_tally_remove(e: Seq<Seq<Seq<Seq<char>>>>, j: int, x: Seq<char>, y: Seq<char>)
    requires
        0 <= j < e.len(),
    ensures
        tally(e, x, y) == tally(e.remove(j), x, y) + ballot_wins(e[j], x, y),
    decreases e.len(),
{
    if j == e.len() - 1 {
        assert(e.remove(j) =~= e.drop_last());
    } else {
        lemma_tally_remove(e.drop_last(), j, x, y);
        assert(e.remove(j).drop_last() =~= e.drop_last().remove(j));
        assert(e.remove(j).last() == e.last());
    }
}

/// The tally does not depend on the order of the ballots.
pub proof fn lemma_tally_reordered(e1: Seq<Seq<Seq<Seq<char>>>>, e2: Seq<Seq<Seq<Seq<char>>>>, x: Seq<char>, y: Seq<char>)
    requires
        e1.to_multiset() == e2.to_multiset(),
    ensures
        tally(e1, x, y) == tally(e2, x, y),
    decreases e1.len(),
{
    broadcast use vstd::seq_lib::group_to_multiset_ensures;

    if e1.len() == 0 {
        e1.to_multiset_ensures();
        e2.to_multiset_ensures();
        assert(e2.len() == 0);
    } else {
        let d = e1.drop_last();
        let last = e1.last();
        assert(e1 =~= d.push(last));
        assert(e2.to_multiset().count(last) > 0);
        assert(e2.contains(last));
        let j = choose|j: int| 0 <= j < e2.len() && e2[j] == last;
        assert(e2.remove(j).to_multiset() =~= d.to_multiset());
        lemma_tally_reordered(d, e2.remove(j), x, y);
        lemma_tally_remove(e2, j, x, y);
    }
}

/// Reordering ballots does not change who is named.
pub proof fn lemma_named_reordered(e1: Seq<Seq<Seq<Seq<char>>>>, e2: Seq<Seq<Seq<Seq<char>>>>, z: Seq<char>)
    requires
        e1.to_multiset() == e2.to_multiset(),
    ensures
        named(e1, z) <==> named(e2, z),
{
    broadcast use vstd::seq_lib::group_to_multiset_ensures;

    if named(e1, z) {
        let (k, i) = choose|k: int, i: int|
            0 <= k < e1.len() && 0 <= i < e1[k].len() && #[trigger] e1[k][i].contains(z);
        assert(e1.contains(e1[k]));
        assert(e2.to_multiset().count(e1[k]) > 0);
        let m = choose|m: int| 0 <= m < e2.len() && e2[m] == e1[k];
        assert(e2[m][i].contains(z));
    }
    if named(e2, z) {
        let (k, i) = choose|k: int, i: int|
            0 <= k < e2.len() && 0 <= i < e2[k].len() && #[trigger] e2[k][i].contains(z);
        assert(e2.contains(e2[k]));
        assert(e1.to_multiset().count(e2[k]) > 0);
        let m = choose|m: int| 0 <= m < e1.len() && e1[m] == e2[k];
        assert(e1[m][i].contains(z));
    }
}

/// The ballots of a prefix never count more than all of them.
pub proof fn lemma_tally_mono(e: Seq<Seq<Seq<Seq<char>>>>, k: int, x: Seq<char>, y: Seq<char>)
    requires
        0 <= k <= e.len(),
    ensures
        tally(e.take(k), x, y) <= tally(e, x, y),
    decreases e.len() - k,
{
    if k < e.len() {
        lemma_tally_mono(e, k + 1, x, y);
        assert(e.take(k + 1).drop_last() =~= e.take(k));
    } else {
        assert(e.take(k) =~= e);
    }
}

impl SumMatrix {
    fn empty() -> (r: SumMatrix)
        ensures
            r.wf(),
            r.names() == Seq::<Seq<char>>::empty(),
            r.matchup_seq().len() == 0,
            forall|x: Seq<char>, y: Seq<char>| r.wins(x, y) == 0,
    {
        let r = SumMatrix { names: Vec::new(), table: Table::new() };
        proof {
            assert(r.names() =~= Seq::<Seq<char>>::empty());
            r.lemma_wf();
        }
        r
    }

    /// The number of the candidate called `name`, if it has one.
    fn find_id(&self, name: &String) -> (r: Option<usize>)
        requires
            self.inv(),
        ensures
            match r {
                Some(i) => {
                    &&& i < self.names().len()
                    &&& self.names()[i as int] == name@
                    &&& self.names().index_of(name@) == i
                },
                None => !self.names().contains(name@),
            },
    {
        let mut i: usize = 0;
        while i < self.names.len()
            invariant
                self.inv(),
                i <= self.names@.len(),
                forall|j: int| 0 <= j < i ==> self.names()[j] != name@,
            decreases self.names@.len() - i,
        {
            if self.names[i] == *name {
                proof {
                    self.lemma_index_of(i as int);
                }
                return Some(i);
            }
            i = i + 1;
        }
        None
    }

    /// The number of `name`, after numbering it if it is new.
    fn intern(&mut self, name: &String) -> (r: usize)
        requires
            old(self).inv(),
        ensures
            final(self).inv(),
            final(self).names() == register(old(self).names(), name@),
            final(self).table@ == old(self).table@,
            final(self).matchup_seq() == old(self).matchup_seq(),
            r < final(self).names().len(),
            final(self).names()[r as int] == name@,
            forall|i: int, j: int|
                0 <= i < old(self).names().len() && 0 <= j < old(self).names().len() ==> #[trigger] final(self).id_wins(i, j) == old(self).id_wins(i, j),
            forall|x: Seq<char>, y: Seq<char>| #[trigger] final(self).wins(x, y) == old(self).wins(x, y),
    {
        match self.find_id(name) {
            Some(i) => i,
            None => {
                let ghost before = self.names();
                self.names.push(name.clone());
                let len = self.names.len();
                proof {
                    assert(self.names().len() == len);
                    assert(self.names() =~= before.push(name@));
                    assert forall|a: int, b: int| 0 <= a < b < self.names().len() implies self.names()[a]
                        != self.names()[b] by {
                        if b == before.len() {
                            assert(before.contains(before[a]));
                        }
                    }
                    assert forall|x: Seq<char>, y: Seq<char>| #[trigger] self.wins(x, y) == old(self).wins(x, y) by {
                        if self.names().contains(x) && self.names().contains(y) && x != y {
                            let ix = self.names().index_of(x);
                            let iy = self.names().index_of(y);
                            assert(self.names()[ix] == x);
                            assert(self.names()[iy] == y);
                            if ix < before.len() && iy < before.len() {
                                assert(before[ix] == x);
                                assert(before[iy] == y);
                                old(self).lemma_index_of(ix);
                                old(self).lemma_index_of(iy);
                            } else {
                                let k = pair_key(ix as usize, iy as usize);
                                if self.table@.contains_key(k) {
                                    assert(k.1 < before.len());
                                }
                                assert(self.matchup_of(ix, iy) is None);
                                if before.contains(x) {
                                    let k = before.index_of(x);
                                    assert(self.names()[k] == x);
                                }
                                if before.contains(y) {
                                    let k = before.index_of(y);
                                    assert(self.names()[k] == y);
                                }
                            }
                        } else {
                            if before.contains(x) {
                                let k = before.index_of(x);
                                assert(self.names()[k] == x);
                            }
                            if before.contains(y) {
                                let k = before.index_of(y);
                                assert(self.names()[k] == y);
                            }
                        }
                    }
                }
                len - 1
            },
        }
    }

    /// Credits one win to candidate `h` over candidate `l`.
    fn add_win(&mut self, h: usize, l: usize)
        requires
            old(self).inv(),
            h != l,
            h < old(self).names().len(),
            l < old(self).names().len(),
            old(self).id_wins(h as int, l as int) < u32::MAX,
        ensures
            final(self).inv(),
            final(self).names() == old(self).names(),
            forall|i: int, j: int|
                0 <= i < old(self).names().len() && 0 <= j < old(self).names().len() ==> #[trigger] final(self).id_wins(i, j) == old(self).id_wins(i, j) + if i == h && j == l {
                    1nat
                } else {
                    0nat
                },
    {
        let (a, b) = if h < l {
            (h, l)
        } else {
            (l, h)
        };
        let ghost before = *self;
        proof {
            assert(before.names().len() == self.names.len());
        }
        let e: TableEntry = self.table.entry(a, b);
        let fresh_matchup = Matchup::new(a, b);
        let m = e.or_insert(&mut self.table, fresh_matchup);
        let ghost m0 = *m;
        let res = m.add_win_for(h);
        proof {
            assert(res is Ok);
            let key = pair_key(h, l);
            assert(key == (a, b));
            assert(self.table@ == before.table@.insert(key, *m));
            assert(m0.first() == a && m0.second() == b);
            if before.table@.contains_key(key) {
                assert(m0 == before.table@[key]);
            } else {
                assert(m0.first_wins() == 0 && m0.second_wins() == 0);
            }
            assert forall|k: (usize, usize)| #[trigger] self.table@.contains_key(k) implies {
                let mm = self.table@[k];
                &&& k.0 < k.1 < self.names@.len()
                &&& mm.first() == k.0
                &&& mm.second() == k.1
                &&& mm.first_wins() + mm.second_wins() > 0
            } by {
                if k != key {
                    assert(before.table@.contains_key(k));
                }
            }
            assert forall|i: int, j: int|
                0 <= i < before.names().len() && 0 <= j < before.names().len() implies #[trigger] self.id_wins(i, j) == before.id_wins(i, j)
                + if i == h && j == l {
                1nat
            } else {
                0nat
            } by {
                let kij = pair_key(i as usize, j as usize);
                if kij != key {
                    assert(self.matchup_of(i, j) == before.matchup_of(i, j));
                } else {
                    let mf = self.table@[key];
                    assert(self.matchup_of(i, j) == Some(mf));
                    assert(i == a as int && j == b as int || i == b as int && j == a as int);
                    assert(mf == *m);
                    if before.table@.contains_key(key) {
                        assert(before.matchup_of(i, j) == Some(before.table@[key]));
                    } else {
                        assert(before.matchup_of(i, j) is None);
                    }
                }
            }
        }
    }
}

impl SumMatrix {
    /// Numbers every name of `vote`, in order, and hands back the numbers,
    /// group by group.
    fn intern_ballot(&mut self, vote: &Ballot) -> (ids: Vec<Vec<usize>>)
        requires
            old(self).inv(),
        ensures
            final(self).inv(),
            final(self).names() == register_ballot(old(self).names(), vote.deep_view()),
            final(self).table@ == old(self).table@,
            final(self).matchup_seq() == old(self).matchup_seq(),
            forall|x: Seq<char>, y: Seq<char>| #[trigger] final(self).wins(x, y) == old(self).wins(x, y),
            ids@.len() == vote@.len(),
            forall|i: int| 0 <= i < ids@.len() ==> (#[trigger] ids@[i])@.len() == vote@[i]@.len(),
            forall|i: int, p: int|
                0 <= i < ids@.len() && 0 <= p < ids@[i]@.len() ==> {
                    &&& (#[trigger] ids@[i]@[p]) < final(self).names().len()
                    &&& final(self).names()[ids@[i]@[p] as int] == vote.deep_view()[i][p]
                },
    {
        let ghost b = vote.deep_view();
        let ghost start = self.names();
        let mut ids: Vec<Vec<usize>> = Vec::new();
        let mut i: usize = 0;
        while i < vote.len()
            invariant
                self.inv(),
                b == vote.deep_view(),
                i <= vote@.len(),
                self.names() == register_ballot(start, b.take(i as int)),
                self.table@ == old(self).table@,
                self.matchup_seq() == old(self).matchup_seq(),
                forall|x: Seq<char>, y: Seq<char>| #[trigger] self.wins(x, y) == old(self).wins(x, y),
                ids@.len() == i,
                forall|a: int| 0 <= a < i ==> (#[trigger] ids@[a])@.len() == vote@[a]@.len(),
                forall|a: int, c: int|
                    0 <= a < i && 0 <= c < ids@[a]@.len() ==> {
                        &&& (#[trigger] ids@[a]@[c]) < self.names().len()
                        &&& self.names()[ids@[a]@[c] as int] == b[a][c]
                    },
            decreases vote@.len() - i,
        {
            let group = &vote[i];
            let ghost g = b[i as int];
            let ghost mid = self.names();
            let mut row: Vec<usize> = Vec::new();
            let mut p: usize = 0;
            while p < group.len()
                invariant
                    self.inv(),
                    b == vote.deep_view(),
                    i < vote@.len(),
                    *group == vote@[i as int],
                    g == b[i as int],
                    g == group.deep_view(),
                    p <= group@.len(),
                    self.names() == register_group(mid, g.take(p as int)),
                    mid.len() <= self.names().len(),
                    forall|k: int| 0 <= k < mid.len() ==> #[trigger] self.names()[k] == mid[k],
                    self.table@ == old(self).table@,
                    self.matchup_seq() == old(self).matchup_seq(),
                    forall|x: Seq<char>, y: Seq<char>| #[trigger] self.wins(x, y) == old(self).wins(x, y),
                    row@.len() == p,
                    forall|c: int|
                        0 <= c < p ==> {
                            &&& (#[trigger] row@[c]) < self.names().len()
                            &&& self.names()[row@[c] as int] == g[c]
                        },
                decreases group@.len() - p,
            {
                let ghost pre = self.names();
                let id = self.intern(&group[p]);
                proof {
                    assert(g.take(p + 1).drop_last() =~= g.take(p as int));
                    assert(g[p as int] == group@[p as int]@);
                    assert forall|k: int| 0 <= k < pre.len() implies #[trigger] self.names()[k] == pre[k] by {
                        if !pre.contains(group@[p as int]@) {
                            assert(self.names() == pre.push(group@[p as int]@));
                        }
                    }
                }
                row.push(id);
                p = p + 1;
            }
            proof {
                assert(g.take(p as int) =~= g);
                assert(b.take(i + 1).drop_last() =~= b.take(i as int));
                assert(b.take(i + 1).last() == g);
                assert forall|a: int, c: int|
                    0 <= a < i && 0 <= c < ids@[a]@.len() implies {
                        &&& (#[trigger] ids@[a]@[c]) < self.names().len()
                        &&& self.names()[ids@[a]@[c] as int] == b[a][c]
                    } by {
                    assert(mid[ids@[a]@[c] as int] == b[a][c]);
                }
            }
            ids.push(row);
            i = i + 1;
        }
        proof {
            assert(b.take(i as int) =~= b);
        }
        ids
    }
}

impl SumMatrix {
    /// Adds one ballot: every candidate of a rank-group gets a win over every
    /// candidate of each later group. New names are numbered in order.
    pub fn add_vote(&mut self, vote: &Ballot)
        requires
            old(self).wf(),
            forall|x: Seq<char>, y: Seq<char>|
                x != y ==> #[trigger] old(self).wins(x, y) + ballot_wins(vote.deep_view(), x, y)
                    <= u32::MAX,
        ensures
            final(self).wf(),
            final(self).names() == register_ballot(old(self).names(), vote.deep_view()),
            forall|x: Seq<char>, y: Seq<char>|
                x != y ==> #[trigger] final(self).wins(x, y) == old(self).wins(x, y) + ballot_wins(
                    vote.deep_view(),
                    x,
                    y,
                ),
            vote.deep_view().len() <= 1 ==> final(self).matchup_seq() == old(self).matchup_seq(),
    {
        let ghost b = vote.deep_view();
        let ids = self.intern_ballot(vote);
        let count = ids.len();
        let ghost n = count as int;
        let ghost mid = *self;
        let mut i: usize = 0;
        while i < ids.len()
            invariant
                self.inv(),
                b == vote.deep_view(),
                n == b.len(),
                ids@.len() == n,
                n == count,
                i <= n,
                self.names() == mid.names(),
                n <= 1 ==> self.matchup_seq() == mid.matchup_seq(),
                forall|a: int| 0 <= a < ids@.len() ==> (#[trigger] ids@[a])@.len() == b[a].len(),
                forall|a: int, c: int|
                    0 <= a < ids@.len() && 0 <= c < ids@[a]@.len() ==> {
                        &&& (#[trigger] ids@[a]@[c]) < self.names().len()
                        &&& self.names()[ids@[a]@[c] as int] == b[a][c]
                    },
                forall|x: Seq<char>, y: Seq<char>|
                    x != y ==> #[trigger] mid.wins(x, y) + ballot_wins(b, x, y) <= u32::MAX,
                forall|x: Seq<char>, y: Seq<char>|
                    self.names().contains(x) && self.names().contains(y) && x != y
                        ==> #[trigger] self.wins(x, y) == mid.wins(x, y) + prefix_wins(
                        b,
                        i as int,
                        x,
                        y,
                    ),
            decreases n - i,
        {
            let mut p: usize = 0;
            let ghost gi = b[i as int];
            proof {
                assert(gi.take(0) =~= Seq::<Seq<char>>::empty());
                assert forall|x: Seq<char>, y: Seq<char>| #[trigger] (count_in(gi.take(0), x) * count_between(b, i + 1, n, y)) == 0 by {
                    let c = count_in(gi.take(0), x);
                    let d = count_between(b, i + 1, n, y);
                    assert(c == 0);
                    assert(c * d == 0) by (nonlinear_arith)
                        requires
                            c == 0,
                    ;
                }
            }
            while p < ids[i].len()
                invariant
                    self.inv(),
                    b == vote.deep_view(),
                    n == b.len(),
                    ids@.len() == n,
                    n == count,
                    i < n,
                    gi == b[i as int],
                    p <= gi.len(),
                    self.names() == mid.names(),
                    n <= 1 ==> self.matchup_seq() == mid.matchup_seq(),
                    forall|a: int| 0 <= a < ids@.len() ==> (#[trigger] ids@[a])@.len() == b[a].len(),
                    forall|a: int, c: int|
                        0 <= a < ids@.len() && 0 <= c < ids@[a]@.len() ==> {
                            &&& (#[trigger] ids@[a]@[c]) < self.names().len()
                            &&& self.names()[ids@[a]@[c] as int] == b[a][c]
                        },
                    forall|x: Seq<char>, y: Seq<char>|
                        x != y ==> #[trigger] mid.wins(x, y) + ballot_wins(b, x, y) <= u32::MAX,
                    forall|x: Seq<char>, y: Seq<char>|
                        self.names().contains(x) && self.names().contains(y) && x != y
                            ==> #[trigger] self.wins(x, y) == mid.wins(x, y) + prefix_wins(
                            b,
                            i as int,
                            x,
                            y,
                        ) + count_in(gi.take(p as int), x) * count_between(b, i + 1, n, y),
                decreases gi.len() - p,
            {
                let h = ids[i][p];
                let ghost hn = gi[p as int];
                let mut j: usize = i + 1;
                while j < ids.len()
                    invariant
                        self.inv(),
                        b == vote.deep_view(),
                        n == b.len(),
                        ids@.len() == n,
                        i < n,
                        gi == b[i as int],
                        p < gi.len(),
                        hn == gi[p as int],
                        h == ids@[i as int]@[p as int],
                        i + 1 <= j <= n,
                        self.names() == mid.names(),
                        n <= 1 ==> self.matchup_seq() == mid.matchup_seq(),
                        forall|a: int| 0 <= a < ids@.len() ==> (#[trigger] ids@[a])@.len() == b[a].len(),
                        forall|a: int, c: int|
                            0 <= a < ids@.len() && 0 <= c < ids@[a]@.len() ==> {
                                &&& (#[trigger] ids@[a]@[c]) < self.names().len()
                                &&& self.names()[ids@[a]@[c] as int] == b[a][c]
                            },
                        forall|x: Seq<char>, y: Seq<char>|
                            x != y ==> #[trigger] mid.wins(x, y) + ballot_wins(b, x, y) <= u32::MAX,
                        forall|x: Seq<char>, y: Seq<char>|
                            self.names().contains(x) && self.names().contains(y) && x != y
                                ==> #[trigger] self.wins(x, y) == mid.wins(x, y) + prefix_wins(
                                b,
                                i as int,
                                x,
                                y,
                            ) + count_in(gi.take(p as int), x) * count_between(b, i + 1, n, y)
                                + if x == hn {
                                count_between(b, i + 1, j as int, y)
                            } else {
                                0
                            },
                    decreases n - j,
                {
                    let mut q: usize = 0;
                    let ghost gj = b[j as int];
                    while q < ids[j].len()
                        invariant
                            self.inv(),
                            b == vote.deep_view(),
                            n == b.len(),
                            ids@.len() == n,
                            i < n,
                            gi == b[i as int],
                            p < gi.len(),
                            hn == gi[p as int],
                            h == ids@[i as int]@[p as int],
                            i + 1 <= j < n,
                            gj == b[j as int],
                            q <= gj.len(),
                            self.names() == mid.names(),
                            n <= 1 ==> self.matchup_seq() == mid.matchup_seq(),
                            forall|a: int| 0 <= a < ids@.len() ==> (#[trigger] ids@[a])@.len() == b[a].len(),
                            forall|a: int, c: int|
                                0 <= a < ids@.len() && 0 <= c < ids@[a]@.len() ==> {
                                    &&& (#[trigger] ids@[a]@[c]) < self.names().len()
                                    &&& self.names()[ids@[a]@[c] as int] == b[a][c]
                                },
                            forall|x: Seq<char>, y: Seq<char>|
                                x != y ==> #[trigger] mid.wins(x, y) + ballot_wins(b, x, y) <= u32::MAX,
                            forall|x: Seq<char>, y: Seq<char>|
                                self.names().contains(x) && self.names().contains(y) && x != y
                                    ==> #[trigger] self.wins(x, y) == mid.wins(x, y) + prefix_wins(
                                    b,
                                    i as int,
                                    x,
                                    y,
                                ) + count_in(gi.take(p as int), x) * count_between(b, i + 1, n, y)
                                    + if x == hn {
                                    count_between(b, i + 1, j as int, y) + count_in(gj.take(q as int), y)
                                } else {
                                    0
                                },
                        decreases gj.len() - q,
                    {
                        let l = ids[j][q];
                        let ghost ln = gj[q as int];
                        proof {
                            assert(gj.take(q + 1).drop_last() =~= gj.take(q as int));
                            assert(gj.take(q + 1).last() == ln);
                            self.lemma_index_of(h as int);
                            self.lemma_index_of(l as int);
                        }
                        let ghost pre = *self;
                        if h != l {
                            proof {
                                assert(hn != ln);
                                self.lemma_credit_bound(b, i as int, p as int, j as int, q as int, hn, ln);
                                assert(self.wins(hn, ln) == self.id_wins(h as int, l as int));
                            }
                            self.add_win(h, l);
                        }
                        proof {
                            assert forall|x: Seq<char>, y: Seq<char>|
                                self.names().contains(x) && self.names().contains(y) && x != y
                                    implies #[trigger] self.wins(x, y) == mid.wins(x, y) + prefix_wins(
                                    b,
                                    i as int,
                                    x,
                                    y,
                                ) + count_in(gi.take(p as int), x) * count_between(b, i + 1, n, y)
                                    + if x == hn {
                                    count_between(b, i + 1, j as int, y) + count_in(gj.take(q + 1), y)
                                } else {
                                    0
                                } by {
                                let ix = self.names().index_of(x);
                                let iy = self.names().index_of(y);
                                assert(self.names()[ix] == x);
                                assert(self.names()[iy] == y);
                                assert(count_in(gj.take(q + 1), y) == count_in(gj.take(q as int), y)
                                    + if ln == y { 1nat } else { 0nat });
                                if h != l {
                                    assert(self.id_wins(ix, iy) == pre.id_wins(ix, iy) + if ix == h
                                        && iy == l {
                                        1nat
                                    } else {
                                        0nat
                                    });
                                    assert((ix == h && iy == l) <==> (x == hn && y == ln));
                                } else {
                                    assert(hn == ln);
                                }
                                assert(self.wins(x, y) == pre.wins(x, y) + if x == hn && y == ln {
                                    1nat
                                } else {
                                    0nat
                                });
                            }
                        }
                        q = q + 1;
                    }
                    proof {
                        assert(gj.take(q as int) =~= gj);
                    }
                    j = j + 1;
                }
                proof {
                    assert(gi.take(p + 1).drop_last() =~= gi.take(p as int));
                    assert(gi.take(p + 1).last() == hn);
                    assert forall|x: Seq<char>, y: Seq<char>|
                        self.names().contains(x) && self.names().contains(y) && x != y
                            implies #[trigger] self.wins(x, y) == mid.wins(x, y) + prefix_wins(
                            b,
                            i as int,
                            x,
                            y,
                        ) + count_in(gi.take(p + 1), x) * count_between(b, i + 1, n, y) by {
                        let c = count_in(gi.take(p as int), x);
                        let d = count_between(b, i + 1, n, y);
                        assert((c + 1) * d == c * d + d) by (nonlinear_arith);
                    }
                }
                p = p + 1;
            }
            proof {
                assert(gi.take(p as int) =~= gi);
            }
            i = i + 1;
        }
        proof {
            self.lemma_wf();
            assert forall|x: Seq<char>, y: Seq<char>|
                x != y implies #[trigger] self.wins(x, y) == old(self).wins(x, y) + ballot_wins(b, x, y) by {
                assert(mid.wins(x, y) == old(self).wins(x, y));
                if !(self.names().contains(x) && self.names().contains(y)) {
                    if ballot_wins(b, x, y) > 0 {
                        lemma_ballot_wins_named(old(self).names(), b, x, y);
                    }
                    lemma_register_ballot_keeps(old(self).names(), b, x);
                    lemma_register_ballot_keeps(old(self).names(), b, y);
                }
            }
        }
    }

    /// At the moment candidate `hn` (member `p` of group `i`) is credited over
    /// `ln` (member `q` of group `j`), the credits so far stay below the
    /// ballot's total.
    proof fn lemma_credit_bound(
        &self,
        b: Seq<Seq<Seq<char>>>,
        i: int,
        p: int,
        j: int,
        q: int,
        hn: Seq<char>,
        ln: Seq<char>,
    )
        requires
            0 <= i < j < b.len(),
            0 <= p < b[i].len(),
            0 <= q < b[j].len(),
            hn == b[i][p],
            ln == b[j][q],
        ensures
            prefix_wins(b, i, hn, ln) + count_in(b[i].take(p), hn) * count_between(
                b,
                i + 1,
                b.len() as int,
                ln,
            ) + count_between(b, i + 1, j, ln) + count_in(b[j].take(q + 1), ln) <= ballot_wins(
                b,
                hn,
                ln,
            ),
    {
        let n = b.len() as int;
        let d = count_between(b, i + 1, n, ln);
        let c = count_in(b[i].take(p), hn);
        let c1 = count_in(b[i].take(p + 1), hn);
        lemma_count_take(b[j], q + 1, ln);
        lemma_count_between_mono(b, i + 1, j + 1, n, ln);
        assert(b[i].take(p + 1).drop_last() =~= b[i].take(p));
        assert(c1 == c + 1);
        lemma_count_take(b[i], p + 1, hn);
        let ci = count_in(b[i], hn);
        assert(c * d + d == c1 * d) by (nonlinear_arith)
            requires
                c1 == c + 1,
        ;
        assert(c1 * d <= ci * d) by (nonlinear_arith)
            requires
                c1 <= ci,
        ;
        lemma_prefix_mono(b, i + 1, n, hn, ln);
    }
}

impl SumMatrix {
    /// The tally of all ballots of `election`. Candidates are numbered in
    /// the order of their names, so the numbering does not depend on the
    /// order of the ballots.
    pub fn new(election: &Election) -> (r: SumMatrix)
        requires
            forall|x: Seq<char>, y: Seq<char>| x != y ==> #[trigger] tally(election@, x, y) <= u32::MAX,
        ensures
            r.wf(),
            names_sorted(r.names()),
            forall|z: Seq<char>| #[trigger] r.names().contains(z) <==> named(election@, z),
            forall|x: Seq<char>, y: Seq<char>| x != y ==> #[trigger] r.wins(x, y) == tally(election@, x, y),
    {
        let votes = election.votes();
        let ghost e = election@;
        let mut scratch = SumMatrix::empty();
        let mut k: usize = 0;
        while k < votes.len()
            invariant
                e == election@,
                votes.deep_view() == e,
                k <= e.len(),
                scratch.inv(),
                forall|z: Seq<char>| #[trigger]
                    scratch.names().contains(z) <==> named(e.take(k as int), z),
            decreases e.len() - k,
        {
            let ghost before = scratch.names();
            let _ids = scratch.intern_ballot(&votes[k]);
            proof {
                let b = e[k as int];
                assert(votes[k as int].deep_view() == b);
                assert forall|z: Seq<char>| #[trigger]
                    scratch.names().contains(z) <==> named(e.take(k + 1), z) by {
                    lemma_register_ballot_only(before, b, z);
                    let t0 = e.take(k as int);
                    let t1 = e.take(k + 1);
                    if named(t1, z) {
                        let (a, i) = choose|a: int, i: int|
                            0 <= a < t1.len() && 0 <= i < t1[a].len() && #[trigger] t1[a][i].contains(z);
                        if a < k {
                            assert(t0[a][i].contains(z));
                        } else {
                            assert(b[i].contains(z));
                        }
                    }
                    if named(t0, z) {
                        let (a, i) = choose|a: int, i: int|
                            0 <= a < t0.len() && 0 <= i < t0[a].len() && #[trigger] t0[a][i].contains(z);
                        assert(t1[a][i].contains(z));
                    }
                    if exists|i: int| 0 <= i < b.len() && #[trigger] b[i].contains(z) {
                        let i = choose|i: int| 0 <= i < b.len() && #[trigger] b[i].contains(z);
                        assert(t1[k as int][i].contains(z));
                    }
                }
            }
            k = k + 1;
        }
        let sorted = sort_names(&scratch.names);
        let count = sorted.len();
        let mut sum_matrix = SumMatrix { names: sorted, table: Table::new() };
        let ghost all = sum_matrix.names();
        proof {
            assert(e.take(k as int) =~= e);
            assert(all.no_duplicates()) by {
                assert forall|i: int, j: int| 0 <= i < j < all.len() implies all[i] != all[j] by {
                    lemma_name_order(all[i], all[j], all[j]);
                }
            }
            assert(sum_matrix.names@.len() == count);
            sum_matrix.lemma_wf();
            assert forall|x: Seq<char>, y: Seq<char>| x != y implies #[trigger] sum_matrix.wins(x, y)
                == tally(e.take(0), x, y) by {
                let ix = all.index_of(x);
                let iy = all.index_of(y);
                let key = pair_key(ix as usize, iy as usize);
                assert(!sum_matrix.table@.contains_key(key));
            }
        }
        let mut k: usize = 0;
        while k < votes.len()
            invariant
                e == election@,
                votes.deep_view() == e,
                k <= e.len(),
                sum_matrix.wf(),
                sum_matrix.names() == all,
                names_sorted(all),
                forall|z: Seq<char>| #[trigger] all.contains(z) <==> named(e, z),
                forall|x: Seq<char>, y: Seq<char>|
                    x != y ==> #[trigger] sum_matrix.wins(x, y) == tally(e.take(k as int), x, y),
                forall|x: Seq<char>, y: Seq<char>| x != y ==> #[trigger] tally(e, x, y) <= u32::MAX,
            decreases e.len() - k,
        {
            proof {
                assert(e.take(k + 1).drop_last() =~= e.take(k as int));
                assert(e.take(k + 1).last() == e[k as int]);
                let b = e[k as int];
                assert(votes[k as int].deep_view() == b);
                assert forall|x: Seq<char>, y: Seq<char>| x != y implies #[trigger] sum_matrix.wins(x, y)
                    + ballot_wins(votes[k as int].deep_view(), x, y) <= u32::MAX by {
                    lemma_tally_mono(e, k + 1, x, y);
                }
                assert forall|i: int, j: int| 0 <= i < b.len() && 0 <= j < b[i].len() implies all.contains(
                    #[trigger] b[i][j],
                ) by {
                    assert(b[i][j] == b[i][j]);
                    assert(b[i].contains(b[i][j]));
                    assert(e[k as int][i].contains(b[i][j]));
                }
                lemma_register_ballot_only(all, b, all[0]);
            }
            sum_matrix.add_vote(&votes[k]);
            k = k + 1;
        }
        proof {
            assert(e.take(k as int) =~= e);
        }
        sum_matrix
    }

    /// The name of candidate number `id`.
    pub fn name_of(&self, id: usize) -> (r: &String)
        requires
            self.wf(),
            id < self.names().len(),
        ensures
            r@ == self.names()[id as int],
    {
        &self.names[id]
    }

    /// A cursor over the matchups, in the order in which their pairs were
    /// first credited.
    pub fn matchups(&self) -> (r: Matchups<'_>)
        ensures
            r.remaining() == self.matchup_seq(),
    {
        Matchups { adapt: self.table.values() }
    }
}

impl<'a> Matchups<'a> {
    /// The matchups that the cursor has not handed out yet.
    pub closed spec fn remaining(&self) -> Seq<Matchup> {
        self.adapt.remaining()
    }

    /// The next matchup, if any is left.
    pub fn next(&mut self) -> (r: Option<&'a Matchup>)
        ensures
            match r {
                Some(m) => {
                    &&& old(self).remaining().len() > 0
                    &&& *m == old(self).remaining()[0]
                    &&& final(self).remaining() == old(self).remaining().drop_first()
                },
                None => {
                    &&& old(self).remaining().len() == 0
                    &&& final(self).remaining() == old(self).remaining()
                },
            },
    {
        self.adapt.next()
    }
}

/// A ballot whose candidates all stand in one rank-group (or that has no
/// group at all) credits no candidate over another.
pub proof fn lemma_tied_ballot_credits_nothing(b: Seq<Seq<Seq<char>>>, x: Seq<char>, y: Seq<char>)
    requires
        b.len() <= 1,
    ensures
        ballot_wins(b, x, y) == 0,
{
    if b.len() == 1 {
        assert(prefix_wins(b, 0, x, y) == 0);
        assert(count_between(b, 1, 1, y) == 0);
        assert(count_in(b[0], x) * count_between(b, 1, 1, y) == 0) by (nonlinear_arith)
            requires
                count_between(b, 1, 1, y) == 0,
        ;
        assert(prefix_wins(b, 1, x, y) == prefix_wins(b, 0, x, y) + count_in(b[0], x) * count_between(
            b,
            1,
            1,
            y,
        ));
    }
}

/// Ballots that each put all their candidates in one rank-group count no
/// win for anyone.
pub proof fn lemma_tied_ballots_count_nothing(e: Seq<Seq<Seq<Seq<char>>>>, x: Seq<char>, y: Seq<char>)
    requires
        forall|k: int| 0 <= k < e.len() ==> (#[trigger] e[k]).len() <= 1,
    ensures
        tally(e, x, y) == 0,
    decreases e.len(),
{
    if e.len() > 0 {
        lemma_tied_ballots_count_nothing(e.drop_last(), x, y);
        lemma_tied_ballot_credits_nothing(e.last(), x, y);
    }
}

/// A tally in which nobody has a win over anybody holds no matchup.
pub proof fn lemma_no_wins_no_matchups(m: &SumMatrix)
    requires
        m.wf(),
        forall|x: Seq<char>, y: Seq<char>| x != y ==> #[trigger] m.wins(x, y) == 0,
    ensures
        m.matchup_seq().len() == 0,
{
    if m.matchup_seq().len() > 0 {
        let mm = m.matchup_seq()[0];
        let (i, j) = (mm.first() as int, mm.second() as int);
        m.lemma_index_of(i);
        m.lemma_index_of(j);
        let (x, y) = (m.names()[i], m.names()[j]);
        assert(m.wins(x, y) == 0);
        assert(m.wins(y, x) == 0);
    }
}

/// Tallying ballots whose candidates are all tied in one rank-group gives
/// no matchup at all.
pub proof fn lemma_tied_ballots_no_matchups(e: Seq<Seq<Seq<Seq<char>>>>, m: &SumMatrix)
    requires
        forall|k: int| 0 <= k < e.len() ==> (#[trigger] e[k]).len() <= 1,
        m.wf(),
        forall|x: Seq<char>, y: Seq<char>| x != y ==> #[trigger] m.wins(x, y) == tally(e, x, y),
    ensures
        m.matchup_seq().len() == 0,
{
    assert forall|x: Seq<char>, y: Seq<char>| x != y implies #[trigger] m.wins(x, y) == 0 by {
        lemma_tied_ballots_count_nothing(e, x, y);
    }
    lemma_no_wins_no_matchups(m);
}

/// Tallying no ballot at all gives no matchup.
pub proof fn lemma_no_ballots_no_matchups(e: Seq<Seq<Seq<Seq<char>>>>, m: &SumMatrix)
    requires
        e.len() == 0,
        m.wf(),
        forall|x: Seq<char>, y: Seq<char>| x != y ==> #[trigger] m.wins(x, y) == tally(e, x, y),
    ensures
        m.matchup_seq().len() == 0,
{
    lemma_tied_ballots_no_matchups(e, m);
}

impl SumMatrix {
    proof fn lemma_counts_of(&self, m: Matchup)
        requires
            self.wf(),
            self.matchup_seq().contains(m),
        ensures
            m.first() < m.second() < self.names().len(),
            self.wins(self.names()[m.first() as int], self.names()[m.second() as int])
                == m.first_wins(),
            self.wins(self.names()[m.second() as int], self.names()[m.first() as int])
                == m.second_wins(),
    {
        let k = choose|k: int| 0 <= k < self.matchup_seq().len() && self.matchup_seq()[k] == m;
        assert(self.matchup_seq()[k] == m);
        let (i, j) = (m.first() as int, m.second() as int);
        self.lemma_index_of(i);
        self.lemma_index_of(j);
        assert(pair_key(j as usize, i as usize) == pair_key(i as usize, j as usize));
        assert(self.matchup_of(j, i) == self.matchup_of(i, j));
    }

    proof fn lemma_matchup_found(&self, other: &SumMatrix, m: Matchup)
        requires
            self.wf(),
            other.wf(),
            self.names() == other.names(),
            forall|x: Seq<char>, y: Seq<char>| x != y ==> #[trigger] self.wins(x, y) == other.wins(x, y),
            self.matchup_seq().contains(m),
        ensures
            other.matchup_seq().contains(m),
    {
        self.lemma_counts_of(m);
        let (i, j) = (m.first() as int, m.second() as int);
        let (x, y) = (self.names()[i], self.names()[j]);
        other.lemma_index_of(i);
        other.lemma_index_of(j);
        assert(x != y);
        assert(other.wins(x, y) == m.first_wins());
        assert(other.wins(y, x) == m.second_wins());
        let key = pair_key(i as usize, j as usize);
        assert(key == (i as usize, j as usize));
        assert(pair_key(j as usize, i as usize) == key);
        assert(other.table@.contains_key(key));
        let m2 = other.table@[key];
        assert(other.matchup_of(i, j) == Some(m2));
        assert(other.matchup_of(j, i) == Some(m2));
        Matchup::lemma_same_fields(m, m2);
        let k = choose|k: int|
            0 <= k < other.matchup_seq().len() && #[trigger] other.matchup_seq()[k] == other.matchup_of(
                i,
                j,
            )->0;
        assert(other.matchup_seq()[k] == m);
    }
}

impl SumMatrix {
    /// Two candidates with a win either way have their matchup in the tally.
    pub proof fn lemma_pair_present(&self, i: int, j: int)
        requires
            self.wf(),
            0 <= i < j < self.names().len(),
            self.wins(self.names()[i], self.names()[j]) + self.wins(self.names()[j], self.names()[i])
                > 0,
        ensures
            exists|k: int|
                0 <= k < self.matchup_seq().len() && (#[trigger] self.matchup_seq()[k]).first() == i
                    && self.matchup_seq()[k].second() == j,
    {
        self.lemma_index_of(i);
        self.lemma_index_of(j);
        assert(pair_key(j as usize, i as usize) == pair_key(i as usize, j as usize));
        assert(self.matchup_of(i, j) is Some);
        let key = pair_key(i as usize, j as usize);
        assert(self.table@.contains_key(key));
        let m = self.table@[key];
        assert(m.first() == i && m.second() == j);
        let k = choose|k: int|
            0 <= k < self.matchup_seq().len() && #[trigger] self.matchup_seq()[k] == self.matchup_of(
                i,
                j,
            )->0;
        assert(self.matchup_seq()[k] == m);
    }
}

/// Two tallies that agree on the names and on every count hold the same
/// matchups, whatever their order.
pub proof fn lemma_same_counts_same_matchups(a: &SumMatrix, b: &SumMatrix)
    requires
        a.wf(),
        b.wf(),
        a.names() == b.names(),
        forall|x: Seq<char>, y: Seq<char>| x != y ==> #[trigger] a.wins(x, y) == b.wins(x, y),
    ensures
        forall|m: Matchup| a.matchup_seq().contains(m) <==> b.matchup_seq().contains(m),
{
    assert forall|m: Matchup| a.matchup_seq().contains(m) <==> b.matchup_seq().contains(m) by {
        if a.matchup_seq().contains(m) {
            a.lemma_matchup_found(b, m);
        }
        if b.matchup_seq().contains(m) {
            b.lemma_matchup_found(a, m);
        }
    }
}

/// The names of ballot `b` in reading order, all groups together.
pub open spec fn flat_names(b: Seq<Seq<Seq<char>>>) -> Seq<Seq<char>>
    decreases b.len(),
{
    if b.len() == 0 {
        Seq::empty()
    } else {
        flat_names(b.drop_last()) + b.last()
    }
}

/// The largest number of times that one name occurs among the first `k`
/// entries of `s`, counted over all of `s`.
pub open spec fn most_repeated(s: Seq<Seq<char>>, k: int) -> nat
    decreases k,
{
    if k <= 0 {
        0
    } else {
        let m = most_repeated(s, k - 1);
        let c = count_in(s, s[k - 1]);
        if c > m {
            c
        } else {
            m
        }
    }
}

/// How often the most repeated name of ballot `b` occurs on it (1 for a
/// ballot that names each candidate once).
pub open spec fn repeat_bound(b: Seq<Seq<Seq<char>>>) -> nat {
    most_repeated(flat_names(b), flat_names(b).len() as int)
}

/// The sum, over the ballots of `e`, of the square of `repeat_bound`: a bound
/// on every count of the tally.
pub open spec fn tally_weight(e: Seq<Seq<Seq<Seq<char>>>>) -> nat
    decreases e.len(),
{
    if e.len() == 0 {
        0
    } else {
        tally_weight(e.drop_last()) + repeat_bound(e.last()) * repeat_bound(e.last())
    }
}

proof fn lemma_count_in_concat(s: Seq<Seq<char>>, g: Seq<Seq<char>>, x: Seq<char>)
    ensures
        count_in(s + g, x) == count_in(s, x) + count_in(g, x),
    decreases g.len(),
{
    if g.len() > 0 {
        lemma_count_in_concat(s, g.drop_last(), x);
        assert((s + g).drop_last() =~= s + g.drop_last());
    } else {
        assert(s + g =~= s);
    }
}

proof fn lemma_count_between_flat(b: Seq<Seq<Seq<char>>>, hi: int, x: Seq<char>)
    requires
        0 <= hi <= b.len(),
    ensures
        count_between(b, 0, hi, x) == count_in(flat_names(b.take(hi)), x),
    decreases hi,
{
    if hi > 0 {
        lemma_count_between_flat(b, hi - 1, x);
        assert(b.take(hi).drop_last() =~= b.take(hi - 1));
        assert(b.take(hi).last() == b[hi - 1]);
        lemma_count_in_concat(flat_names(b.take(hi - 1)), b[hi - 1], x);
    } else {
        assert(flat_names(b.take(0)) =~= Seq::<Seq<char>>::empty());
    }
}

proof fn lemma_most_repeated(s: Seq<Seq<char>>, k: int, i: int)
    requires
        0 <= i < k,
    ensures
        count_in(s, s[i]) <= most_repeated(s, k),
    decreases k,
{
    if i < k - 1 {
        lemma_most_repeated(s, k - 1, i);
    }
}

/// A name occurs on a ballot at most `repeat_bound` times.
proof fn lemma_count_le_repeat(b: Seq<Seq<Seq<char>>>, x: Seq<char>)
    ensures
        count_between(b, 0, b.len() as int, x) <= repeat_bound(b),
{
    let n = b.len() as int;
    lemma_count_between_flat(b, n, x);
    assert(b.take(n) =~= b);
    let f = flat_names(b);
    if count_in(f, x) > 0 {
        lemma_count_in_contains(f, x);
        let i = choose|i: int| 0 <= i < f.len() && f[i] == x;
        lemma_most_repeated(f, f.len() as int, i);
    }
}

proof fn lemma_count_between_tail(b: Seq<Seq<Seq<char>>>, lo: int, hi: int, y: Seq<char>)
    requires
        0 <= lo,
    ensures
        count_between(b, lo, hi, y) <= count_between(b, 0, hi, y),
    decreases hi - lo,
{
    if hi > lo {
        lemma_count_between_tail(b, lo, hi - 1, y);
    }
}

proof fn lemma_prefix_product(b: Seq<Seq<Seq<char>>>, n: int, x: Seq<char>, y: Seq<char>)
    requires
        0 <= n <= b.len(),
    ensures
        prefix_wins(b, n, x, y) <= count_between(b, 0, n, x) * count_between(
            b,
            0,
            b.len() as int,
            y,
        ),
    decreases n,
{
    if n > 0 {
        lemma_prefix_product(b, n - 1, x, y);
        let big = count_between(b, 0, b.len() as int, y);
        let part = count_between(b, n, b.len() as int, y);
        lemma_count_between_tail(b, n, b.len() as int, y);
        let c = count_in(b[n - 1], x);
        let before = count_between(b, 0, n - 1, x);
        assert(c * part <= c * big) by (nonlinear_arith)
            requires
                part <= big,
        ;
        assert(before * big + c * big == (before + c) * big) by (nonlinear_arith);
    }
}

/// One ballot credits a name over another at most `repeat_bound` squared
/// times.
proof fn lemma_ballot_wins_bound(b: Seq<Seq<Seq<char>>>, x: Seq<char>, y: Seq<char>)
    ensures
        ballot_wins(b, x, y) <= repeat_bound(b) * repeat_bound(b),
{
    let n = b.len() as int;
    lemma_prefix_product(b, n, x, y);
    lemma_count_le_repeat(b, x);
    lemma_count_le_repeat(b, y);
    let (cx, cy, m) = (count_between(b, 0, n, x), count_between(b, 0, n, y), repeat_bound(b));
    assert(cx * cy <= m * m) by (nonlinear_arith)
        requires
            cx <= m,
            cy <= m,
    ;
}

/// Every count of the tally of `e` is at most its weight.
pub proof fn lemma_tally_weight(e: Seq<Seq<Seq<Seq<char>>>>, x: Seq<char>, y: Seq<char>)
    ensures
        tally(e, x, y) <= tally_weight(e),
    decreases e.len(),
{
    if e.len() > 0 {
        lemma_tally_weight(e.drop_last(), x, y);
        lemma_ballot_wins_bound(e.last(), x, y);
    }
}

/// How often the most repeated name of `ballot` occurs on it.
fn repeat_count(ballot: &Ballot) -> (r: usize)
    ensures
        r == repeat_bound(ballot.deep_view()),
{
    let ghost b = ballot.deep_view();
    let mut names: Vec<String> = Vec::new();
    let mut i: usize = 0;
    proof {
        assert(b.take(0) =~= Seq::<Seq<Seq<char>>>::empty());
        assert(name_seq(names@) =~= flat_names(b.take(0)));
    }
    while i < ballot.len()
        invariant
            b == ballot.deep_view(),
            i <= b.len(),
            name_seq(names@) == flat_names(b.take(i as int)),
        decreases b.len() - i,
    {
        let group = &ballot[i];
        let ghost start = name_seq(names@);
        let mut j: usize = 0;
        proof {
            assert(group.deep_view() == b[i as int]);
            assert(start + b[i as int].take(0) =~= start);
        }
        while j < group.len()
            invariant
                group.deep_view() == b[i as int],
                i < b.len(),
                j <= group@.len(),
                name_seq(names@) == start + b[i as int].take(j as int),
            decreases group@.len() - j,
        {
            let ghost before = name_seq(names@);
            names.push(group[j].clone());
            proof {
                assert(name_seq(names@) =~= before.push(group@[j as int]@));
                assert(start + b[i as int].take(j + 1) =~= before.push(group@[j as int]@));
            }
            j = j + 1;
        }
        proof {
            assert(b[i as int].take(j as int) =~= b[i as int]);
            assert(b.take(i + 1).drop_last() =~= b.take(i as int));
            assert(b.take(i + 1).last() == b[i as int]);
        }
        i = i + 1;
    }
    proof {
        assert(b.take(i as int) =~= b);
    }
    let ghost f = name_seq(names@);
    let mut most: usize = 0;
    let mut k: usize = 0;
    while k < names.len()
        invariant
            f == name_seq(names@),
            f == flat_names(b),
            k <= f.len(),
            most == most_repeated(f, k as int),
            most <= f.len(),
        decreases f.len() - k,
    {
        let mut c: usize = 0;
        let mut t: usize = 0;
        while t < names.len()
            invariant
                f == name_seq(names@),
                k < f.len(),
                t <= f.len(),
                c == count_in(f.take(t as int), f[k as int]),
                c <= t,
            decreases f.len() - t,
        {
            proof {
                assert(f.take(t + 1).drop_last() =~= f.take(t as int));
                assert(f.take(t + 1).last() == f[t as int]);
                assert(f[t as int] == names@[t as int]@ && f[k as int] == names@[k as int]@);
            }
            if names[t] == names[k] {
                c = c + 1;
            }
            t = t + 1;
        }
        proof {
            assert(f.take(t as int) =~= f);
        }
        if c > most {
            most = c;
        }
        k = k + 1;
    }
    most
}

impl Election {
    /// Whether no count of the tally of these ballots can pass what a 32-bit
    /// counter holds, by the bound `tally_weight`: for ballots that name each
    /// candidate once, whether there are at most `u32::MAX` ballots.
    pub fn counts_fit(&self) -> (r: bool)
        ensures
            r == (tally_weight(self@) <= u32::MAX),
            r ==> forall|x: Seq<char>, y: Seq<char>| #[trigger] tally(self@, x, y) <= u32::MAX,
    {
        let votes = self.votes();
        let ghost e = self@;
        let mut total: u64 = 0;
        let mut k: usize = 0;
        while k < votes.len()
            invariant
                e == self@,
                votes.deep_view() == e,
                k <= e.len(),
                total as nat == tally_weight(e.take(k as int)),
                total <= u32::MAX,
            decreases e.len() - k,
        {
            let m = repeat_count(&votes[k]);
            proof {
                assert(votes[k as int].deep_view() == e[k as int]);
                assert(e.take(k + 1).drop_last() =~= e.take(k as int));
                assert(e.take(k + 1).last() == e[k as int]);
            }
            if m as u64 > u32::MAX as u64 {
                proof {
                    lemma_weight_prefix(e, k + 1);
                    let z = m as nat;
                    assert(z * z >= z) by (nonlinear_arith);
                }
                return false;
            }
            let m64 = m as u64;
            proof {
                assert(m64 * m64 <= u64::MAX) by (nonlinear_arith)
                    requires
                        m64 <= u32::MAX,
                ;
            }
            let square = m64 * m64;
            if square > u32::MAX as u64 - total {
                proof {
                    lemma_weight_prefix(e, k + 1);
                }
                return false;
            }
            total = total + square;
            k = k + 1;
        }
        proof {
            assert(e.take(k as int) =~= e);
            assert forall|x: Seq<char>, y: Seq<char>| #[trigger] tally(e, x, y) <= u32::MAX by {
                lemma_tally_weight(e, x, y);
            }
        }
        true
    }
}

proof fn lemma_weight_prefix(e: Seq<Seq<Seq<Seq<char>>>>, k: int)
    requires
        0 <= k <= e.len(),
    ensures
        tally_weight(e.take(k)) <= tally_weight(e),
    decreases e.len() - k,
{
    if k < e.len() {
        lemma_weight_prefix(e, k + 1);
        assert(e.take(k + 1).drop_last() =~= e.take(k));
    } else {
        assert(e.take(k) =~= e);
    }
}

} // verus!
