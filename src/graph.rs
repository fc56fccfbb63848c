use vstd::prelude::*;

use crate::dfs::{fresh, lemma_fresh, Neighboring, DFS};

verus! {

/// A directed graph over candidate identifiers: each node with outgoing
/// edges has the list of their targets, in the order in which they were added.
pub struct Graph {
    nodes: Vec<usize>,
    adj: Vec<Vec<usize>>,
    all: Ghost<Set<usize>>,
}

/// The graph had no node at all.
pub struct EmptyGraphError {
    description: String,
}

impl EmptyGraphError {
    pub closed spec fn message(&self) -> Seq<char> {
        self.description@
    }

    fn new(description: String) -> (r: EmptyGraphError)
        ensures
            r.message() == description@,
    {
        EmptyGraphError { description }
    }

    /// A human-readable account of the error.
    pub fn description(&self) -> (r: &str)
        ensures
            r@ == self.message(),
    {
        self.description.as_str()
    }
}

/// `a + b` holds `x` exactly when `a` or `b` does.
pub proof fn lemma_concat_contains(a: Seq<usize>, b: Seq<usize>)
    ensures
        forall|x: usize| #[trigger] (a + b).contains(x) <==> (a.contains(x) || b.contains(x)),
{
    assert forall|x: usize| #[trigger] (a + b).contains(x) <==> (a.contains(x) || b.contains(x)) by {
        if (a + b).contains(x) {
            let i = choose|i: int| 0 <= i < (a + b).len() && (a + b)[i] == x;
            if i >= a.len() {
                assert(b[i - a.len()] == x);
            }
        }
        if a.contains(x) {
            let i = choose|i: int| 0 <= i < a.len() && a[i] == x;
            assert((a + b)[i] == x);
        }
        if b.contains(x) {
            let i = choose|i: int| 0 <= i < b.len() && b[i] == x;
            assert((a + b)[i + a.len()] == x);
        }
    }
}

proof fn lemma_concat_no_duplicates(a: Seq<usize>, b: Seq<usize>)
    requires
        a.no_duplicates(),
        b.no_duplicates(),
        forall|x: usize| a.contains(x) ==> !b.contains(x),
    ensures
        (a + b).no_duplicates(),
{
    assert forall|i: int, j: int| 0 <= i < j < (a + b).len() implies (a + b)[i] != (a + b)[j] by {
        if j >= a.len() && i < a.len() {
            assert(a.contains(a[i]));
            assert(b[j - a.len()] == (a + b)[j]);
        }
    }
}

impl Graph {
    /// The outgoing lists, by source node.
    pub closed spec fn view(&self) -> Map<usize, Seq<usize>> {
        Map::new(
            |u: usize| self.nodes@.contains(u),
            |u: usize| self.adj@[self.nodes@.index_of(u)]@,
        )
    }

    /// Every node that occurs in the graph, as a source or as a target.
    pub closed spec fn node_set(&self) -> Set<usize> {
        self.all@
    }

    /// Whether the graph has no edge at all.
    pub closed spec fn is_empty(&self) -> bool {
        self.nodes@.len() == 0
    }

    /// The node that was first given an outgoing edge.
    pub closed spec fn first_node(&self) -> usize {
        self.nodes@[0]
    }

    /// The targets of the edges out of `u`, in order.
    pub open spec fn succ(&self, u: usize) -> Seq<usize> {
        if self@.contains_key(u) {
            self@[u]
        } else {
            Seq::empty()
        }
    }

    pub open spec fn edge(&self, u: usize, v: usize) -> bool {
        self.succ(u).contains(v)
    }

    /// `p` follows edges of the graph from its first node to its last.
    pub open spec fn is_walk(&self, p: Seq<usize>) -> bool {
        &&& p.len() >= 1
        &&& forall|i: int| 0 <= i < p.len() - 1 ==> #[trigger] self.edge(p[i], p[i + 1])
    }

    /// `v` can be reached from `u` by following edges, in zero steps or more.
    pub open spec fn reachable(&self, u: usize, v: usize) -> bool {
        exists|p: Seq<usize>| #[trigger] self.is_walk(p) && p[0] == u && p.last() == v
    }

    /// No walk of one edge or more comes back to where it started.
    pub open spec fn acyclic(&self) -> bool {
        forall|p: Seq<usize>| #[trigger] self.is_walk(p) && p.len() >= 2 ==> p[0] != p.last()
    }

    /// The node reached from `u` by following the first listed edge, at most
    /// `steps` times, stopping early at a node without outgoing edges.
    pub open spec fn follow(&self, u: usize, steps: nat) -> usize
        decreases steps,
    {
        if steps == 0 || !self@.contains_key(u) {
            u
        } else {
            self.follow(self@[u][0], (steps - 1) as nat)
        }
    }

    /// The internal bookkeeping of the graph is consistent.
    pub closed spec fn inv(&self) -> bool {
        &&& self.nodes@.len() == self.adj@.len()
        &&& self.nodes@.no_duplicates()
        &&& self.all@.finite()
        &&& forall|i: int| 0 <= i < self.nodes@.len() ==> #[trigger] self.adj@[i]@.len() > 0
        &&& forall|i: int| 0 <= i < self.nodes@.len() ==> self.all@.contains(#[trigger] self.nodes@[i])
        &&& forall|i: int, j: int|
            0 <= i < self.nodes@.len() && 0 <= j < self.adj@[i]@.len() ==> self.all@.contains(
                #[trigger] self.adj@[i]@[j],
            )
    }

    /// Well-formedness: the outgoing lists are not empty, every node of an
    /// edge is in the node set, and the first node has outgoing edges.
    pub open spec fn wf(&self) -> bool {
        &&& self.inv()
        &&& self.node_set().finite()
        &&& forall|u: usize| #[trigger]
            self@.contains_key(u) ==> self.node_set().contains(u) && self@[u].len() > 0
        &&& forall|u: usize, v: usize| #[trigger] self.edge(u, v) ==> self.node_set().contains(v)
        &&& self.is_empty() ==> forall|u: usize| !(#[trigger] self@.contains_key(u))
        &&& !self.is_empty() ==> self@.contains_key(self.first_node())
    }

    proof fn lemma_view_at(&self, i: int)
        requires
            self.nodes@.no_duplicates(),
            0 <= i < self.nodes@.len(),
        ensures
            self@.contains_key(self.nodes@[i]),
            self@[self.nodes@[i]] == self.adj@[i]@,
    {
        let u = self.nodes@[i];
        assert(self.nodes@.contains(u));
        let j = self.nodes@.index_of(u);
        assert(self.nodes@[j] == u);
    }

    proof fn lemma_wf(&self)
        requires
            self.inv(),
        ensures
            self.wf(),
    {
        assert forall|u: usize| #[trigger]
            self@.contains_key(u) implies self.node_set().contains(u) && self@[u].len() > 0 by {
            let i = self.nodes@.index_of(u);
            self.lemma_view_at(i);
        }
        assert forall|u: usize, v: usize| #[trigger] self.edge(u, v) implies self.node_set().contains(
            v,
        ) by {
            let i = self.nodes@.index_of(u);
            self.lemma_view_at(i);
            let j = choose|j: int| 0 <= j < self.adj@[i]@.len() && self.adj@[i]@[j] == v;
        }
        if !self.is_empty() {
            self.lemma_view_at(0);
        }
    }

    /// A graph without nodes.
    pub fn new() -> (r: Graph)
        ensures
            r.wf(),
            r.is_empty(),
            r.node_set() == Set::<usize>::empty(),
            forall|u: usize, v: usize| !r.edge(u, v),
            r.acyclic(),
    {
        let r = Graph { nodes: Vec::new(), adj: Vec::new(), all: Ghost(Set::empty()) };
        proof {
            r.lemma_wf();
            assert forall|p: Seq<usize>| #[trigger] r.is_walk(p) && p.len() >= 2 implies p[0]
                != p.last() by {
                let z: int = 0;
                assert(r.edge(p[z], p[z + 1]));
            }
        }
        r
    }

    /// Position of `u` among the nodes that have outgoing edges.
    fn find_index(&self, u: usize) -> (r: Option<usize>)
        requires
            self.inv(),
        ensures
            match r {
                Some(i) => {
                    &&& i < self.nodes@.len()
                    &&& self.nodes@[i as int] == u
                    &&& self@.contains_key(u)
                    &&& self@[u] == self.adj@[i as int]@
                },
                None => !self@.contains_key(u),
            },
    {
        let mut i: usize = 0;
        while i < self.nodes.len()
            invariant
                self.inv(),
                i <= self.nodes@.len(),
                forall|j: int| 0 <= j < i ==> self.nodes@[j] != u,
            decreases self.nodes@.len() - i,
        {
            if self.nodes[i] == u {
                proof {
                    self.lemma_view_at(i as int);
                }
                return Some(i);
            }
            i = i + 1;
        }
        None
    }
}

impl Graph {
    /// Adds an edge from `from` to `to`, after the edges that `from` already has.
    pub fn add_edge(&mut self, from: usize, to: usize)
        requires
            old(self).wf(),
        ensures
            final(self).wf(),
            final(self)@ == old(self)@.insert(from, old(self).succ(from).push(to)),
            final(self).node_set() == old(self).node_set().insert(from).insert(to),
            !final(self).is_empty(),
            final(self).first_node() == if old(self).is_empty() {
                from
            } else {
                old(self).first_node()
            },
    {
        let ghost before = *self;
        match self.find_index(from) {
            Some(i) => {
                self.adj[i].push(to);
                self.all = Ghost(self.all@.insert(from).insert(to));
                proof {
                    assert forall|j: int| 0 <= j < self.nodes@.len() && j != i implies self.adj@[j]
                        == before.adj@[j] by {}
                    assert forall|j: int| 0 <= j < self.nodes@.len() implies #[trigger] self.adj@[j]@.len() > 0 by {}
                    assert forall|a: int, b: int|
                        0 <= a < self.nodes@.len() && 0 <= b < self.adj@[a]@.len() implies self.all@.contains(
                        #[trigger] self.adj@[a]@[b],
                    ) by {
                        if a != i || b < before.adj@[a]@.len() {
                            assert(before.adj@[a]@[b] == self.adj@[a]@[b]);
                        }
                    }
                    self.lemma_wf();
                    assert(self@ =~= before@.insert(from, before.succ(from).push(to))) by {
                        assert forall|u: usize| #[trigger] self@.contains_key(u) implies self@[u]
                            == before@.insert(from, before.succ(from).push(to))[u] by {
                            let j = self.nodes@.index_of(u);
                            self.lemma_view_at(j);
                            before.lemma_view_at(j);
                        }
                    }
                    if !before.is_empty() {
                        assert(self.first_node() == before.first_node());
                    }
                }
            },
            None => {
                let mut list: Vec<usize> = Vec::new();
                list.push(to);
                self.nodes.push(from);
                self.adj.push(list);
                self.all = Ghost(self.all@.insert(from).insert(to));
                proof {
                    let n = before.nodes@.len() as int;
                    assert(self.nodes@[n] == from);
                    assert forall|a: int, b: int| 0 <= a < b < self.nodes@.len() implies self.nodes@[a]
                        != self.nodes@[b] by {
                        if b == n {
                            assert(before.nodes@.contains(before.nodes@[a]));
                            before.lemma_view_at(a);
                        }
                    }
                    assert forall|a: int| 0 <= a < self.nodes@.len() implies self.all@.contains(
                        #[trigger] self.nodes@[a],
                    ) by {
                        if a < n {
                            assert(before.nodes@[a] == self.nodes@[a]);
                        }
                    }
                    assert forall|a: int, b: int|
                        0 <= a < self.nodes@.len() && 0 <= b < self.adj@[a]@.len() implies self.all@.contains(
                        #[trigger] self.adj@[a]@[b],
                    ) by {
                        if a < n {
                            assert(before.adj@[a]@[b] == self.adj@[a]@[b]);
                        }
                    }
                    assert forall|a: int| 0 <= a < self.nodes@.len() implies #[trigger] self.adj@[a]@.len() > 0 by {
                        if a < n {
                            assert(before.adj@[a] == self.adj@[a]);
                        }
                    }
                    self.lemma_wf();
                    assert(self@ =~= before@.insert(from, before.succ(from).push(to))) by {
                        assert(before.succ(from) =~= Seq::<usize>::empty());
                        assert(self.adj@[n]@ =~= seq![to]);
                        self.lemma_view_at(n);
                        assert forall|u: usize|
                            #[trigger] self@.contains_key(u) <==> before@.insert(
                                from,
                                before.succ(from).push(to),
                            ).contains_key(u) by {
                            if self@.contains_key(u) && u != from {
                                let j = self.nodes@.index_of(u);
                                assert(before.nodes@[j] == u);
                            }
                            if before@.contains_key(u) {
                                let j = before.nodes@.index_of(u);
                                assert(self.nodes@[j] == u);
                            }
                        }
                        assert forall|u: usize| #[trigger] self@.contains_key(u) implies self@[u]
                            == before@.insert(from, before.succ(from).push(to))[u] by {
                            let j = self.nodes@.index_of(u);
                            self.lemma_view_at(j);
                            if j < n {
                                before.lemma_view_at(j);
                            }
                        }
                    }
                    if !before.is_empty() {
                        assert(self.first_node() == before.first_node());
                    }
                }
            },
        }
    }
}

impl Graph {
    /// Every node reaches itself.
    pub proof fn lemma_reach_self(&self, u: usize)
        ensures
            self.reachable(u, u),
    {
        assert(self.is_walk(seq![u]));
    }

    /// A walk to `v` extends along an edge out of `v`.
    pub proof fn lemma_reach_step(&self, u: usize, v: usize, w: usize)
        requires
            self.reachable(u, v),
            self.edge(v, w),
        ensures
            self.reachable(u, w),
    {
        let p = choose|p: Seq<usize>| #[trigger] self.is_walk(p) && p[0] == u && p.last() == v;
        let q = p.push(w);
        assert forall|i: int| 0 <= i < q.len() - 1 implies #[trigger] self.edge(q[i], q[i + 1]) by {
            if i < p.len() - 1 {
                assert(self.edge(p[i], p[i + 1]));
            }
        }
        assert(self.is_walk(q));
    }

    /// Reachability is transitive.
    pub proof fn lemma_reach_trans(&self, u: usize, v: usize, w: usize)
        requires
            self.reachable(u, v),
            self.reachable(v, w),
        ensures
            self.reachable(u, w),
    {
        let q = choose|q: Seq<usize>| #[trigger] self.is_walk(q) && q[0] == v && q.last() == w;
        self.lemma_reach_along(u, q);
    }

    proof fn lemma_reach_along(&self, u: usize, q: Seq<usize>)
        requires
            self.is_walk(q),
            self.reachable(u, q[0]),
        ensures
            self.reachable(u, q.last()),
        decreases q.len(),
    {
        if q.len() > 1 {
            let d = q.drop_last();
            assert forall|i: int| 0 <= i < d.len() - 1 implies #[trigger] self.edge(d[i], d[i + 1]) by {
                assert(self.edge(q[i], q[i + 1]));
            }
            assert(self.is_walk(d));
            self.lemma_reach_along(u, d);
            let k = q.len() - 2;
            assert(self.edge(q[k], q[k + 1]));
            self.lemma_reach_step(u, d.last(), q.last());
        }
    }

    /// A set of nodes closed under edges holds the end of every walk that
    /// starts in it.
    proof fn lemma_closed_walk(&self, vis: Seq<usize>, p: Seq<usize>)
        requires
            forall|x: usize, y: usize| vis.contains(x) && #[trigger] self.edge(x, y) ==> vis.contains(y),
            self.is_walk(p),
            vis.contains(p[0]),
        ensures
            vis.contains(p.last()),
        decreases p.len(),
    {
        if p.len() > 1 {
            let d = p.drop_last();
            assert forall|i: int| 0 <= i < d.len() - 1 implies #[trigger] self.edge(d[i], d[i + 1]) by {
                assert(self.edge(p[i], p[i + 1]));
            }
            self.lemma_closed_walk(vis, d);
            let k = p.len() - 2;
            assert(self.edge(p[k], p[k + 1]));
        }
    }

    /// Whether `to` can be reached from `from`, by a depth-first search.
    pub fn is_path(&self, from: &usize, to: &usize) -> (r: bool)
        requires
            self.wf(),
        ensures
            r == self.reachable(*from, *to),
    {
        let start = *from;
        let target = *to;
        let mut dfs = DFS::new(start);
        let ghost universe = self.node_set().insert(start);
        proof {
            self.lemma_reach_self(start);
            assert(dfs.visited()[0] == start);
        }
        loop
            invariant
                self.wf(),
                universe == self.node_set().insert(start),
                start == *from,
                target == *to,
                dfs.visited().no_duplicates(),
                dfs.stack().no_duplicates(),
                dfs.visited().len() <= universe.len(),
                forall|x: usize| dfs.stack().contains(x) ==> dfs.visited().contains(x),
                dfs.visited().contains(start),
                forall|x: usize| dfs.visited().contains(x) ==> universe.contains(x),
                forall|x: usize| dfs.visited().contains(x) ==> self.reachable(start, x),
                forall|x: usize, y: usize|
                    dfs.visited().contains(x) && !dfs.stack().contains(x) && #[trigger] self.edge(
                        x,
                        y,
                    ) ==> dfs.visited().contains(y),
                dfs.visited().contains(target) ==> dfs.stack().contains(target),
            decreases 2 * (universe.len() - dfs.visited().len()) + dfs.stack().len(),
        {
            let ghost before = dfs;
            match dfs.next(self) {
                None => {
                    proof {
                        assert(forall|x: usize| !dfs.stack().contains(x));
                        if self.reachable(start, target) {
                            let p = choose|p: Seq<usize>|
                                #[trigger] self.is_walk(p) && p[0] == start && p.last() == target;
                            self.lemma_closed_walk(dfs.visited(), p);
                        }
                    }
                    return false;
                },
                Some(n) => {
                    proof {
                        assert(before.stack().contains(n)) by {
                            assert(before.stack()[before.stack().len() - 1] == n);
                        }
                    }
                    if n == target {
                        proof {
                            assert(before.visited().contains(n));
                        }
                        return true;
                    }
                    proof {
                        let added = fresh(before.visited(), self.succ(n));
                        let rest = before.stack().drop_last();
                        lemma_fresh(before.visited(), self.succ(n));
                        lemma_concat_contains(before.visited(), added);
                        lemma_concat_contains(rest, added);
                        assert forall|x: usize| before.visited().contains(x) implies !added.contains(
                            x,
                        ) by {}
                        lemma_concat_no_duplicates(before.visited(), added);
                        assert forall|x: usize| rest.contains(x) implies !added.contains(x) by {
                            let i = choose|i: int| 0 <= i < rest.len() && rest[i] == x;
                            assert(before.stack()[i] == x);
                        }
                        assert(rest.no_duplicates()) by {
                            assert forall|i: int, j: int| 0 <= i < j < rest.len() implies rest[i]
                                != rest[j] by {
                                assert(before.stack()[i] == rest[i]);
                                assert(before.stack()[j] == rest[j]);
                            }
                        }
                        lemma_concat_no_duplicates(rest, added);
                        assert forall|x: usize| before.stack().contains(x) && x != n implies rest.contains(
                            x,
                        ) by {
                            let i = choose|i: int|
                                0 <= i < before.stack().len() && before.stack()[i] == x;
                            assert(rest[i] == x);
                        }
                        assert forall|x: usize| rest.contains(x) implies before.stack().contains(x) by {
                            let i = choose|i: int| 0 <= i < rest.len() && rest[i] == x;
                            assert(before.stack()[i] == x);
                        }
                        assert(!rest.contains(n)) by {
                            if rest.contains(n) {
                                let i = choose|i: int| 0 <= i < rest.len() && rest[i] == n;
                                assert(before.stack()[i] == n);
                                assert(before.stack()[before.stack().len() - 1] == n);
                            }
                        }
                        assert forall|x: usize| dfs.visited().contains(x) implies self.reachable(
                            start,
                            x,
                        ) by {
                            if added.contains(x) {
                                assert(self.edge(n, x));
                                self.lemma_reach_step(start, n, x);
                            }
                        }
                        assert forall|x: usize| dfs.visited().contains(x) implies universe.contains(
                            x,
                        ) by {
                            if added.contains(x) {
                                assert(self.edge(n, x));
                            }
                        }
                        assert forall|x: usize, y: usize|
                            dfs.visited().contains(x) && !dfs.stack().contains(x)
                                && #[trigger] self.edge(x, y) implies dfs.visited().contains(y) by {
                            if x != n {
                                assert(!before.stack().contains(x));
                            }
                        }
                        dfs.visited().unique_seq_to_set();
                        assert(dfs.visited().to_set().subset_of(universe));
                        vstd::set_lib::lemma_len_subset(dfs.visited().to_set(), universe);
                    }
                },
            }
        }
    }
}

impl Graph {
    /// The node reached from the first node by following first edges until
    /// a node without outgoing edges; fails on a graph without nodes.
    pub fn find_sink(&self) -> (r: Result<usize, EmptyGraphError>)
        requires
            self.wf(),
            self.acyclic(),
        ensures
            r is Err <==> self.is_empty(),
            match r {
                Ok(s) => {
                    &&& s == self.follow(self.first_node(), self.node_set().len())
                    &&& !self@.contains_key(s)
                    &&& self.node_set().contains(s)
                    &&& self.reachable(self.first_node(), s)
                },
                Err(e) => e.message() == "Graph was empty"@,
            },
    {
        if self.nodes.len() == 0 {
            let e = EmptyGraphError::new("Graph was empty".to_owned());
            proof {
                reveal_strlit("Graph was empty");
            }
            return Err(e);
        }
        let mut cur = self.nodes[0];
        let ghost first = cur;
        let ghost total = self.node_set().len();
        let ghost p = seq![cur];
        proof {
            assert(self.first_node() == first);
            assert(self.is_walk(p));
            assert(set![first].subset_of(self.node_set()));
            vstd::set_lib::lemma_len_subset(set![first], self.node_set());
        }
        loop
            invariant
                self.wf(),
                self.acyclic(),
                !self.is_empty(),
                first == self.first_node(),
                total == self.node_set().len(),
                self.is_walk(p),
                p[0] == first,
                p.last() == cur,
                p.no_duplicates(),
                forall|i: int| 0 <= i < p.len() ==> self.node_set().contains(#[trigger] p[i]),
                p.len() <= total,
                self.follow(first, total) == self.follow(cur, (total - (p.len() - 1)) as nat),
            decreases total - p.len(),
        {
            match self.find_index(cur) {
                None => {
                    proof {
                        assert(self.reachable(first, cur));
                        assert(self.node_set().contains(p[p.len() - 1]));
                    }
                    return Ok(cur);
                },
                Some(i) => {
                    let next = self.adj[i][0];
                    let ghost q = p.push(next);
                    proof {
                        assert(self.succ(cur)[0] == next);
                        assert(self.edge(cur, next));
                        assert forall|k: int| 0 <= k < q.len() - 1 implies #[trigger] self.edge(
                            q[k],
                            q[k + 1],
                        ) by {
                            if k < p.len() - 1 {
                                assert(self.edge(p[k], p[k + 1]));
                            }
                        }
                        assert(self.is_walk(q));
                        assert(!p.contains(next)) by {
                            if p.contains(next) {
                                let k = choose|k: int| 0 <= k < p.len() && p[k] == next;
                                let c = q.subrange(k, q.len() as int);
                                assert forall|m: int| 0 <= m < c.len() - 1 implies #[trigger] self.edge(
                                    c[m],
                                    c[m + 1],
                                ) by {
                                    assert(self.edge(q[k + m], q[k + m + 1]));
                                }
                                assert(self.is_walk(c));
                                assert(c[0] == next && c.last() == next);
                            }
                        }
                        assert(q.no_duplicates()) by {
                            assert forall|a: int, b: int| 0 <= a < b < q.len() implies q[a] != q[b] by {
                                if b == p.len() {
                                    assert(p.contains(p[a]));
                                }
                            }
                        }
                        assert forall|k: int| 0 <= k < q.len() implies self.node_set().contains(
                            #[trigger] q[k],
                        ) by {
                            if k < p.len() {
                                assert(q[k] == p[k]);
                            }
                        }
                        q.unique_seq_to_set();
                        assert(q.to_set().subset_of(self.node_set()));
                        vstd::set_lib::lemma_len_subset(q.to_set(), self.node_set());
                        let m = (total - (p.len() - 1)) as nat;
                        assert(self.follow(cur, m) == self.follow(next, (m - 1) as nat));
                    }
                    cur = next;
                    proof {
                        p = q;
                    }
                },
            }
        }
    }

    /// The edges of `after` are those of `before` and one more, from `from` to `to`.
    pub open spec fn adds_edge(before: Graph, after: Graph, from: usize, to: usize) -> bool {
        after@ == before@.insert(from, before.succ(from).push(to))
    }

    proof fn lemma_added_edge(before: Graph, after: Graph, from: usize, to: usize)
        requires
            Self::adds_edge(before, after, from, to),
        ensures
            forall|u: usize, v: usize| #[trigger]
                after.edge(u, v) <==> (before.edge(u, v) || (u == from && v == to)),
    {
        assert forall|u: usize, v: usize| #[trigger]
            after.edge(u, v) <==> (before.edge(u, v) || (u == from && v == to)) by {
            if u == from {
                let s = before.succ(from);
                assert(after.succ(u) == s.push(to));
                if s.push(to).contains(v) && v != to {
                    let i = choose|i: int| 0 <= i < s.push(to).len() && s.push(to)[i] == v;
                    assert(s[i] == v);
                }
                if s.contains(v) {
                    let i = choose|i: int| 0 <= i < s.len() && s[i] == v;
                    assert(s.push(to)[i] == v);
                }
                if v == to {
                    assert(s.push(to)[s.len() as int] == v);
                }
            } else {
                assert(after.succ(u) == before.succ(u));
            }
        }
    }

    /// Adding an edge keeps every path there was.
    pub proof fn lemma_add_edge_keeps_paths(before: Graph, after: Graph, from: usize, to: usize)
        requires
            Self::adds_edge(before, after, from, to),
        ensures
            forall|a: usize, b: usize| #[trigger]
                before.reachable(a, b) ==> after.reachable(a, b),
    {
        Self::lemma_added_edge(before, after, from, to);
        assert forall|a: usize, b: usize| #[trigger] before.reachable(a, b) implies after.reachable(
            a,
            b,
        ) by {
            let p = choose|p: Seq<usize>| #[trigger] before.is_walk(p) && p[0] == a && p.last() == b;
            assert forall|i: int| 0 <= i < p.len() - 1 implies #[trigger] after.edge(p[i], p[i + 1]) by {
                assert(before.edge(p[i], p[i + 1]));
            }
            assert(after.is_walk(p));
        }
    }

    proof fn lemma_new_walk(before: Graph, after: Graph, from: usize, to: usize, p: Seq<usize>)
        requires
            Self::adds_edge(before, after, from, to),
            after.is_walk(p),
        ensures
            before.reachable(p[0], p.last()) || (before.reachable(p[0], from) && before.reachable(
                to,
                p.last(),
            )),
        decreases p.len(),
    {
        Self::lemma_added_edge(before, after, from, to);
        if p.len() == 1 {
            before.lemma_reach_self(p[0]);
        } else {
            let d = p.drop_last();
            assert forall|i: int| 0 <= i < d.len() - 1 implies #[trigger] after.edge(d[i], d[i + 1]) by {
                assert(after.edge(p[i], p[i + 1]));
            }
            Self::lemma_new_walk(before, after, from, to, d);
            let k = p.len() - 2;
            assert(after.edge(p[k], p[k + 1]));
            let (x, y) = (d.last(), p.last());
            if before.edge(x, y) {
                if before.reachable(p[0], x) {
                    before.lemma_reach_step(p[0], x, y);
                } else {
                    before.lemma_reach_step(to, x, y);
                }
            } else {
                before.lemma_reach_self(to);
                if before.reachable(p[0], x) {
                } else {
                }
            }
        }
    }

    /// Adding an edge from `from` to `to` keeps a graph acyclic when `from`
    /// cannot be reached from `to`.
    pub proof fn lemma_add_edge_acyclic(before: Graph, after: Graph, from: usize, to: usize)
        requires
            Self::adds_edge(before, after, from, to),
            before.acyclic(),
            !before.reachable(to, from),
        ensures
            after.acyclic(),
    {
        Self::lemma_added_edge(before, after, from, to);
        assert forall|p: Seq<usize>| #[trigger] after.is_walk(p) && p.len() >= 2 implies p[0]
            != p.last() by {
            if p[0] == p.last() {
                let x = p[0];
                let y = p[1];
                let q = p.drop_first();
                assert forall|i: int| 0 <= i < q.len() - 1 implies #[trigger] after.edge(q[i], q[i + 1]) by {
                    let j = i + 1;
                    assert(after.edge(p[j], p[j + 1]));
                }
                let z: int = 0;
                assert(after.edge(p[z], p[z + 1]));
                Self::lemma_new_walk(before, after, from, to, q);
                if before.edge(x, y) {
                    if before.reachable(y, x) {
                        let w = choose|w: Seq<usize>|
                            #[trigger] before.is_walk(w) && w[0] == y && w.last() == x;
                        let c = seq![x] + w;
                        assert forall|i: int| 0 <= i < c.len() - 1 implies #[trigger] before.edge(
                            c[i],
                            c[i + 1],
                        ) by {
                            if i > 0 {
                                let j = i - 1;
                                assert(before.edge(w[j], w[j + 1]));
                            }
                        }
                        assert(before.is_walk(c));
                        assert(c[0] == x && c.last() == x);
                    } else {
                        before.lemma_reach_step(to, x, y);
                        before.lemma_reach_trans(to, y, from);
                    }
                }
            }
        }
    }
}

/// The targets of the edges out of `u` in the adjacency map `m`.
pub open spec fn succ_in(m: Map<usize, Seq<usize>>, u: usize) -> Seq<usize> {
    if m.contains_key(u) {
        m[u]
    } else {
        Seq::empty()
    }
}

/// `p` follows edges of the adjacency map `m`.
pub open spec fn is_walk_in(m: Map<usize, Seq<usize>>, p: Seq<usize>) -> bool {
    &&& p.len() >= 1
    &&& forall|i: int| 0 <= i < p.len() - 1 ==> #[trigger] succ_in(m, p[i]).contains(p[i + 1])
}

/// `v` can be reached from `u` in the adjacency map `m`.
pub open spec fn reach_in(m: Map<usize, Seq<usize>>, u: usize, v: usize) -> bool {
    exists|p: Seq<usize>| #[trigger] is_walk_in(m, p) && p[0] == u && p.last() == v
}

/// No walk of one edge or more in the adjacency map `m` comes back to where
/// it started.
pub open spec fn acyclic_in(m: Map<usize, Seq<usize>>) -> bool {
    forall|p: Seq<usize>| #[trigger] is_walk_in(m, p) && p.len() >= 2 ==> p[0] != p.last()
}

/// The node reached from `u` in the adjacency map `m` by following first
/// edges, at most `steps` times.
pub open spec fn follow_in(m: Map<usize, Seq<usize>>, u: usize, steps: nat) -> usize
    decreases steps,
{
    if steps == 0 || !m.contains_key(u) {
        u
    } else {
        follow_in(m, m[u][0], (steps - 1) as nat)
    }
}

impl Graph {
    /// The graph's own notions agree with those of its adjacency map.
    pub proof fn lemma_as_map(&self)
        ensures
            forall|u: usize, v: usize| #[trigger] self.reachable(u, v) == reach_in(self@, u, v),
            forall|u: usize, k: nat| #[trigger] self.follow(u, k) == follow_in(self@, u, k),
            self.acyclic() == acyclic_in(self@),
    {
        assert forall|p: Seq<usize>| #[trigger] self.is_walk(p) == is_walk_in(self@, p) by {
            if self.is_walk(p) {
                assert forall|i: int| 0 <= i < p.len() - 1 implies #[trigger] succ_in(self@, p[i]).contains(
                    p[i + 1],
                ) by {
                    assert(self.edge(p[i], p[i + 1]));
                }
            }
            if is_walk_in(self@, p) {
                assert forall|i: int| 0 <= i < p.len() - 1 implies #[trigger] self.edge(p[i], p[i + 1]) by {
                    assert(succ_in(self@, p[i]).contains(p[i + 1]));
                }
            }
        }
        assert forall|u: usize, v: usize| #[trigger] self.reachable(u, v) == reach_in(self@, u, v) by {
            if self.reachable(u, v) {
                let p = choose|p: Seq<usize>| #[trigger] self.is_walk(p) && p[0] == u && p.last() == v;
                assert(is_walk_in(self@, p));
            }
            if reach_in(self@, u, v) {
                let p = choose|p: Seq<usize>| #[trigger] is_walk_in(self@, p) && p[0] == u && p.last() == v;
                assert(self.is_walk(p));
            }
        }
        assert forall|u: usize, k: nat| #[trigger] self.follow(u, k) == follow_in(self@, u, k) by {
            self.lemma_follow_as_map(u, k);
        }
        if self.acyclic() {
            assert forall|p: Seq<usize>| #[trigger] is_walk_in(self@, p) && p.len() >= 2 implies p[0]
                != p.last() by {
                assert(self.is_walk(p) == is_walk_in(self@, p));
            }
        }
        if acyclic_in(self@) {
            assert forall|p: Seq<usize>| #[trigger] self.is_walk(p) && p.len() >= 2 implies p[0]
                != p.last() by {
                assert(self.is_walk(p) == is_walk_in(self@, p));
            }
        }
    }

    proof fn lemma_follow_as_map(&self, u: usize, k: nat)
        ensures
            self.follow(u, k) == follow_in(self@, u, k),
        decreases k,
    {
        if k > 0 && self@.contains_key(u) {
            self.lemma_follow_as_map(self@[u][0], (k - 1) as nat);
        }
    }

    /// In an acyclic graph where any two distinct nodes are joined by a path
    /// one way or the other, at most one node has no outgoing edge.
    pub proof fn lemma_unique_sink(&self, s: usize, t: usize)
        requires
            self.wf(),
            self.acyclic(),
            forall|u: usize, v: usize|
                self.node_set().contains(u) && self.node_set().contains(v) && u != v ==> (
                #[trigger] self.reachable(u, v) || self.reachable(v, u)),
            self.node_set().contains(s),
            self.node_set().contains(t),
            !self@.contains_key(s),
            !self@.contains_key(t),
        ensures
            s == t,
    {
        if s != t {
            let (a, b) = if self.reachable(s, t) {
                (s, t)
            } else {
                (t, s)
            };
            assert(self.reachable(a, b));
            let p = choose|p: Seq<usize>| #[trigger] self.is_walk(p) && p[0] == a && p.last() == b;
            let z: int = 0;
            assert(self.edge(p[z], p[z + 1]));
        }
    }
}

impl Graph {
    /// In a graph without edges, no node reaches another.
    pub proof fn lemma_empty_reach(&self, u: usize, v: usize)
        requires
            self.wf(),
            self.is_empty(),
            u != v,
        ensures
            !self.reachable(u, v),
    {
        if self.reachable(u, v) {
            let p = choose|p: Seq<usize>| #[trigger] self.is_walk(p) && p[0] == u && p.last() == v;
            let z: int = 0;
            assert(self.edge(p[z], p[z + 1]));
            assert(self@.contains_key(p[z]));
        }
    }
}

impl Graph {
    /// The nodes that have outgoing edges, in the order in which they got
    /// their first one.
    pub fn sources(&self) -> (r: &[usize])
        requires
            self.wf(),
        ensures
            r@.no_duplicates(),
            forall|u: usize| #[trigger] r@.contains(u) <==> self@.contains_key(u),
            r@.len() > 0 ==> r@[0] == self.first_node(),
            r@.len() == 0 <==> self.is_empty(),
    {
        proof {
            assert forall|u: usize| #[trigger] self.nodes@.contains(u) <==> self@.contains_key(u) by {}
        }
        self.nodes.as_slice()
    }
}

impl Neighboring for Graph {
    open spec fn well_formed(&self) -> bool {
        self.wf()
    }

    open spec fn neighbors_of(&self, node: usize) -> Seq<usize> {
        self.succ(node)
    }

    fn get_neighbors(&self, node: usize) -> (r: &[usize]) {
        match self.find_index(node) {
            Some(i) => self.adj[i].as_slice(),
            None => &[],
        }
    }
}

} // verus!
