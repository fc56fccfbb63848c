use vstd::prelude::*;

verus! {

/// Anything whose nodes have a list of neighbours, so that a depth-first
/// traversal can walk it.
pub trait Neighboring {
    /// Whether the structure is in a state where its neighbours can be listed.
    spec fn well_formed(&self) -> bool;

    /// The neighbours of `node`, in order.
    spec fn neighbors_of(&self, node: usize) -> Seq<usize>;

    fn get_neighbors(&self, node: usize) -> (r: &[usize])
        requires
            self.well_formed(),
        ensures
            r@ == self.neighbors_of(node),
    ;
}

/// The entries of `nbrs` that are not in `seen`, each once, in the order of
/// their first appearance.
pub open spec fn fresh(seen: Seq<usize>, nbrs: Seq<usize>) -> Seq<usize>
    decreases nbrs.len(),
{
    if nbrs.len() == 0 {
        Seq::empty()
    } else {
        let f = fresh(seen, nbrs.drop_last());
        if seen.contains(nbrs.last()) || f.contains(nbrs.last()) {
            f
        } else {
            f.push(nbrs.last())
        }
    }
}

/// What `fresh` holds: the neighbours not seen before, with no repetition.
pub proof fn lemma_fresh(seen: Seq<usize>, nbrs: Seq<usize>)
    ensures
        fresh(seen, nbrs).no_duplicates(),
        forall|x: usize|
            #[trigger] fresh(seen, nbrs).contains(x) <==> (nbrs.contains(x) && !seen.contains(x)),
    decreases nbrs.len(),
{
    if nbrs.len() > 0 {
        let d = nbrs.drop_last();
        lemma_fresh(seen, d);
        let f = fresh(seen, d);
        assert forall|x: usize| nbrs.contains(x) <==> (d.contains(x) || x == nbrs.last()) by {
            if nbrs.contains(x) && x != nbrs.last() {
                let i = choose|i: int| 0 <= i < nbrs.len() && nbrs[i] == x;
                assert(d[i] == x);
            }
            if d.contains(x) {
                let i = choose|i: int| 0 <= i < d.len() && d[i] == x;
                assert(nbrs[i] == x);
            }
        }
        if !(seen.contains(nbrs.last()) || f.contains(nbrs.last())) {
            assert forall|x: usize| #[trigger] f.push(nbrs.last()).contains(x) <==> (f.contains(x)
                || x == nbrs.last()) by {
                if f.push(nbrs.last()).contains(x) && x != nbrs.last() {
                    let i = choose|i: int|
                        0 <= i < f.push(nbrs.last()).len() && f.push(nbrs.last())[i] == x;
                    assert(f[i] == x);
                }
                if f.contains(x) {
                    let i = choose|i: int| 0 <= i < f.len() && f[i] == x;
                    assert(f.push(nbrs.last())[i] == x);
                }
                if x == nbrs.last() {
                    assert(f.push(nbrs.last())[f.len() as int] == x);
                }
            }
        }
    }
}

/// Whether `x` occurs in `v`.
pub fn contains_node(v: &[usize], x: usize) -> (r: bool)
    ensures
        r == v@.contains(x),
{
    let mut i: usize = 0;
    while i < v.len()
        invariant
            i <= v@.len(),
            forall|j: int| 0 <= j < i ==> v@[j] != x,
        decreases v@.len() - i,
    {
        if v[i] == x {
            return true;
        }
        i = i + 1;
    }
    false
}

/// A depth-first traversal: a stack of nodes still to hand out, and the
/// nodes seen so far. A node is marked seen when it is pushed, so none is
/// pushed twice.
pub struct DFS {
    stack: Vec<usize>,
    visits: Vec<usize>,
}

impl DFS {
    /// The nodes still to be handed out; the last one comes next.
    pub closed spec fn stack(&self) -> Seq<usize> {
        self.stack@
    }

    /// The nodes seen so far, in the order in which they were first seen.
    pub closed spec fn visited(&self) -> Seq<usize> {
        self.visits@
    }

    /// A traversal that starts at `start`.
    pub fn new(start: usize) -> (r: DFS)
        ensures
            r.stack() == seq![start],
            r.visited() == seq![start],
    {
        let mut stack: Vec<usize> = Vec::new();
        stack.push(start);
        let mut visits: Vec<usize> = Vec::new();
        visits.push(start);
        proof {
            assert(stack@ =~= seq![start]);
            assert(visits@ =~= seq![start]);
        }
        DFS { stack, visits }
    }

    /// Hands out the node on top of the stack, after pushing those of its
    /// neighbours in `graph` that were not seen before; `None` once the
    /// stack is empty.
    pub fn next<T: Neighboring>(&mut self, graph: &T) -> (r: Option<usize>)
        requires
            graph.well_formed(),
        ensures
            match r {
                None => {
                    &&& old(self).stack().len() == 0
                    &&& *final(self) == *old(self)
                },
                Some(n) => {
                    let added = fresh(old(self).visited(), graph.neighbors_of(n));
                    &&& old(self).stack().len() > 0
                    &&& n == old(self).stack().last()
                    &&& final(self).visited() == old(self).visited() + added
                    &&& final(self).stack() == old(self).stack().drop_last() + added
                },
            },
    {
        if self.stack.len() == 0 {
            return None;
        }
        let n = self.stack.pop().unwrap();
        let nbrs = graph.get_neighbors(n);
        let ghost seen = self.visits@;
        let ghost base = self.stack@;
        let mut k: usize = 0;
        while k < nbrs.len()
            invariant
                k <= nbrs@.len(),
                nbrs@ == graph.neighbors_of(n),
                self.visits@ == seen + fresh(seen, nbrs@.take(k as int)),
                self.stack@ == base + fresh(seen, nbrs@.take(k as int)),
            decreases nbrs@.len() - k,
        {
            let adj = nbrs[k];
            let ghost f = fresh(seen, nbrs@.take(k as int));
            proof {
                assert(nbrs@.take(k + 1).drop_last() =~= nbrs@.take(k as int));
                assert(nbrs@.take(k + 1).last() == adj);
                assert((seen + f).contains(adj) <==> (seen.contains(adj) || f.contains(adj))) by {
                    if (seen + f).contains(adj) {
                        let i = choose|i: int| 0 <= i < (seen + f).len() && (seen + f)[i] == adj;
                        if i >= seen.len() {
                            assert(f[i - seen.len()] == adj);
                        }
                    }
                    if f.contains(adj) {
                        let i = choose|i: int| 0 <= i < f.len() && f[i] == adj;
                        assert((seen + f)[i + seen.len()] == adj);
                    }
                    if seen.contains(adj) {
                        let i = choose|i: int| 0 <= i < seen.len() && seen[i] == adj;
                        assert((seen + f)[i] == adj);
                    }
                }
            }
            if !contains_node(self.visits.as_slice(), adj) {
                self.visits.push(adj);
                self.stack.push(adj);
            }
            k = k + 1;
        }
        proof {
            assert(nbrs@.take(nbrs@.len() as int) =~= nbrs@);
        }
        Some(n)
    }
}

} // verus!
