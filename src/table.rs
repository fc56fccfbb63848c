use vstd::prelude::*;

verus! {

/// The unordered pair `{a, b}` written in canonical form: smaller identifier first.
pub open spec fn pair_key(a: usize, b: usize) -> (usize, usize) {
    if a <= b {
        (a, b)
    } else {
        (b, a)
    }
}

/// An unordered pair of candidate identifiers, kept with the smaller one first.
#[derive(Clone, Copy, PartialEq, Eq, Structural)]
pub struct Pair(pub usize, pub usize);

impl View for Pair {
    type V = (usize, usize);

    open spec fn view(&self) -> (usize, usize) {
        (self.0, self.1)
    }
}

impl Pair {
    /// The canonical pair for `a` and `b`, whatever their order.
    pub fn new(a: usize, b: usize) -> (r: Pair)
        ensures
            r@ == pair_key(a, b),
    {
        if a <= b {
            Pair(a, b)
        } else {
            Pair(b, a)
        }
    }

    pub fn row(&self) -> (r: usize)
        ensures
            r == self.0,
    {
        self.0
    }

    pub fn column(&self) -> (r: usize)
        ensures
            r == self.1,
    {
        self.1
    }
}

/// A table holding one value per unordered pair of candidate identifiers.
///
/// Entries are kept in the order in which their pairs were first inserted;
/// `(a, b)` and `(b, a)` always address the same entry.
pub struct Table<V> {
    keys: Vec<Pair>,
    vals: Vec<V>,
}

/// Where the pair of an entry handle stands in its table.
pub enum TableEntry {
    Vacant(VacantEntry),
    Occupied(OccupiedEntry),
}

/// A handle on a pair that the table does not hold yet.
pub struct VacantEntry {
    key: Pair,
}

/// A handle on a pair that the table holds, at a known position.
pub struct OccupiedEntry {
    key: Pair,
    index: usize,
}

/// A cursor over the values of a table, in the table's order.
pub struct Values<'a, V> {
    items: &'a [V],
    next: usize,
}

impl<V> Table<V> {
    /// The canonical pairs of the table, in entry order.
    pub closed spec fn key_seq(&self) -> Seq<(usize, usize)> {
        self.keys@.map_values(|p: Pair| p@)
    }

    /// The values of the table, in entry order.
    pub closed spec fn value_seq(&self) -> Seq<V> {
        self.vals@
    }

    /// The table as a map from canonical pairs to values.
    pub closed spec fn view(&self) -> Map<(usize, usize), V> {
        Map::new(
            |k: (usize, usize)| self.key_seq().contains(k),
            |k: (usize, usize)| self.vals@[self.key_seq().index_of(k)],
        )
    }

    /// The value stored for the unordered pair `{a, b}`, if any.
    pub open spec fn lookup(&self, a: usize, b: usize) -> Option<V> {
        if self@.contains_key(pair_key(a, b)) {
            Some(self@[pair_key(a, b)])
        } else {
            None
        }
    }

    /// Well-formedness: one canonical key per entry, no key twice, and the
    /// map agrees with the two sequences.
    pub open spec fn wf(&self) -> bool {
        &&& self.key_seq().len() == self.value_seq().len()
        &&& self.key_seq().no_duplicates()
        &&& forall|i: int|
            0 <= i < self.key_seq().len() ==> #[trigger] self.key_seq()[i].0 <= self.key_seq()[i].1
        &&& forall|k: (usize, usize)| #[trigger]
            self@.contains_key(k) <==> self.key_seq().contains(k)
        &&& forall|i: int|
            0 <= i < self.key_seq().len() ==> #[trigger] self@[self.key_seq()[i]]
                == self.value_seq()[i]
    }

    proof fn lemma_wf(&self)
        requires
            self.keys@.len() == self.vals@.len(),
            self.key_seq().no_duplicates(),
            forall|i: int|
                0 <= i < self.key_seq().len() ==> #[trigger] self.key_seq()[i].0
                    <= self.key_seq()[i].1,
        ensures
            self.wf(),
    {
        assert forall|i: int| 0 <= i < self.key_seq().len() implies #[trigger] self@[self.key_seq()[i]]
            == self.value_seq()[i] by {
            let k = self.key_seq()[i];
            assert(self.key_seq().contains(k));
            let j = self.key_seq().index_of(k);
            assert(self.key_seq()[j] == k);
        }
    }

    pub fn new() -> (r: Table<V>)
        ensures
            r.wf(),
            r@ == Map::<(usize, usize), V>::empty(),
            r.key_seq().len() == 0,
    {
        let r = Table { keys: Vec::new(), vals: Vec::new() };
        proof {
            r.lemma_wf();
            assert(r@ =~= Map::<(usize, usize), V>::empty());
        }
        r
    }

    /// Position of the canonical pair `key` among the entries.
    fn find(&self, key: Pair) -> (r: Option<usize>)
        requires
            self.wf(),
        ensures
            match r {
                Some(i) => i < self.key_seq().len() && self.key_seq()[i as int] == key@,
                None => !self.key_seq().contains(key@),
            },
    {
        let mut i: usize = 0;
        while i < self.keys.len()
            invariant
                self.wf(),
                i <= self.keys@.len(),
                forall|j: int| 0 <= j < i ==> self.key_seq()[j] != key@,
            decreases self.keys@.len() - i,
        {
            let p = self.keys[i];
            if p.0 == key.0 && p.1 == key.1 {
                return Some(i);
            }
            i = i + 1;
        }
        None
    }

    /// The value of the pair `{row, column}`, whichever order the two are given in.
    pub fn get_mut(&mut self, row: usize, column: usize) -> (r: Option<&mut V>)
        requires
            old(self).wf(),
        ensures
            final(self).wf(),
            final(self).key_seq() == old(self).key_seq(),
            match r {
                Some(v) => {
                    &&& old(self)@.contains_key(pair_key(row, column))
                    &&& *v == old(self)@[pair_key(row, column)]
                    &&& final(self)@ == old(self)@.insert(pair_key(row, column), *final(v))
                },
                None => {
                    &&& !old(self)@.contains_key(pair_key(row, column))
                    &&& *final(self) == *old(self)
                },
            },
    {
        let key = Pair::new(row, column);
        match self.find(key) {
            Some(i) => Some(self.value_at_mut(i)),
            None => None,
        }
    }

    fn value_at_mut(&mut self, i: usize) -> (r: &mut V)
        requires
            old(self).wf(),
            i < old(self).key_seq().len(),
        ensures
            *r == old(self)@[old(self).key_seq()[i as int]],
            final(self).wf(),
            final(self).key_seq() == old(self).key_seq(),
            final(self)@ == old(self)@.insert(old(self).key_seq()[i as int], *final(r)),
            final(self).value_seq() == old(self).value_seq().update(i as int, *final(r)),
    {
        let ghost before = *self;
        proof {
            assert forall|after: Table<V>|
                after.keys@ == before.keys@ && #[trigger] after.vals@ == before.vals@.update(
                    i as int,
                    after.vals@[i as int],
                ) implies {
                &&& after.wf()
                &&& after.key_seq() == before.key_seq()
                &&& after@ == before@.insert(before.key_seq()[i as int], after.vals@[i as int])
            } by {
                Self::lemma_set_value(before, after, i as int);
            }
        }
        &mut self.vals[i]
    }

    proof fn lemma_set_value(before: Table<V>, after: Table<V>, i: int)
        requires
            before.wf(),
            0 <= i < before.key_seq().len(),
            after.keys@ == before.keys@,
            after.vals@ == before.vals@.update(i, after.vals@[i]),
        ensures
            after.wf(),
            after.key_seq() == before.key_seq(),
            after@ == before@.insert(before.key_seq()[i], after.vals@[i]),
    {
        after.lemma_wf();
        let k = before.key_seq()[i];
        assert forall|j: int| 0 <= j < before.key_seq().len() && j != i implies before.key_seq()[j] != k by {
        }
        assert(after@ =~= before@.insert(k, after.vals@[i])) by {
            assert forall|q: (usize, usize)| #[trigger] after@.contains_key(q) implies after@[q] == before@.insert(k, after.vals@[i])[q] by {
                let j = after.key_seq().index_of(q);
                assert(after.key_seq()[j] == q);
                assert(after@[after.key_seq()[j]] == after.value_seq()[j]);
                assert(before@[before.key_seq()[j]] == before.value_seq()[j]);
            }
        }
    }
}

impl<V> Table<V> {
    proof fn lemma_push(before: Table<V>, after: Table<V>, key: Pair, v: V)
        requires
            before.wf(),
            key.0 <= key.1,
            !before.key_seq().contains(key@),
            after.keys@ == before.keys@.push(key),
            after.vals@ == before.vals@.push(v),
        ensures
            after.wf(),
            after.key_seq() == before.key_seq().push(key@),
            after@ == before@.insert(key@, v),
    {
        assert(after.key_seq() =~= before.key_seq().push(key@));
        assert forall|a: int, b: int|
            0 <= a < b < after.key_seq().len() implies after.key_seq()[a] != after.key_seq()[b] by {
            if b == before.key_seq().len() {
                assert(before.key_seq()[a] == after.key_seq()[a]);
            }
        }
        after.lemma_wf();
        assert(after@ =~= before@.insert(key@, v)) by {
            assert forall|q: (usize, usize)|
                #[trigger] after@.contains_key(q) <==> before@.insert(key@, v).contains_key(q) by {
                if before.key_seq().contains(q) {
                    let j = before.key_seq().index_of(q);
                    assert(after.key_seq()[j] == q);
                }
                if q == key@ {
                    assert(after.key_seq()[before.key_seq().len() as int] == q);
                }
                if after.key_seq().contains(q) && q != key@ {
                    let j = after.key_seq().index_of(q);
                    assert(before.key_seq()[j] == q);
                }
            }
            assert forall|q: (usize, usize)| #[trigger] after@.contains_key(q) implies after@[q]
                == before@.insert(key@, v)[q] by {
                let j = after.key_seq().index_of(q);
                assert(after.key_seq()[j] == q);
                assert(after@[after.key_seq()[j]] == after.value_seq()[j]);
                if j < before.key_seq().len() {
                    assert(before@[before.key_seq()[j]] == before.value_seq()[j]);
                }
            }
        }
    }

    /// Whether the table holds a value for the pair `{row, column}`.
    pub fn contains(&self, row: usize, column: usize) -> (r: bool)
        requires
            self.wf(),
        ensures
            r == self@.contains_key(pair_key(row, column)),
    {
        self.find(Pair::new(row, column)).is_some()
    }

    /// Stores `value` for the pair `{row, column}` and hands back the value it
    /// replaces, if there was one. A new pair goes after all others.
    pub fn insert(&mut self, row: usize, column: usize, value: V) -> (r: Option<V>)
        requires
            old(self).wf(),
        ensures
            final(self).wf(),
            r == old(self).lookup(row, column),
            final(self)@ == old(self)@.insert(pair_key(row, column), value),
            final(self).key_seq() == if old(self)@.contains_key(pair_key(row, column)) {
                old(self).key_seq()
            } else {
                old(self).key_seq().push(pair_key(row, column))
            },
    {
        let key = Pair::new(row, column);
        match self.find(key) {
            Some(i) => {
                let mut value = value;
                let slot = self.value_at_mut(i);
                std::mem::swap(slot, &mut value);
                Some(value)
            },
            None => {
                let ghost before = *self;
                self.keys.push(key);
                self.vals.push(value);
                proof {
                    Self::lemma_push(before, *self, key, value);
                }
                None
            },
        }
    }

    /// A cursor over the values, in entry order.
    pub fn values(&self) -> (r: Values<'_, V>)
        ensures
            r.remaining() == self.value_seq(),
    {
        let r = Values { items: self.vals.as_slice(), next: 0 };
        proof {
            assert(r.remaining() =~= self.value_seq());
        }
        r
    }

    /// A handle on the pair `{row, column}`: occupied where the table holds it,
    /// vacant where it does not.
    pub fn entry(&self, row: usize, column: usize) -> (r: TableEntry)
        requires
            self.wf(),
        ensures
            r.key() == pair_key(row, column),
            r.fits(self),
            r is Occupied <==> self@.contains_key(pair_key(row, column)),
    {
        let key = Pair::new(row, column);
        match self.find(key) {
            Some(i) => TableEntry::Occupied(OccupiedEntry { key, index: i }),
            None => TableEntry::Vacant(VacantEntry { key }),
        }
    }
}

impl TableEntry {
    /// The canonical pair that the handle is about.
    pub open spec fn key(&self) -> (usize, usize) {
        match self {
            TableEntry::Vacant(e) => e.key(),
            TableEntry::Occupied(e) => e.key(),
        }
    }

    /// Whether the handle still describes `table`.
    pub open spec fn fits<V>(&self, table: &Table<V>) -> bool {
        match self {
            TableEntry::Vacant(e) => e.fits(table),
            TableEntry::Occupied(e) => e.fits(table),
        }
    }

    /// The value of the pair, after storing `val` for it if the pair was vacant.
    pub fn or_insert<V>(self, table: &mut Table<V>, val: V) -> (r: &mut V)
        requires
            old(table).wf(),
            self.fits(old(table)),
        ensures
            *r == if old(table)@.contains_key(self.key()) {
                old(table)@[self.key()]
            } else {
                val
            },
            final(table).wf(),
            final(table)@ == old(table)@.insert(self.key(), *final(r)),
    {
        match self {
            TableEntry::Vacant(e) => e.insert(table, val),
            TableEntry::Occupied(e) => e.get(table),
        }
    }
}

impl VacantEntry {
    pub closed spec fn key(&self) -> (usize, usize) {
        self.key@
    }

    /// The pair is canonical and absent from `table`.
    pub closed spec fn fits<V>(&self, table: &Table<V>) -> bool {
        &&& table.wf()
        &&& self.key.0 <= self.key.1
        &&& !table@.contains_key(self.key@)
    }

    /// Adds the pair with value `val`, after all other entries, and hands the
    /// new value out.
    pub fn insert<V>(self, table: &mut Table<V>, val: V) -> (r: &mut V)
        requires
            self.fits(old(table)),
        ensures
            *r == val,
            final(table).wf(),
            final(table)@ == old(table)@.insert(self.key(), *final(r)),
            final(table).key_seq() == old(table).key_seq().push(self.key()),
    {
        let ghost before = *table;
        table.keys.push(self.key);
        table.vals.push(val);
        proof {
            Table::lemma_push(before, *table, self.key, val);
        }
        let last = table.vals.len() - 1;
        table.value_at_mut(last)
    }
}

impl OccupiedEntry {
    pub closed spec fn key(&self) -> (usize, usize) {
        self.key@
    }

    /// The pair stands in `table` at the remembered position.
    pub closed spec fn fits<V>(&self, table: &Table<V>) -> bool {
        &&& table.wf()
        &&& self.index < table.key_seq().len()
        &&& table.key_seq()[self.index as int] == self.key@
    }

    /// The value stored for the pair.
    pub fn get<V>(self, table: &mut Table<V>) -> (r: &mut V)
        requires
            self.fits(old(table)),
        ensures
            old(table)@.contains_key(self.key()),
            *r == old(table)@[self.key()],
            final(table).wf(),
            final(table)@ == old(table)@.insert(self.key(), *final(r)),
            final(table).key_seq() == old(table).key_seq(),
    {
        table.value_at_mut(self.index)
    }
}

impl<'a, V> Values<'a, V> {
    /// The values that the cursor has not handed out yet.
    pub closed spec fn remaining(&self) -> Seq<V> {
        if self.next <= self.items@.len() {
            self.items@.subrange(self.next as int, self.items@.len() as int)
        } else {
            Seq::empty()
        }
    }

    /// The next value, if any is left.
    pub fn next(&mut self) -> (r: Option<&'a V>)
        ensures
            match r {
                Some(v) => {
                    &&& old(self).remaining().len() > 0
                    &&& *v == old(self).remaining()[0]
                    &&& final(self).remaining() == old(self).remaining().drop_first()
                },
                None => {
                    &&& old(self).remaining().len() == 0
                    &&& final(self).remaining() == old(self).remaining()
                },
            },
    {
        if self.next < self.items.len() {
            let v = &self.items[self.next];
            proof {
                assert(old(self).remaining()[0] == self.items@[self.next as int]);
            }
            self.next = self.next + 1;
            proof {
                assert(self.remaining() =~= old(self).remaining().drop_first());
            }
            Some(v)
        } else {
            None
        }
    }
}

/// The order of the two keys never matters: `{a, b}` and `{b, a}` name the
/// same canonical pair, so every lookup, `get_mut` and `entry` reaches the
/// same entry either way.
pub proof fn lemma_pair_order_irrelevant<V>(t: &Table<V>, a: usize, b: usize)
    ensures
        pair_key(a, b) == pair_key(b, a),
        t.lookup(a, b) == t.lookup(b, a),
{
}

} // verus!
