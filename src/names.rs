use vstd::prelude::*;

verus! {

/// Whether the name `a` comes before the name `b` in lexicographic order of
/// their characters.
pub open spec fn name_less(a: Seq<char>, b: Seq<char>) -> bool
    decreases a.len(),
{
    if a.len() == 0 {
        b.len() > 0
    } else if b.len() == 0 {
        false
    } else if a[0] != b[0] {
        a[0] < b[0]
    } else {
        name_less(a.drop_first(), b.drop_first())
    }
}

/// The names of `s` are in strictly increasing order.
pub open spec fn names_sorted(s: Seq<Seq<char>>) -> bool {
    forall|i: int, j: int| 0 <= i < j < s.len() ==> name_less(#[trigger] s[i], #[trigger] s[j])
}

/// Lexicographic order is a strict total order.
pub proof fn lemma_name_order(a: Seq<char>, b: Seq<char>, c: Seq<char>)
    ensures
        !name_less(a, a),
        name_less(a, b) ==> !name_less(b, a),
        a != b ==> name_less(a, b) || name_less(b, a),
        name_less(a, b) && name_less(b, c) ==> name_less(a, c),
    decreases a.len() + b.len() + c.len(),
{
    if a.len() > 0 && b.len() > 0 && c.len() > 0 {
        lemma_name_order(a.drop_first(), b.drop_first(), c.drop_first());
    } else if a.len() > 0 && b.len() > 0 {
        lemma_name_order(a.drop_first(), b.drop_first(), c);
    } else if a.len() > 0 {
        lemma_name_order(a.drop_first(), b, c);
    }
    if a.len() > 0 && b.len() > 0 && a[0] == b[0] && a.drop_first() == b.drop_first() {
        assert forall|i: int| 0 <= i < a.len() implies a[i] == b[i] by {
            if i > 0 {
                assert(a.drop_first()[i - 1] == b.drop_first()[i - 1]);
            }
        }
        assert(a =~= b);
    }
    if a.len() == 0 && b.len() == 0 {
        assert(a =~= b);
    }
}

/// Whether the name `a` comes before the name `b`.
pub fn name_before(a: &[char], b: &[char]) -> (r: bool)
    ensures
        r == name_less(a@, b@),
{
    let mut i: usize = 0;
    proof {
        assert(a@.skip(0) =~= a@);
        assert(b@.skip(0) =~= b@);
    }
    while i < a.len() && i < b.len()
        invariant
            i <= a@.len(),
            i <= b@.len(),
            name_less(a@, b@) == name_less(a@.skip(i as int), b@.skip(i as int)),
        decreases a@.len() - i,
    {
        proof {
            assert(a@.skip(i as int)[0] == a@[i as int]);
            assert(b@.skip(i as int)[0] == b@[i as int]);
            assert(a@.skip(i as int).drop_first() =~= a@.skip(i + 1));
            assert(b@.skip(i as int).drop_first() =~= b@.skip(i + 1));
        }
        if a[i] != b[i] {
            return a[i] < b[i];
        }
        i = i + 1;
    }
    i < b.len()
}

/// Two strictly increasing lists of the same names are equal.
pub proof fn lemma_sorted_names_unique(s1: Seq<Seq<char>>, s2: Seq<Seq<char>>)
    requires
        names_sorted(s1),
        names_sorted(s2),
        forall|y: Seq<char>| #[trigger] s1.contains(y) <==> s2.contains(y),
    ensures
        s1 == s2,
    decreases s1.len(),
{
    if s1.len() == 0 {
        if s2.len() > 0 {
            assert(s2.contains(s2[0]));
            assert(s1.contains(s2[0]));
        }
        assert(s1 =~= s2);
    } else {
        assert(s1.contains(s1[0]));
        let a = s1[0];
        assert(s2.contains(a));
        let b = s2[0];
        assert(s2.contains(b));
        assert(s1.contains(b));
        if a != b {
            let j = choose|j: int| 0 <= j < s2.len() && s2[j] == a;
            let i = choose|i: int| 0 <= i < s1.len() && s1[i] == b;
            assert(name_less(s2[0], s2[j]));
            assert(name_less(s1[0], s1[i]));
            lemma_name_order(a, b, a);
        }
        let r1 = s1.drop_first();
        let r2 = s2.drop_first();
        assert forall|i: int, j: int| 0 <= i < j < r1.len() implies name_less(
            #[trigger] r1[i],
            #[trigger] r1[j],
        ) by {
            assert(name_less(s1[i + 1], s1[j + 1]));
        }
        assert forall|i: int, j: int| 0 <= i < j < r2.len() implies name_less(
            #[trigger] r2[i],
            #[trigger] r2[j],
        ) by {
            assert(name_less(s2[i + 1], s2[j + 1]));
        }
        assert forall|y: Seq<char>| #[trigger] r1.contains(y) <==> r2.contains(y) by {
            if r1.contains(y) {
                let k = choose|k: int| 0 <= k < r1.len() && r1[k] == y;
                assert(s1[k + 1] == y);
                assert(name_less(s1[0], s1[k + 1]));
                lemma_name_order(a, y, a);
                assert(s1.contains(y));
                assert(s2.contains(y));
                let m = choose|m: int| 0 <= m < s2.len() && s2[m] == y;
                assert(m != 0);
                assert(r2[m - 1] == y);
            }
            if r2.contains(y) {
                let k = choose|k: int| 0 <= k < r2.len() && r2[k] == y;
                assert(s2[k + 1] == y);
                assert(name_less(s2[0], s2[k + 1]));
                lemma_name_order(b, y, b);
                assert(s2.contains(y));
                assert(s1.contains(y));
                let m = choose|m: int| 0 <= m < s1.len() && s1[m] == y;
                assert(m != 0);
                assert(r1[m - 1] == y);
            }
        }
        lemma_sorted_names_unique(r1, r2);
        assert(s1 =~= s2) by {
            assert forall|i: int| 0 <= i < s1.len() implies s1[i] == s2[i] by {
                if i > 0 {
                    assert(r1[i - 1] == r2[i - 1]);
                }
            }
        }
    }
}

proof fn lemma_insert_name(s: Seq<Seq<char>>, x: Seq<char>, pos: int)
    requires
        names_sorted(s),
        !s.contains(x),
        0 <= pos <= s.len(),
        forall|q: int| 0 <= q < pos ==> !name_less(x, #[trigger] s[q]),
        pos < s.len() ==> name_less(x, s[pos]),
    ensures
        names_sorted(s.insert(pos, x)),
{
    let t = s.insert(pos, x);
    assert forall|i: int, j: int| 0 <= i < j < t.len() implies name_less(
        #[trigger] t[i],
        #[trigger] t[j],
    ) by {
        if i < pos && j == pos {
            assert(s[i] != x);
            lemma_name_order(x, s[i], x);
        } else if i < pos && j > pos {
            assert(t[j] == s[j - 1]);
            if j - 1 != i {
                assert(name_less(s[i], s[j - 1]));
            }
        } else if i == pos {
            assert(t[j] == s[j - 1]);
            if j - 1 > pos {
                assert(name_less(s[pos], s[j - 1]));
                lemma_name_order(x, s[pos], s[j - 1]);
            }
        } else if i > pos {
            assert(t[i] == s[i - 1] && t[j] == s[j - 1]);
        } else {
            assert(t[i] == s[i] && t[j] == s[j]);
        }
    }
}

/// The views of a list of strings.
pub open spec fn name_seq(v: Seq<String>) -> Seq<Seq<char>> {
    v.map_values(|s: String| s@)
}

/// The names of `ns` in increasing order.
pub fn sort_names(ns: &Vec<String>) -> (r: Vec<String>)
    requires
        name_seq(ns@).no_duplicates(),
    ensures
        names_sorted(name_seq(r@)),
        forall|y: Seq<char>| #[trigger] name_seq(r@).contains(y) <==> name_seq(ns@).contains(y),
{
    let mut sorted: Vec<String> = Vec::new();
    let mut k: usize = 0;
    while k < ns.len()
        invariant
            name_seq(ns@).no_duplicates(),
            k <= ns@.len(),
            names_sorted(name_seq(sorted@)),
            forall|y: Seq<char>| #[trigger]
                name_seq(sorted@).contains(y) <==> name_seq(ns@).take(k as int).contains(y),
        decreases ns@.len() - k,
    {
        let x = ns[k].clone();
        let xc = crate::election::chars_of(x.as_str());
        let ghost s = name_seq(sorted@);
        let mut pos: usize = 0;
        while pos < sorted.len()
            invariant
                pos <= sorted@.len(),
                s == name_seq(sorted@),
                xc@ == x@,
                forall|q: int| 0 <= q < pos ==> !name_less(x@, #[trigger] s[q]),
            ensures
                pos <= sorted@.len(),
                forall|q: int| 0 <= q < pos ==> !name_less(x@, #[trigger] s[q]),
                pos < sorted@.len() ==> name_less(x@, s[pos as int]),
            decreases sorted@.len() - pos,
        {
            let yc = crate::election::chars_of(sorted[pos].as_str());
            proof {
                assert(s[pos as int] == sorted@[pos as int]@);
            }
            if name_before(xc.as_slice(), yc.as_slice()) {
                break;
            }
            pos = pos + 1;
        }
        proof {
            let nk = name_seq(ns@);
            assert(nk.take(k + 1) =~= nk.take(k as int).push(x@));
            assert(!s.contains(x@)) by {
                if s.contains(x@) {
                    assert(nk.take(k as int).contains(x@));
                    let nk0 = nk.take(k as int);
                    let i = choose|i: int| 0 <= i < nk0.len() && nk0[i] == x@;
                    assert(nk[i] == nk[k as int]);
                }
            }
            lemma_insert_name(s, x@, pos as int);
        }
        sorted.insert(pos, x);
        proof {
            let nk = name_seq(ns@);
            assert(name_seq(sorted@) =~= s.insert(pos as int, x@));
            assert forall|y: Seq<char>| #[trigger] name_seq(sorted@).contains(y) <==> nk.take(
                k + 1,
            ).contains(y) by {
                let t = s.insert(pos as int, x@);
                if t.contains(y) {
                    let i = choose|i: int| 0 <= i < t.len() && t[i] == y;
                    if i < pos {
                        assert(s[i] == y);
                    } else if i > pos {
                        assert(s[i - 1] == y);
                    }
                    if y != x@ {
                        assert(s.contains(y));
                        assert(nk.take(k as int).contains(y));
                        let nk0 = nk.take(k as int);
                        let m = choose|m: int| 0 <= m < nk0.len() && nk0[m] == y;
                        assert(nk.take(k + 1)[m] == y);
                    } else {
                        assert(nk.take(k + 1)[k as int] == y);
                    }
                }
                let nk1 = nk.take(k + 1);
                if nk1.contains(y) {
                    let m = choose|m: int| 0 <= m < nk1.len() && nk1[m] == y;
                    if m < k {
                        assert(nk.take(k as int)[m] == y);
                        assert(s.contains(y));
                        let i = choose|i: int| 0 <= i < s.len() && s[i] == y;
                        if i < pos {
                            assert(t[i] == y);
                        } else {
                            assert(t[i + 1] == y);
                        }
                    } else {
                        assert(t[pos as int] == y);
                    }
                }
            }
        }
        k = k + 1;
    }
    proof {
        assert(name_seq(ns@).take(k as int) =~= name_seq(ns@));
    }
    sorted
}

} // verus!
