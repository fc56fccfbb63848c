use vstd::prelude::*;

use std::num::ParseIntError;

verus! {

/// One voter's ballot: rank-groups from most to least preferred, each a list
/// of candidate names tied at that rank.
pub type Ballot = Vec<Vec<String>>;

/// A set of ballots.
pub struct Election {
    pub ballots: Vec<Ballot>,
}

/// std's `ParseIntError`, the error of a count that does not parse, carried
/// through unopened.
#[verifier::external_type_specification]
#[verifier::external_body]
pub struct ExParseIntError(ParseIntError);

/// Why a batch of ballots could not be read.
#[derive(Debug)]
pub enum ElectionParseError {
    /// A line has nothing before its first `:`.
    NoAmountError,
    /// A line has no `:`.
    NoVoteError,
    /// A line has more than one `:`.
    ExcessDataError,
    /// The count of a line is not a number that fits in 32 bits.
    AmountParseError(ParseIntError),
}

/// The pieces of `s` between the occurrences of `sep`, in order; `n`
/// separators give `n + 1` pieces, some of them maybe empty.
pub open spec fn split_on(s: Seq<char>, sep: char) -> Seq<Seq<char>>
    decreases s.len(),
{
    if s.len() == 0 {
        seq![Seq::empty()]
    } else {
        let r = split_on(s.drop_last(), sep);
        if s.last() == sep {
            r.push(Seq::empty())
        } else {
            r.update(r.len() - 1, r.last().push(s.last()))
        }
    }
}

/// The ballot written `s`: rank-groups separated by `>`, names within a
/// group by `=`. `"A>B=C>D"` is `[[A], [B, C], [D]]`.
pub open spec fn parse_vote(s: Seq<char>) -> Seq<Seq<Seq<char>>> {
    split_on(s, '>').map_values(|rank: Seq<char>| split_on(rank, '='))
}

/// Whether `c` is white space in the sense of Unicode's `White_Space`
/// property: the 25 code points listed in the Unicode Character Database.
pub open spec fn is_white_space(c: char) -> bool {
    ||| '\u{9}' <= c <= '\u{d}'
    ||| c == '\u{20}'
    ||| c == '\u{85}'
    ||| c == '\u{a0}'
    ||| c == '\u{1680}'
    ||| '\u{2000}' <= c <= '\u{200a}'
    ||| c == '\u{2028}'
    ||| c == '\u{2029}'
    ||| c == '\u{202f}'
    ||| c == '\u{205f}'
    ||| c == '\u{3000}'
}

pub open spec fn trim_start(s: Seq<char>) -> Seq<char>
    decreases s.len(),
{
    if s.len() > 0 && is_white_space(s[0]) {
        trim_start(s.drop_first())
    } else {
        s
    }
}

pub open spec fn trim_end(s: Seq<char>) -> Seq<char>
    decreases s.len(),
{
    if s.len() > 0 && is_white_space(s.last()) {
        trim_end(s.drop_last())
    } else {
        s
    }
}

/// `s` without white space at either end.
pub open spec fn trim(s: Seq<char>) -> Seq<char> {
    trim_end(trim_start(s))
}

/// The lines of a batch: the text without white space at its ends, split
/// at line feeds, each line without white space at its ends. Blank text has
/// no lines.
pub open spec fn batch_lines(data: Seq<char>) -> Seq<Seq<char>> {
    if trim(data).len() == 0 {
        Seq::empty()
    } else {
        split_on(trim(data), '\n').map_values(|l: Seq<char>| trim(l))
    }
}

pub open spec fn is_digit(c: char) -> bool {
    '0' <= c <= '9'
}

/// The number written in decimal by the digits `ds`.
pub open spec fn digits_value(ds: Seq<char>) -> nat
    decreases ds.len(),
{
    if ds.len() == 0 {
        0
    } else {
        digits_value(ds.drop_last()) * 10 + (ds.last() as nat - '0' as nat) as nat
    }
}

/// The number that `s` writes: an optional `+` and one decimal digit or more.
pub open spec fn number_text(s: Seq<char>) -> Option<nat> {
    let ds = if s.len() > 0 && s[0] == '+' {
        s.drop_first()
    } else {
        s
    };
    if ds.len() > 0 && forall|i: int| 0 <= i < ds.len() ==> is_digit(#[trigger] ds[i]) {
        Some(digits_value(ds))
    } else {
        None
    }
}

/// Whether the count `s` of a line is a number that fits in 32 bits.
pub open spec fn count_fits(s: Seq<char>) -> bool {
    number_text(s) is Some && number_text(s)->0 <= u32::MAX
}

/// A line of a batch is `count:vote`, with a count that fits in 32 bits.
pub open spec fn line_ok(line: Seq<char>) -> bool {
    let parts = split_on(line, ':');
    &&& parts[0].len() > 0
    &&& parts.len() == 2
    &&& count_fits(parts[0])
}

/// The error that a bad line gives, checked in this order: no count, no
/// vote, too many sections, a count that is not a number.
pub open spec fn fault_of(line: Seq<char>, e: ElectionParseError) -> bool {
    let parts = split_on(line, ':');
    match e {
        ElectionParseError::NoAmountError => parts[0].len() == 0,
        ElectionParseError::NoVoteError => parts[0].len() > 0 && parts.len() == 1,
        ElectionParseError::ExcessDataError => parts[0].len() > 0 && parts.len() > 2,
        ElectionParseError::AmountParseError(_) => parts[0].len() > 0 && parts.len() == 2
            && !count_fits(parts[0]),
    }
}

/// The ballots that the good lines `ls` stand for: each line's vote, as many
/// times as its count says.
pub open spec fn ballots_of(ls: Seq<Seq<char>>) -> Seq<Seq<Seq<Seq<char>>>>
    decreases ls.len(),
{
    if ls.len() == 0 {
        Seq::empty()
    } else {
        let parts = split_on(ls.last(), ':');
        ballots_of(ls.drop_last()) + Seq::new(
            number_text(parts[0])->0,
            |i: int| parse_vote(parts[1]),
        )
    }
}

/// Relies on `str::chars`: the characters of the string, in order.
#[verifier::external_body]
pub(crate) fn chars_of(s: &str) -> (r: Vec<char>)
    ensures
        r@ == s@,
{
    s.chars().collect()
}

/// Relies on `String`'s `FromIterator<&char>`: the string of the characters, in order.
#[verifier::external_body]
fn string_of(cs: &[char]) -> (r: String)
    ensures
        r@ == cs@,
{
    cs.iter().collect()
}

/// Relies on `char::is_whitespace`: whether the character has Unicode's
/// `White_Space` property.
#[verifier::external_body]
fn white_space(c: char) -> (r: bool)
    ensures
        r == is_white_space(c),
{
    c.is_whitespace()
}

/// Relies on `u32`'s `FromStr`: an optional `+` and decimal digits, whose
/// value fits in 32 bits, give that value; anything else is an error.
#[verifier::external_body]
fn parse_count(s: &str) -> (r: Result<u32, ParseIntError>)
    ensures
        match r {
            Ok(n) => number_text(s@) == Some(n as nat),
            Err(_) => !count_fits(s@),
        },
{
    s.parse::<u32>()
}

/// The views of a list of character vectors.
pub open spec fn pieces(v: Seq<Vec<char>>) -> Seq<Seq<char>> {
    v.map_values(|p: Vec<char>| p@)
}

/// Splits `cs` at each occurrence of `sep`.
fn split_chars(cs: &[char], sep: char) -> (r: Vec<Vec<char>>)
    ensures
        pieces(r@) == split_on(cs@, sep),
{
    let mut parts: Vec<Vec<char>> = Vec::new();
    let mut cur: Vec<char> = Vec::new();
    let mut i: usize = 0;
    proof {
        assert(cs@.take(0) =~= Seq::<char>::empty());
        assert(pieces(parts@).push(cur@) =~= split_on(cs@.take(0), sep));
    }
    while i < cs.len()
        invariant
            i <= cs@.len(),
            pieces(parts@).push(cur@) == split_on(cs@.take(i as int), sep),
        decreases cs@.len() - i,
    {
        let c = cs[i];
        proof {
            assert(cs@.take(i + 1).drop_last() =~= cs@.take(i as int));
            assert(cs@.take(i + 1).last() == c);
        }
        if c == sep {
            let ghost before = pieces(parts@);
            let done = cur;
            parts.push(done);
            cur = Vec::new();
            proof {
                assert(pieces(parts@) =~= before.push(done@));
                assert(pieces(parts@).push(cur@) =~= before.push(done@).push(Seq::empty()));
            }
        } else {
            let ghost before = pieces(parts@);
            let ghost old_cur = cur@;
            cur.push(c);
            proof {
                let r = before.push(old_cur);
                assert(r.last() == old_cur);
                assert(pieces(parts@).push(cur@) =~= r.update(r.len() - 1, r.last().push(c)));
            }
        }
        i = i + 1;
    }
    proof {
        assert(cs@.take(i as int) =~= cs@);
    }
    let ghost before = pieces(parts@);
    let last = cur;
    parts.push(last);
    proof {
        assert(pieces(parts@) =~= before.push(last@));
    }
    parts
}

/// `cs` without white space at either end.
fn trim_chars(cs: &[char]) -> (r: Vec<char>)
    ensures
        r@ == trim(cs@),
{
    let n = cs.len();
    let mut i: usize = 0;
    proof {
        assert(cs@.skip(0) =~= cs@);
    }
    while i < n && white_space(cs[i])
        invariant
            n == cs@.len(),
            i <= n,
            trim_start(cs@) == trim_start(cs@.skip(i as int)),
        decreases n - i,
    {
        proof {
            assert(cs@.skip(i as int).drop_first() =~= cs@.skip(i + 1));
        }
        i = i + 1;
    }
    proof {
        if i == n {
            assert(cs@.skip(i as int) =~= Seq::<char>::empty());
        }
        assert(trim_start(cs@) == cs@.subrange(i as int, n as int));
    }
    let mut j: usize = n;
    while j > i && white_space(cs[j - 1])
        invariant
            n == cs@.len(),
            i <= j <= n,
            trim(cs@) == trim_end(cs@.subrange(i as int, j as int)),
        decreases j - i,
    {
        proof {
            assert(cs@.subrange(i as int, j as int).drop_last() =~= cs@.subrange(i as int, j - 1));
        }
        j = j - 1;
    }
    let mut r: Vec<char> = Vec::new();
    let mut k: usize = i;
    while k < j
        invariant
            i <= k <= j <= n,
            n == cs@.len(),
            r@ == cs@.subrange(i as int, k as int),
        decreases j - k,
    {
        r.push(cs[k]);
        proof {
            assert(r@ =~= cs@.subrange(i as int, k + 1));
        }
        k = k + 1;
    }
    r
}

/// The ballot written by the characters `cs`.
fn ballot_from(cs: &[char]) -> (r: Ballot)
    ensures
        r.deep_view() == parse_vote(cs@),
{
    let ranks = split_chars(cs, '>');
    let ghost want = parse_vote(cs@);
    let mut ballot: Ballot = Vec::new();
    let mut i: usize = 0;
    while i < ranks.len()
        invariant
            i <= ranks@.len(),
            pieces(ranks@) == split_on(cs@, '>'),
            want == parse_vote(cs@),
            ballot.deep_view() == want.take(i as int),
        decreases ranks@.len() - i,
    {
        let names = split_chars(ranks[i].as_slice(), '=');
        let mut group: Vec<String> = Vec::new();
        let mut k: usize = 0;
        proof {
            assert(ranks@[i as int]@ == pieces(ranks@)[i as int]);
        }
        while k < names.len()
            invariant
                k <= names@.len(),
                pieces(names@) == split_on(ranks@[i as int]@, '='),
                group.deep_view() == pieces(names@).take(k as int),
            decreases names@.len() - k,
        {
            let name = string_of(names[k].as_slice());
            let ghost before = group.deep_view();
            group.push(name);
            proof {
                assert(group.deep_view() =~= before.push(name@));
                assert(pieces(names@)[k as int] == names@[k as int]@);
                assert(group.deep_view() =~= pieces(names@).take(k + 1));
            }
            k = k + 1;
        }
        proof {
            assert(group.deep_view() =~= want[i as int]);
        }
        let ghost before = ballot.deep_view();
        let ghost gv = group.deep_view();
        ballot.push(group);
        proof {
            assert(ballot.deep_view() =~= before.push(gv));
            assert(ballot.deep_view() =~= want.take(i + 1));
        }
        i = i + 1;
    }
    proof {
        assert(want.take(i as int) =~= want);
    }
    ballot
}

impl Election {
    /// The ballots as names: ballot, then rank-group, then candidate.
    pub open spec fn view(&self) -> Seq<Seq<Seq<Seq<char>>>> {
        self.ballots.deep_view()
    }

    /// An election without ballots.
    pub fn new() -> (r: Election)
        ensures
            r@ == Seq::<Seq<Seq<Seq<char>>>>::empty(),
    {
        let r = Election { ballots: Vec::new() };
        proof {
            assert(r@ =~= Seq::<Seq<Seq<Seq<char>>>>::empty());
        }
        r
    }

    /// The ballots, in the order in which they were added.
    pub fn votes(&self) -> (r: &[Ballot])
        ensures
            r.deep_view() == self@,
    {
        self.ballots.as_slice()
    }

    /// Adds the ballot written `data`, as in `"A>B=C>D"`.
    pub fn add_vote(&mut self, data: &str)
        ensures
            final(self)@ == old(self)@.push(parse_vote(data@)),
    {
        let cs = chars_of(data);
        let ballot = ballot_from(cs.as_slice());
        let ghost before = self@;
        self.ballots.push(ballot);
        proof {
            assert(self@ =~= before.push(parse_vote(data@)));
        }
    }
}

impl ElectionParseError {
    /// A human-readable account of the error.
    pub fn description(&self) -> (r: String)
        ensures
            *self is NoAmountError ==> r@ == "could not find amount"@,
            *self is NoVoteError ==> r@ == "could not find vote"@,
            *self is ExcessDataError ==> r@ == "too many sections"@,
    {
        match self {
            ElectionParseError::NoAmountError => "could not find amount".to_owned(),
            ElectionParseError::NoVoteError => "could not find vote".to_owned(),
            ElectionParseError::ExcessDataError => "too many sections".to_owned(),
            ElectionParseError::AmountParseError(e) => e.to_string(),
        }
    }
}

/// A split always has one piece or more.
pub proof fn lemma_split_len(s: Seq<char>, sep: char)
    ensures
        split_on(s, sep).len() >= 1,
    decreases s.len(),
{
    if s.len() > 0 {
        lemma_split_len(s.drop_last(), sep);
    }
}

impl Election {
    /// Adds the ballots of a batch: one line per kind of vote, written
    /// `count:vote`, for `count` copies of the ballot `vote`. Lines are read
    /// in order; at the first bad line, the error comes back and the ballots
    /// of the lines before it stay added.
    pub fn add_ballots(&mut self, data: &str) -> (r: Result<(), ElectionParseError>)
        ensures
            ({
                let ls = batch_lines(data@);
                match r {
                    Ok(()) => {
                        &&& forall|k: int| 0 <= k < ls.len() ==> #[trigger] line_ok(ls[k])
                        &&& final(self)@ == old(self)@ + ballots_of(ls)
                    },
                    Err(e) => exists|k: int|
                        0 <= k < ls.len() && (forall|j: int| 0 <= j < k ==> #[trigger] line_ok(ls[j]))
                            && !line_ok(ls[k]) && #[trigger] fault_of(ls[k], e) && final(self)@
                            == old(self)@ + ballots_of(ls.take(k)),
                }
            }),
    {
        let cs = chars_of(data);
        let text = trim_chars(cs.as_slice());
        let ghost ls = batch_lines(data@);
        let ghost start = self@;
        if text.len() == 0 {
            proof {
                assert(self@ =~= start + ballots_of(ls));
            }
            return Ok(());
        }
        let raw = split_chars(text.as_slice(), '\n');
        let mut k: usize = 0;
        proof {
            assert(ls.take(0) =~= Seq::<Seq<char>>::empty());
            assert(self@ =~= start + ballots_of(ls.take(0)));
        }
        while k < raw.len()
            invariant
                ls == batch_lines(data@),
                ls.len() == raw@.len(),
                forall|j: int| 0 <= j < ls.len() ==> ls[j] == trim(#[trigger] raw@[j]@),
                k <= raw@.len(),
                forall|j: int| 0 <= j < k ==> #[trigger] line_ok(ls[j]),
                self@ == start + ballots_of(ls.take(k as int)),
                start == old(self)@,
            decreases raw@.len() - k,
        {
            let line = trim_chars(raw[k].as_slice());
            let parts = split_chars(line.as_slice(), ':');
            let ghost ps = split_on(ls[k as int], ':');
            proof {
                lemma_split_len(ls[k as int], ':');
                assert(pieces(parts@) == ps);
                assert(parts@[0]@ == ps[0]);
            }
            if parts[0].len() == 0 {
                proof {
                    assert(fault_of(ls[k as int], ElectionParseError::NoAmountError));
                }
                return Err(ElectionParseError::NoAmountError);
            }
            if parts.len() < 2 {
                proof {
                    assert(fault_of(ls[k as int], ElectionParseError::NoVoteError));
                }
                return Err(ElectionParseError::NoVoteError);
            }
            if parts.len() > 2 {
                proof {
                    assert(fault_of(ls[k as int], ElectionParseError::ExcessDataError));
                }
                return Err(ElectionParseError::ExcessDataError);
            }
            let count_text = string_of(parts[0].as_slice());
            let amount = match parse_count(count_text.as_str()) {
                Ok(n) => n,
                Err(e) => {
                    let err = ElectionParseError::AmountParseError(e);
                    proof {
                        assert(fault_of(ls[k as int], err));
                    }
                    return Err(err);
                },
            };
            let ghost vote = parse_vote(ps[1]);
            let ghost mid = self@;
            proof {
                assert(parts@[1]@ == ps[1]);
            }
            let mut t: u32 = 0;
            proof {
                assert(mid =~= mid + Seq::new(0, |i: int| vote));
            }
            while t < amount
                invariant
                    t <= amount,
                    vote == parse_vote(parts@[1]@),
                    parts@.len() == 2,
                    self@ == mid + Seq::new(t as nat, |i: int| vote),
                decreases amount - t,
            {
                let ballot = ballot_from(parts[1].as_slice());
                let ghost before = self@;
                self.ballots.push(ballot);
                proof {
                    assert(self@ =~= before.push(vote));
                    assert(self@ =~= mid + Seq::new((t + 1) as nat, |i: int| vote));
                }
                t = t + 1;
            }
            proof {
                assert(ls.take(k + 1).drop_last() =~= ls.take(k as int));
                assert(ls.take(k + 1).last() == ls[k as int]);
                assert(number_text(ps[0])->0 == amount as nat);
                assert(self@ =~= start + ballots_of(ls.take(k + 1)));
                assert(line_ok(ls[k as int]));
            }
            k = k + 1;
        }
        proof {
            assert(ls.take(k as int) =~= ls);
        }
        Ok(())
    }
}

} // verus!
