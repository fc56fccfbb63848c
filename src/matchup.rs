use vstd::prelude::*;

use crate::matchup_result::MatchupResult;

verus! {

/// A matchup between two candidates, with how many times each was ranked
/// strictly ahead of the other.
#[derive(Clone, Copy, PartialEq, Eq, Structural)]
pub struct Matchup {
    first: usize,
    second: usize,
    first_wins: u32,
    second_wins: u32,
}

/// A win was credited to a candidate that is not part of the matchup.
pub struct MatchupError {
    description: String,
}

impl MatchupError {
    pub closed spec fn message(&self) -> Seq<char> {
        self.description@
    }

    fn new(description: String) -> (r: MatchupError)
        ensures
            r.message() == description@,
    {
        MatchupError { description }
    }

    /// A human-readable account of the error.
    pub fn description(&self) -> (r: &str)
        ensures
            r@ == self.message(),
    {
        self.description.as_str()
    }
}

impl Matchup {
    pub closed spec fn first(&self) -> usize {
        self.first
    }

    pub closed spec fn second(&self) -> usize {
        self.second
    }

    pub closed spec fn first_wins(&self) -> u32 {
        self.first_wins
    }

    pub closed spec fn second_wins(&self) -> u32 {
        self.second_wins
    }

    /// The winner of the matchup: the candidate with more wins. On equal
    /// counts the second candidate is taken: in a tally the one with the
    /// larger number, which for a tally built by `SumMatrix::new` is the one
    /// whose name comes later.
    pub open spec fn winner(&self) -> usize {
        if self.first_wins() > self.second_wins() {
            self.first()
        } else {
            self.second()
        }
    }

    pub open spec fn loser(&self) -> usize {
        if self.first_wins() > self.second_wins() {
            self.second()
        } else {
            self.first()
        }
    }

    pub open spec fn winner_wins(&self) -> u32 {
        if self.first_wins() > self.second_wins() {
            self.first_wins()
        } else {
            self.second_wins()
        }
    }

    pub open spec fn loser_wins(&self) -> u32 {
        if self.first_wins() > self.second_wins() {
            self.second_wins()
        } else {
            self.first_wins()
        }
    }

    /// Two matchups with the same candidates and counts are the same.
    pub proof fn lemma_same_fields(a: Matchup, b: Matchup)
        requires
            a.first() == b.first(),
            a.second() == b.second(),
            a.first_wins() == b.first_wins(),
            a.second_wins() == b.second_wins(),
        ensures
            a == b,
    {
    }

    /// A matchup between `first` and `second` with no wins on either side.
    pub fn new(first: usize, second: usize) -> (r: Matchup)
        ensures
            r.first() == first,
            r.second() == second,
            r.first_wins() == 0,
            r.second_wins() == 0,
    {
        Matchup { first, second, first_wins: 0, second_wins: 0 }
    }

    pub fn first_candidate(&self) -> (r: usize)
        ensures
            r == self.first(),
    {
        self.first
    }

    pub fn second_candidate(&self) -> (r: usize)
        ensures
            r == self.second(),
    {
        self.second
    }

    pub fn wins_of_first(&self) -> (r: u32)
        ensures
            r == self.first_wins(),
    {
        self.first_wins
    }

    pub fn wins_of_second(&self) -> (r: u32)
        ensures
            r == self.second_wins(),
    {
        self.second_wins
    }

    /// The directional outcome of the matchup, ranked by margin when
    /// `use_margin` holds and by the winner's wins otherwise.
    pub fn result(&self, use_margin: bool) -> (r: MatchupResult)
        ensures
            r == MatchupResult::made(
                self.winner(),
                self.loser(),
                self.winner_wins(),
                self.loser_wins(),
                use_margin,
            ),
            r.winner() == self.winner(),
            r.loser() == self.loser(),
            r.wins() == self.winner_wins(),
            r.loses() == self.loser_wins(),
            r.use_margin() == use_margin,
    {
        if self.first_wins > self.second_wins {
            MatchupResult::new(self.first, self.second, self.first_wins, self.second_wins, use_margin)
        } else {
            MatchupResult::new(self.second, self.first, self.second_wins, self.first_wins, use_margin)
        }
    }

    /// Credits one more win to `winner`, which must be one of the two candidates.
    pub fn add_win_for(&mut self, winner: usize) -> (r: Result<(), MatchupError>)
        requires
            winner == old(self).first() ==> old(self).first_wins() < u32::MAX,
            winner != old(self).first() && winner == old(self).second() ==> old(self).second_wins()
                < u32::MAX,
        ensures
            r is Ok <==> (winner == old(self).first() || winner == old(self).second()),
            final(self).first() == old(self).first(),
            final(self).second() == old(self).second(),
            final(self).first_wins() == if winner == old(self).first() {
                old(self).first_wins() + 1
            } else {
                old(self).first_wins() as int
            },
            final(self).second_wins() == if winner != old(self).first() && winner
                == old(self).second() {
                old(self).second_wins() + 1
            } else {
                old(self).second_wins() as int
            },
    {
        if winner == self.first {
            self.first_wins = self.first_wins + 1;
            Ok(())
        } else if winner == self.second {
            self.second_wins = self.second_wins + 1;
            Ok(())
        } else {
            Err(MatchupError::new("Winner wasn't in matchup".to_owned()))
        }
    }
}

} // verus!
