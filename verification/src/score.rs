//! The value of a state for a player: a whole number of twentieths, or an
//! infinity where the game is decided.

use vstd::prelude::*;

verus! {

/// The value of a state. Greater is better for the player it is stated for.
#[derive(PartialEq, Eq, Structural, Copy, Clone, Debug)]
pub enum Score {
    /// The game is lost.
    NegInf,
    /// A value in twentieths of a unit of flow.
    Finite(i64),
    /// The game is won.
    PosInf,
}

impl Score {
    /// The place of the score on the number line: scores are ordered as
    /// their keys are.
    pub open spec fn key(self) -> int {
        match self {
            Score::NegInf => i64::MIN - 1,
            Score::Finite(v) => v as int,
            Score::PosInf => i64::MAX + 2,
        }
    }

    /// The same value seen from the other player. The least finite value has
    /// no opposite and gives the greatest.
    pub open spec fn negated(self) -> Score {
        match self {
            Score::NegInf => Score::PosInf,
            Score::Finite(v) => if v == i64::MIN {
                Score::Finite(i64::MAX)
            } else {
                Score::Finite((-v) as i64)
            },
            Score::PosInf => Score::NegInf,
        }
    }

    /// The greater of two scores.
    pub open spec fn maximum(self, other: Score) -> Score {
        if self.key() >= other.key() {
            self
        } else {
            other
        }
    }

    /// The lesser of two scores.
    pub open spec fn minimum(self, other: Score) -> Score {
        if self.key() <= other.key() {
            self
        } else {
            other
        }
    }

    /// The score has an opposite: it is not the least finite value.
    pub open spec fn proper(self) -> bool {
        self != Score::Finite(i64::MIN)
    }

    /// The same value seen from the other player.
    pub fn neg(self) -> (r: Score)
        ensures
            r == self.negated(),
    {
        match self {
            Score::NegInf => Score::PosInf,
            Score::Finite(v) => if v == i64::MIN {
                Score::Finite(i64::MAX)
            } else {
                Score::Finite(-v)
            },
            Score::PosInf => Score::NegInf,
        }
    }

    /// Whether the score is at least the other.
    pub fn ge(self, other: Score) -> (r: bool)
        ensures
            r == (self.key() >= other.key()),
    {
        match (self, other) {
            (_, Score::NegInf) => true,
            (Score::PosInf, _) => true,
            (Score::NegInf, _) => false,
            (_, Score::PosInf) => false,
            (Score::Finite(a), Score::Finite(b)) => a >= b,
        }
    }

    /// Whether the score is at most the other.
    pub fn le(self, other: Score) -> (r: bool)
        ensures
            r == (self.key() <= other.key()),
    {
        other.ge(self)
    }

    /// The greater of two scores.
    pub fn max(self, other: Score) -> (r: Score)
        ensures
            r == self.maximum(other),
    {
        if self.ge(other) {
            self
        } else {
            other
        }
    }

    /// The lesser of two scores.
    pub fn min(self, other: Score) -> (r: Score)
        ensures
            r == self.minimum(other),
    {
        if self.le(other) {
            self
        } else {
            other
        }
    }
}

/// Scores with the same key are the same score.
pub proof fn lemma_key_injective(a: Score, b: Score)
    ensures
        a.key() == b.key() <==> a == b,
{
}

/// Taking the opposite turns the order around, and twice gives the score
/// back.
pub proof fn lemma_negated(a: Score, b: Score)
    requires
        a.proper(),
        b.proper(),
    ensures
        a.negated().negated() == a,
        a.negated().proper(),
        a.key() <= b.key() <==> b.negated().key() <= a.negated().key(),
        a.negated().key() == -a.key(),
{
}

} // verus!
