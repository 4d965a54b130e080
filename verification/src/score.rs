//! Sorted-set scores, ordered as IEEE 754 totalOrder orders their bits.
use vstd::prelude::*;

verus! {

/// A score. It is kept as the rank of its bit pattern in the total order of
/// all 64-bit floating-point values, so that the order of scores is the
/// order of this one integer; negative zero comes before positive zero.
#[derive(Clone, Copy, Debug, PartialEq, Eq, PartialOrd, Ord, Hash, Structural)]
pub struct Score {
    rank: u64,
}

/// The rank of negative zero.
pub const NEGATIVE_ZERO: u64 = 0x7fff_ffff_ffff_ffff;

/// The rank of a bit pattern: negative values count down from the middle,
/// the others count up from it.
pub open spec fn rank_of_bits(bits: u64) -> u64 {
    if bits >= 0x8000_0000_0000_0000u64 {
        (0xffff_ffff_ffff_ffffu64 - bits) as u64
    } else {
        (bits + 0x8000_0000_0000_0000u64) as u64
    }
}

impl Score {
    /// Where the score stands in the total order.
    pub closed spec fn rank(&self) -> u64 {
        self.rank
    }

    /// Two scores of the same rank are the same score.
    pub proof fn lemma_rank(a: Score, b: Score)
        ensures
            a.rank() == b.rank() <==> a == b,
    {
    }

    /// The score with the given bit pattern.
    pub closed spec fn of_bits(bits: u64) -> Score {
        Score { rank: rank_of_bits(bits) }
    }

    /// A bit pattern and its score have the same rank.
    pub proof fn lemma_of_bits(bits: u64)
        ensures
            Score::of_bits(bits).rank() == rank_of_bits(bits),
    {
    }

    /// The score with the given bit pattern.
    pub fn from_bits(bits: u64) -> (r: Score)
        ensures
            r == Score::of_bits(bits),
            r.rank() == rank_of_bits(bits),
    {
        if bits >= 0x8000_0000_0000_0000u64 {
            Score { rank: 0xffff_ffff_ffff_ffffu64 - bits }
        } else {
            Score { rank: bits + 0x8000_0000_0000_0000u64 }
        }
    }

    /// The score's bit pattern.
    pub fn to_bits(self) -> (r: u64)
        ensures
            Score::of_bits(r) == self,
            rank_of_bits(r) == self.rank(),
    {
        if self.rank < 0x8000_0000_0000_0000u64 {
            0xffff_ffff_ffff_ffffu64 - self.rank
        } else {
            self.rank - 0x8000_0000_0000_0000u64
        }
    }

    /// Where the score's number stands among the numbers: the two zeros are
    /// one number.
    pub open spec fn level(&self) -> u64 {
        if self.rank() == NEGATIVE_ZERO {
            0x8000_0000_0000_0000u64
        } else {
            self.rank()
        }
    }

    /// Where the score's number stands among the numbers.
    pub fn number(self) -> (r: u64)
        ensures
            r == self.level(),
    {
        if self.rank == NEGATIVE_ZERO {
            0x8000_0000_0000_0000u64
        } else {
            self.rank
        }
    }

    /// Whether `self` comes strictly before `other`.
    pub fn precedes(self, other: Score) -> (r: bool)
        ensures
            r == (self.rank() < other.rank()),
    {
        self.rank < other.rank
    }
}

/// No two bit patterns share a rank, so a score gives back its bits.
pub proof fn lemma_rank_injective(a: u64, b: u64)
    ensures
        rank_of_bits(a) == rank_of_bits(b) ==> a == b,
{
}

/// Values of different sign: the negative one comes first. Two positive
/// values are ordered as their bits, two negative ones the other way round.
pub proof fn lemma_rank_order(a: u64, b: u64)
    ensures
        a >= 0x8000_0000_0000_0000u64 && b < 0x8000_0000_0000_0000u64 ==> rank_of_bits(a)
            < rank_of_bits(b),
        a < b < 0x8000_0000_0000_0000u64 ==> rank_of_bits(a) < rank_of_bits(b),
        0x8000_0000_0000_0000u64 <= a < b ==> rank_of_bits(b) < rank_of_bits(a),
{
}

} // verus!
