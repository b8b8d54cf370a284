//! Storage tiers and the rule for choosing between two of them.

use vstd::prelude::*;

verus! {

/// The storage tier a key would like to live on.
///
/// Tiers are ordered by speed: `Fastest` is faster than `Fast`, which is
/// faster than `Slow`, which is faster than `Slowest`. `NoPreference` is the
/// default and ranks below every named tier, so that any explicit wish wins
/// over the absence of one.
#[derive(Clone, Copy, Debug, PartialEq, Eq, Structural)]
pub enum StoragePreference {
    Fastest,
    Fast,
    Slow,
    Slowest,
    NoPreference,
}

/// The tier code that stands for "no preference" in serialized form.
pub const NO_PREFERENCE_CODE: u8 = 255;

/// The tier that a code stands for. Codes that name no tier mean
/// `NoPreference`.
pub open spec fn tier_of_code(code: u8) -> StoragePreference {
    if code == 0 {
        StoragePreference::Fastest
    } else if code == 1 {
        StoragePreference::Fast
    } else if code == 2 {
        StoragePreference::Slow
    } else if code == 3 {
        StoragePreference::Slowest
    } else {
        StoragePreference::NoPreference
    }
}

/// The one-byte code a tier is written as.
pub open spec fn code_of_tier(p: StoragePreference) -> u8 {
    match p {
        StoragePreference::Fastest => 0,
        StoragePreference::Fast => 1,
        StoragePreference::Slow => 2,
        StoragePreference::Slowest => 3,
        StoragePreference::NoPreference => NO_PREFERENCE_CODE,
    }
}

/// Position in the speed order; a smaller rank is a faster tier.
pub open spec fn speed_rank(p: StoragePreference) -> int {
    match p {
        StoragePreference::Fastest => 0,
        StoragePreference::Fast => 1,
        StoragePreference::Slow => 2,
        StoragePreference::Slowest => 3,
        StoragePreference::NoPreference => 4,
    }
}

/// The faster of two tiers; on a tie both are the same tier.
pub open spec fn faster_of(a: StoragePreference, b: StoragePreference) -> StoragePreference {
    if speed_rank(a) <= speed_rank(b) {
        a
    } else {
        b
    }
}

impl StoragePreference {
    /// Number of bytes a tier occupies when written out.
    pub const SERIALIZED_SIZE: usize = 1;

    /// Builds a tier from its code. Unknown codes are read as
    /// `NoPreference`, so that codes added later do not break old readers.
    pub fn new(tier_code: u8) -> (p: StoragePreference)
        ensures
            p == tier_of_code(tier_code),
    {
        if tier_code == 0 {
            StoragePreference::Fastest
        } else if tier_code == 1 {
            StoragePreference::Fast
        } else if tier_code == 2 {
            StoragePreference::Slow
        } else if tier_code == 3 {
            StoragePreference::Slowest
        } else {
            StoragePreference::NoPreference
        }
    }

    /// The code this tier is written as.
    pub fn as_u8(self) -> (code: u8)
        ensures
            code == code_of_tier(self),
            tier_of_code(code) == self,
    {
        match self {
            StoragePreference::Fastest => 0,
            StoragePreference::Fast => 1,
            StoragePreference::Slow => 2,
            StoragePreference::Slowest => 3,
            StoragePreference::NoPreference => NO_PREFERENCE_CODE,
        }
    }

    /// Whether `self` is strictly faster than `other`.
    pub fn is_faster_than(self, other: StoragePreference) -> (r: bool)
        ensures
            r == (speed_rank(self) < speed_rank(other)),
    {
        self.as_u8() < other.as_u8()
    }

    /// Returns the faster of the two tiers.
    pub fn choose_faster(a: StoragePreference, b: StoragePreference) -> (p: StoragePreference)
        ensures
            p == faster_of(a, b),
    {
        if b.is_faster_than(a) {
            b
        } else {
            a
        }
    }
}

impl Default for StoragePreference {
    fn default() -> (p: StoragePreference)
        ensures
            p == StoragePreference::NoPreference,
    {
        StoragePreference::NoPreference
    }
}

/// Choosing does not depend on the order of the two tiers, and choosing
/// between a tier and itself gives that tier.
pub proof fn lemma_faster_of_commutative_idempotent(a: StoragePreference, b: StoragePreference)
    ensures
        faster_of(a, b) == faster_of(b, a),
        faster_of(a, a) == a,
{
}

/// The chosen tier is one of the two, and no slower than either.
pub proof fn lemma_faster_of_is_minimum(a: StoragePreference, b: StoragePreference)
    ensures
        faster_of(a, b) == a || faster_of(a, b) == b,
        speed_rank(faster_of(a, b)) <= speed_rank(a),
        speed_rank(faster_of(a, b)) <= speed_rank(b),
{
}

/// Reading a tier's code back gives the tier.
pub proof fn lemma_code_round_trip(p: StoragePreference)
    ensures
        tier_of_code(code_of_tier(p)) == p,
{
}

} // verus!
