//! Similarity scores as ordered integers.
//!
//! A score arrives as the 64 bits of an IEEE 754 double. The index never does
//! arithmetic on scores; it only compares them. So a score is kept as its
//! *key*: the signed integer whose order is the numeric order of the doubles.

use vstd::prelude::*;

verus! {

/// The sign bit of a 64-bit pattern.
pub const SIGN_BIT: u64 = 0x8000_0000_0000_0000;

/// The pattern of positive infinity, the largest magnitude that is a number.
pub const INFINITY_BITS: u64 = 0x7FF0_0000_0000_0000;

/// The key of positive infinity: no key is larger.
pub const MAX_KEY: i64 = 0x7FF0_0000_0000_0000;

/// The key of 1, the similarity of a vector to itself.
pub const ONE_KEY: i64 = 0x3FF0_0000_0000_0000;

/// Whether `bits` is the pattern of a NaN: all exponent bits set and a
/// mantissa that is not zero.
pub open spec fn is_nan_bits(bits: u64) -> bool {
    if bits >= SIGN_BIT {
        bits - SIGN_BIT > INFINITY_BITS
    } else {
        bits > INFINITY_BITS
    }
}

/// The key of a bit pattern. Patterns of numbers map to their magnitude with
/// the sign in front, so both zeros have key 0. A NaN, the outcome of an
/// undefined quotient, counts as 0.
pub open spec fn key_of_bits(bits: u64) -> int {
    if is_nan_bits(bits) {
        0
    } else if bits >= SIGN_BIT {
        -(bits - SIGN_BIT)
    } else {
        bits as int
    }
}

/// The bit pattern that a key stands for; key 0 is positive zero.
pub open spec fn bits_of_key(key: int) -> u64 {
    if key >= 0 {
        key as u64
    } else {
        (SIGN_BIT - key) as u64
    }
}

/// The key from that of -1 to that of 1 that is nearest to `key`.
pub open spec fn unit_key(key: int) -> int {
    if key > ONE_KEY {
        ONE_KEY as int
    } else if key < -ONE_KEY {
        -ONE_KEY
    } else {
        key
    }
}

/// Whether `key` is the key of some number.
pub open spec fn valid_key(key: int) -> bool {
    -MAX_KEY <= key <= MAX_KEY
}

/// A similarity score: never a NaN, and ordered as the numbers are.
#[derive(Clone, Copy, Debug, PartialEq, Eq, Structural)]
pub struct Similarity {
    key: i64,
}

impl View for Similarity {
    type V = int;

    closed spec fn view(&self) -> int {
        self.key as int
    }
}

impl Similarity {
    /// What holds of every score: its key is the key of a number.
    #[verifier::type_invariant]
    pub open spec fn inv(self) -> bool {
        valid_key(self@)
    }

    /// Reads a score from the bits of a double.
    pub fn from_bits(bits: u64) -> (score: Similarity)
        ensures
            score@ == key_of_bits(bits),
            valid_key(score@),
    {
        let key: i64 = if bits >= SIGN_BIT {
            let magnitude: u64 = bits - SIGN_BIT;
            if magnitude > INFINITY_BITS {
                0
            } else {
                -(magnitude as i64)
            }
        } else if bits > INFINITY_BITS {
            0
        } else {
            bits as i64
        };
        Similarity { key }
    }

    /// The score 0.
    pub fn zero() -> (score: Similarity)
        ensures
            score@ == 0,
            valid_key(score@),
    {
        Similarity { key: 0 }
    }

    /// The score 1.
    pub fn one() -> (score: Similarity)
        ensures
            score@ == ONE_KEY,
            valid_key(score@),
    {
        Similarity { key: ONE_KEY }
    }

    /// This score if it lies between -1 and 1, and else the nearer of the two.
    pub fn within_unit(self) -> (score: Similarity)
        ensures
            score@ == unit_key(self@),
            valid_key(score@),
    {
        if self.key > ONE_KEY {
            Similarity { key: ONE_KEY }
        } else if self.key < -ONE_KEY {
            Similarity { key: -ONE_KEY }
        } else {
            proof {
                use_type_invariant(&self);
            }
            self
        }
    }

    /// The bits of the double that this score stands for.
    pub fn to_bits(&self) -> (bits: u64)
        ensures
            bits == bits_of_key(self@),
            !is_nan_bits(bits),
            key_of_bits(bits) == self@,
    {
        proof {
            use_type_invariant(self);
        }
        if self.key >= 0 {
            self.key as u64
        } else {
            let magnitude: u64 = (-self.key) as u64;
            SIGN_BIT + magnitude
        }
    }

    /// Whether this score is at least `other`.
    pub fn at_least(&self, other: &Similarity) -> (yes: bool)
        ensures
            yes == (self@ >= other@),
    {
        self.key >= other.key
    }

    /// Whether this score is below `other`.
    pub fn below(&self, other: &Similarity) -> (yes: bool)
        ensures
            yes == (self@ < other@),
    {
        self.key < other.key
    }
}

/// Two scores with the same key are the same score.
pub proof fn lemma_same_key_same_score(a: Similarity, b: Similarity)
    ensures
        (a@ == b@) == (a == b),
{
}

/// Reading the bits of a key gives the key back.
pub proof fn lemma_key_round_trip(key: int)
    requires
        valid_key(key),
    ensures
        !is_nan_bits(bits_of_key(key)),
        key_of_bits(bits_of_key(key)) == key,
{
}

/// A pattern that is a number, and not negative zero, is the pattern of its key.
pub proof fn lemma_bits_round_trip(bits: u64)
    requires
        !is_nan_bits(bits),
        bits != SIGN_BIT,
    ensures
        valid_key(key_of_bits(bits)),
        bits_of_key(key_of_bits(bits)) == bits,
{
}

} // verus!
