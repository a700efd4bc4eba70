//! What is known of a cosine without arithmetic.
//!
//! The similarity of two vectors is the cosine of the angle between them. It
//! is computed in floating point, elsewhere. Three things hold of it whatever
//! the components are, and they are seen to here: it lies between -1 and 1,
//! it is 1 for a vector and itself, and it is taken as 0 where a vector has
//! magnitude zero. A vector is held as the bits of its components.

use vstd::prelude::*;
use crate::similarity::{unit_key, Similarity, INFINITY_BITS, ONE_KEY, SIGN_BIT};

verus! {

/// Whether `bits` is the pattern of a zero, positive or negative.
pub open spec fn is_zero_component(bits: u64) -> bool {
    bits == 0 || bits == SIGN_BIT
}

/// Whether `bits` is the pattern of a finite number.
pub open spec fn is_finite_component(bits: u64) -> bool {
    if bits >= SIGN_BIT {
        bits - SIGN_BIT < INFINITY_BITS
    } else {
        bits < INFINITY_BITS
    }
}

/// Whether two patterns are one finite number: the same pattern, or two zeros.
pub open spec fn same_number(a: u64, b: u64) -> bool {
    &&& is_finite_component(a)
    &&& is_finite_component(b)
    &&& a == b || (is_zero_component(a) && is_zero_component(b))
}

/// Whether a vector has magnitude zero: every component is a zero.
pub open spec fn is_zero_vector(vector: Seq<u64>) -> bool {
    forall|i: int| 0 <= i < vector.len() ==> is_zero_component(#[trigger] vector[i])
}

/// Whether two vectors are one vector of finite numbers.
pub open spec fn same_vector(a: Seq<u64>, b: Seq<u64>) -> bool {
    &&& a.len() == b.len()
    &&& forall|i: int| 0 <= i < a.len() ==> same_number(#[trigger] a[i], b[i])
}

/// The similarity of an embedding to a query that a search goes by, given
/// the score that was handed in for the pair. Where the cosine is known
/// without arithmetic, it stands: 0 where either vector has magnitude zero,
/// 1 where the two are one vector. Elsewhere the score handed in stands,
/// brought into the range from -1 to 1.
pub open spec fn settled_score(embedding: Seq<u64>, query: Seq<u64>, score: int) -> int {
    if is_zero_vector(query) || is_zero_vector(embedding) {
        0
    } else if same_vector(embedding, query) {
        ONE_KEY as int
    } else {
        unit_key(score)
    }
}

/// The similarity that a search goes by is that of a cosine: it lies
/// between -1 and 1, it is 0 for a pair that involves a vector of magnitude
/// zero, and it is 1 for a vector with magnitude and itself.
pub proof fn lemma_settled_score_is_a_cosine(embedding: Seq<u64>, query: Seq<u64>, score: int)
    ensures
        -ONE_KEY <= settled_score(embedding, query, score) <= ONE_KEY,
        is_zero_vector(embedding) || is_zero_vector(query) ==> settled_score(embedding, query, score)
            == 0,
        same_vector(embedding, query) && !is_zero_vector(query) ==> settled_score(
            embedding,
            query,
            score,
        ) == ONE_KEY,
{
    if same_vector(embedding, query) && !is_zero_vector(query) && is_zero_vector(embedding) {
        assert forall|i: int| 0 <= i < query.len() implies is_zero_component(#[trigger] query[i]) by {
            assert(same_number(embedding[i], query[i]));
            assert(is_zero_component(embedding[i]));
        }
    }
}

/// Whether every component of `vector` is a zero.
pub fn has_no_magnitude(vector: &Vec<u64>) -> (yes: bool)
    ensures
        yes == is_zero_vector(vector@),
{
    let mut i: usize = 0;
    while i < vector.len()
        invariant
            i <= vector@.len(),
            forall|j: int| 0 <= j < i ==> is_zero_component(#[trigger] vector@[j]),
        decreases vector@.len() - i,
    {
        if vector[i] != 0 && vector[i] != SIGN_BIT {
            return false;
        }
        i += 1;
    }
    true
}

/// Whether `a` and `b` are one vector of finite numbers.
pub fn is_same_vector(a: &Vec<u64>, b: &Vec<u64>) -> (yes: bool)
    ensures
        yes == same_vector(a@, b@),
{
    if a.len() != b.len() {
        return false;
    }
    let mut i: usize = 0;
    while i < a.len()
        invariant
            i <= a@.len(),
            a@.len() == b@.len(),
            forall|j: int| 0 <= j < i ==> same_number(#[trigger] a@[j], b@[j]),
        decreases a@.len() - i,
    {
        let x: u64 = a[i];
        let y: u64 = b[i];
        let x_size: u64 = if x >= SIGN_BIT {
            x - SIGN_BIT
        } else {
            x
        };
        let y_size: u64 = if y >= SIGN_BIT {
            y - SIGN_BIT
        } else {
            y
        };
        let same: bool = x_size < INFINITY_BITS && y_size < INFINITY_BITS && (x == y || (x_size == 0
            && y_size == 0));
        if !same {
            assert(!same_number(a@[i as int], b@[i as int]));
            return false;
        }
        i += 1;
    }
    true
}

/// Settles the score that was handed in for an embedding and a query.
pub fn settle(embedding: &Vec<u64>, query: &Vec<u64>, score: Similarity) -> (settled: Similarity)
    ensures
        settled@ == settled_score(embedding@, query@, score@),
{
    if has_no_magnitude(query) || has_no_magnitude(embedding) {
        Similarity::zero()
    } else if is_same_vector(embedding, query) {
        Similarity::one()
    } else {
        score.within_unit()
    }
}

} // verus!
