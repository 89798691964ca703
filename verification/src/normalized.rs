//! Edit distance scaled by the lengths of the two sequences, kept as an exact
//! fraction.

use crate::levenshtein::{
    chars_of, distance, edit_distance, lemma_distance_identity, lemma_distance_symmetric,
    lemma_distance_upper_bound, lemma_distance_zero, longer,
};
use vstd::prelude::*;

verus! {

/// A non-negative fraction `num / den`.
///
/// Both fields are wide enough that twice a `usize` fits, so no pair of
/// sequences that memory can hold makes them overflow.
#[derive(Clone, Copy, Debug, PartialEq, Eq, Structural)]
pub struct Ratio {
    /// The numerator.
    pub num: u128,
    /// The denominator.
    pub den: u128,
}

/// Numerator of the normalised distance: twice the edit distance.
pub open spec fn normalized_num(a: Seq<char>, b: Seq<char>) -> nat {
    2 * distance(a, b)
}

/// Denominator of the normalised distance: the two lengths added up, and one
/// where both sequences are empty, so that the fraction is then zero rather
/// than undefined.
pub open spec fn normalized_den(a: Seq<char>, b: Seq<char>) -> nat {
    if a.len() + b.len() == 0 {
        1
    } else {
        a.len() + b.len()
    }
}

/// The normalised distance between `a` and `b` as a fraction.
pub open spec fn normalized(a: Seq<char>, b: Seq<char>) -> Ratio {
    Ratio { num: normalized_num(a, b) as u128, den: normalized_den(a, b) as u128 }
}

impl Ratio {
    /// A fraction has a positive denominator.
    pub open spec fn wf(self) -> bool {
        self.den > 0
    }

    /// Whether this fraction is, term by term, the normalised distance between
    /// `a` and `b`.
    pub open spec fn is_normalized(self, a: Seq<char>, b: Seq<char>) -> bool {
        &&& self.num == normalized_num(a, b)
        &&& self.den == normalized_den(a, b)
    }

    /// Whether the fraction is zero.
    pub fn is_zero(&self) -> (zero: bool)
        ensures
            zero == (self.num == 0),
    {
        self.num == 0
    }
}

/// A fraction that is, term by term, the normalised distance between two
/// sequences is that distance.
pub proof fn lemma_normalized_unique(r: Ratio, a: Seq<char>, b: Seq<char>)
    requires
        r.is_normalized(a, b),
    ensures
        r == normalized(a, b),
{
}

/// A sequence is at normalised distance zero from itself.
pub proof fn lemma_normalized_identity(s: Seq<char>)
    ensures
        normalized_num(s, s) == 0,
        normalized_den(s, s) > 0,
{
    lemma_distance_identity(s);
}

/// The normalised distance is zero for equal sequences and for no others.
pub proof fn lemma_normalized_zero(a: Seq<char>, b: Seq<char>)
    ensures
        normalized_num(a, b) == 0 <==> a == b,
{
    lemma_distance_zero(a, b);
}

/// The normalised distance is the same fraction in both directions.
pub proof fn lemma_normalized_symmetric(a: Seq<char>, b: Seq<char>)
    ensures
        normalized_num(a, b) == normalized_num(b, a),
        normalized_den(a, b) == normalized_den(b, a),
{
    lemma_distance_symmetric(a, b);
}

/// The numerator is at most twice the longer length. So the normalised
/// distance is at most two, and at most one between sequences of the same
/// length.
pub proof fn lemma_normalized_bound(a: Seq<char>, b: Seq<char>)
    ensures
        normalized_num(a, b) <= 2 * longer(a.len(), b.len()),
        normalized_num(a, b) <= 2 * normalized_den(a, b),
        a.len() == b.len() ==> normalized_num(a, b) <= normalized_den(a, b),
{
    lemma_distance_upper_bound(a, b);
}

/// The normalised distance between two character slices:
/// twice their edit distance over the sum of their lengths.
pub fn normalized_distance(a: &[char], b: &[char]) -> (r: Ratio)
    ensures
        r.is_normalized(a@, b@),
        r.wf(),
{
    let dist: usize = edit_distance(a, b);
    let num: u128 = 2 * (dist as u128);
    let total: u128 = (a.len() as u128) + (b.len() as u128);
    let den: u128 = if total == 0 {
        1
    } else {
        total
    };
    Ratio { num, den }
}

/// The normalised distance between two strings, counted in characters.
pub fn d2(w1: &str, w2: &str) -> (r: Ratio)
    ensures
        r.is_normalized(w1@, w2@),
        r.wf(),
{
    let a = chars_of(w1);
    let b = chars_of(w2);
    normalized_distance(a.as_slice(), b.as_slice())
}

} // verus!
