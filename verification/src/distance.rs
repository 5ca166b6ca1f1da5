//! The Levenshtein distance between two strings, and its basic laws.
use vstd::prelude::*;

verus! {

/// The least of three natural numbers.
pub open spec fn least_of_three(x: nat, y: nat, z: nat) -> nat {
    if x <= y && x <= z {
        x
    } else if y <= z {
        y
    } else {
        z
    }
}

/// What replacing the last character of one string by that of the other costs.
pub open spec fn replace_cost(x: char, y: char) -> nat {
    if x == y {
        0
    } else {
        1
    }
}

/// The Levenshtein distance: the least number of single-character
/// insertions, deletions and substitutions that turn `a` into `b`.
pub open spec fn levenshtein(a: Seq<char>, b: Seq<char>) -> nat
    decreases a.len() + b.len(),
{
    if a.len() == 0 {
        b.len()
    } else if b.len() == 0 {
        a.len()
    } else {
        least_of_three(
            levenshtein(a.drop_last(), b) + 1,
            levenshtein(a, b.drop_last()) + 1,
            levenshtein(a.drop_last(), b.drop_last()) + replace_cost(a.last(), b.last()),
        )
    }
}

/// The distance does not depend on the direction of the edit.
pub proof fn lemma_distance_symmetric(a: Seq<char>, b: Seq<char>)
    ensures
        levenshtein(a, b) == levenshtein(b, a),
    decreases a.len() + b.len(),
{
    if a.len() > 0 && b.len() > 0 {
        lemma_distance_symmetric(a.drop_last(), b);
        lemma_distance_symmetric(a, b.drop_last());
        lemma_distance_symmetric(a.drop_last(), b.drop_last());
    }
}

/// A string is at distance zero from itself.
pub proof fn lemma_distance_to_self(a: Seq<char>)
    ensures
        levenshtein(a, a) == 0,
    decreases a.len(),
{
    if a.len() > 0 {
        lemma_distance_to_self(a.drop_last());
    }
}

/// Only identical strings are at distance zero.
pub proof fn lemma_distance_zero_only_if_equal(a: Seq<char>, b: Seq<char>)
    requires
        levenshtein(a, b) == 0,
    ensures
        a == b,
    decreases a.len() + b.len(),
{
    if a.len() > 0 && b.len() > 0 {
        lemma_distance_zero_only_if_equal(a.drop_last(), b.drop_last());
        assert(a =~= a.drop_last().push(a.last()));
        assert(b =~= b.drop_last().push(b.last()));
    } else {
        assert(a =~= b);
    }
}

/// Two strings are at distance zero exactly when they are the same string.
pub proof fn lemma_distance_zero_iff_equal(a: Seq<char>, b: Seq<char>)
    ensures
        levenshtein(a, b) == 0 <==> a == b,
{
    if levenshtein(a, b) == 0 {
        lemma_distance_zero_only_if_equal(a, b);
    }
    if a == b {
        lemma_distance_to_self(a);
    }
}

/// The distance never exceeds the length of the longer string.
pub proof fn lemma_distance_bounded(a: Seq<char>, b: Seq<char>)
    ensures
        levenshtein(a, b) <= a.len() || levenshtein(a, b) <= b.len(),
    decreases a.len() + b.len(),
{
    if a.len() > 0 && b.len() > 0 {
        lemma_distance_bounded(a.drop_last(), b.drop_last());
    }
}

/// Calls `edit_distance::edit_distance`, which the crate documents as the
/// Levenshtein distance between its two arguments, counted in characters.
/// The contract takes that documentation at its word: the result is
/// `levenshtein` of the two strings. Nothing here proves it of the code
/// that is called.
#[verifier::external_body]
pub(crate) fn edit_distance(a: &str, b: &str) -> (d: usize)
    ensures
        d == levenshtein(a@, b@),
{
    edit_distance::edit_distance(a, b)
}

/// The Levenshtein distance between two strings, counted in characters.
/// It is the same in both directions, and zero for equal strings only.
pub fn distance(a: &str, b: &str) -> (d: usize)
    ensures
        d == levenshtein(a@, b@),
        d == levenshtein(b@, a@),
        d == 0 <==> a@ == b@,
        d <= a@.len() || d <= b@.len(),
{
    proof {
        lemma_distance_symmetric(a@, b@);
        lemma_distance_zero_iff_equal(a@, b@);
        lemma_distance_bounded(a@, b@);
    }
    edit_distance(a, b)
}

} // verus!
