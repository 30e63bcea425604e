use vstd::prelude::*;
use vstd::arithmetic::div_mod::{lemma_div_is_ordered, lemma_div_multiples_vanish};
use crate::SCORE_SCALE;

verus! {

/// A similarity scorer: a policy that turns two byte sequences into a
/// normalized distance on the fixed-point scale, `0` meaning "treat as a
/// byte-identical match" and `SCORE_SCALE` meaning "completely different".
///
/// The identification engine is verified against this contract alone, so any
/// scorer meeting it can be plugged in.
pub trait SimilarityScorer: Sized {
    /// The score as a mathematical function of the two byte sequences.
    spec fn score_spec(&self, expected: Seq<u8>, actual: Seq<u8>) -> int;

    /// Every score lies on the scale, and byte-identical inputs score `0`.
    proof fn lemma_score_properties(&self, expected: Seq<u8>, actual: Seq<u8>)
        ensures
            0 <= self.score_spec(expected, actual) <= SCORE_SCALE as int,
            expected == actual ==> self.score_spec(expected, actual) == 0,
    ;

    /// Computes the score of `actual` against `expected`.
    fn score(&self, expected: &[u8], actual: &[u8]) -> (s: u64)
        ensures
            s as int == self.score_spec(expected@, actual@),
    ;
}

/// Number of positions below `n` at which the two sequences hold different
/// bytes; a position past the end of the shorter sequence never counts.
pub open spec fn mismatch_count(a: Seq<u8>, b: Seq<u8>, n: int) -> int
    decreases n,
{
    if n <= 0 {
        0
    } else {
        mismatch_count(a, b, n - 1) + if a[n - 1] != b[n - 1] {
            1int
        } else {
            0int
        }
    }
}

proof fn lemma_mismatch_count_bounds(a: Seq<u8>, b: Seq<u8>, n: int)
    ensures
        0 <= mismatch_count(a, b, n) <= if n >= 0 {
            n
        } else {
            0int
        },
    decreases n,
{
    if n > 0 {
        lemma_mismatch_count_bounds(a, b, n - 1);
    }
}

/// Distance policy of [`ByteDiffScorer`]: the length difference plus the
/// number of mismatching positions in the common prefix, as a fraction of the
/// longer length on the fixed-point scale. Two empty sequences are identical
/// and score `0`.
pub open spec fn byte_diff_score(expected: Seq<u8>, actual: Seq<u8>) -> int {
    let longer = if expected.len() >= actual.len() {
        expected.len() as int
    } else {
        actual.len() as int
    };
    let shorter = if expected.len() >= actual.len() {
        actual.len() as int
    } else {
        expected.len() as int
    };
    if longer == 0 {
        0
    } else {
        (longer - shorter + mismatch_count(expected, actual, shorter)) * (SCORE_SCALE as int)
            / longer
    }
}

/// A simple byte-level scorer: it charges one unit for every position where
/// the two sequences differ and one for every byte of length difference,
/// normalized by the longer length.
pub struct ByteDiffScorer;

proof fn lemma_byte_diff_score_in_scale(expected: Seq<u8>, actual: Seq<u8>)
    ensures
        0 <= byte_diff_score(expected, actual) <= SCORE_SCALE as int,
        expected == actual ==> byte_diff_score(expected, actual) == 0,
{
    let longer = if expected.len() >= actual.len() {
        expected.len() as int
    } else {
        actual.len() as int
    };
    let shorter = if expected.len() >= actual.len() {
        actual.len() as int
    } else {
        expected.len() as int
    };
    lemma_mismatch_count_bounds(expected, actual, shorter);
    if longer > 0 {
        let n = longer - shorter + mismatch_count(expected, actual, shorter);
        assert(0 <= n <= longer);
        lemma_div_is_ordered(n * (SCORE_SCALE as int), longer * (SCORE_SCALE as int), longer);
        lemma_div_multiples_vanish(SCORE_SCALE as int, longer);
        assert(n * (SCORE_SCALE as int) <= longer * (SCORE_SCALE as int)) by (nonlinear_arith)
            requires
                0 <= n <= longer,
        ;
        assert(0 <= n * (SCORE_SCALE as int)) by (nonlinear_arith)
            requires
                0 <= n,
        ;
        vstd::arithmetic::div_mod::lemma_div_pos_is_pos(n * (SCORE_SCALE as int), longer);
        if expected == actual {
            lemma_mismatch_equal_is_zero(expected, shorter);
        }
    }
}

proof fn lemma_mismatch_equal_is_zero(a: Seq<u8>, n: int)
    ensures
        mismatch_count(a, a, n) == 0,
    decreases n,
{
    if n > 0 {
        lemma_mismatch_equal_is_zero(a, n - 1);
    }
}

impl SimilarityScorer for ByteDiffScorer {
    open spec fn score_spec(&self, expected: Seq<u8>, actual: Seq<u8>) -> int {
        byte_diff_score(expected, actual)
    }

    proof fn lemma_score_properties(&self, expected: Seq<u8>, actual: Seq<u8>)
    {
        lemma_byte_diff_score_in_scale(expected, actual);
    }

    fn score(&self, expected: &[u8], actual: &[u8]) -> (s: u64)
    {
        let (longer, shorter): (&[u8], &[u8]) = if expected.len() >= actual.len() {
            (expected, actual)
        } else {
            (actual, expected)
        };
        if longer.len() == 0 {
            return 0;
        }
        let mut n: u128 = (longer.len() - shorter.len()) as u128;
        let mut i: usize = 0;
        while i < shorter.len()
            invariant
                i <= shorter.len() <= longer.len(),
                longer.len() > 0,
                forall|j: int| 0 <= j < shorter@.len() ==> (longer@[j] != shorter@[j])
                    == (expected@[j] != actual@[j]),
                n == longer@.len() - shorter@.len() + mismatch_count(expected@, actual@, i as int),
                n <= longer@.len() - shorter@.len() + i,
            decreases shorter.len() - i,
        {
            if longer[i] != shorter[i] {
                n = n + 1;
            }
            i += 1;
        }
        proof {
            lemma_mismatch_count_bounds(expected@, actual@, shorter@.len() as int);
            let num = n as int;
            let den = longer@.len() as int;
            assert(num * (SCORE_SCALE as int) <= den * (SCORE_SCALE as int)) by (nonlinear_arith)
                requires
                    0 <= num <= den,
            ;
            assert(0 <= num * (SCORE_SCALE as int)) by (nonlinear_arith)
                requires
                    0 <= num,
            ;
            lemma_div_is_ordered(num * (SCORE_SCALE as int), den * (SCORE_SCALE as int), den);
            lemma_div_multiples_vanish(SCORE_SCALE as int, den);
            vstd::arithmetic::div_mod::lemma_div_pos_is_pos(num * (SCORE_SCALE as int), den);
        }
        let s128: u128 = n * (SCORE_SCALE as u128) / (longer.len() as u128);
        s128 as u64
    }
}

} // verus!
