pub mod artifacts;
pub mod ctor_args;
pub mod identifier;
pub mod scorer;

use vstd::prelude::*;

verus! {

/// Denominator of the fixed-point scale used for similarity scores: a score of
/// `SCORE_SCALE` means "completely different", a score of `0` means "identical".
pub const SCORE_SCALE: u64 = 1_000_000;

/// Scores at or above this value (0.85 of the scale) are considered too
/// unreliable to report a match.
pub const MATCH_THRESHOLD: u64 = 850_000;

/// The threshold lies strictly inside the score scale, so an exact match
/// (score `0`) is always accepted and a maximal score is always rejected.
pub proof fn lemma_threshold_in_scale()
    ensures
        0 < MATCH_THRESHOLD <= SCORE_SCALE,
{
}

} // verus!
