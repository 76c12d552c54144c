//! What holds of the score rule and of the batch transformation, for all
//! inputs. That group and scalar evaluation agree in every lane is
//! [`crate::group::lemma_group_matches_scalar`].

use vstd::prelude::*;
use crate::arith::{lemma_multiply_monotone, spec_multiply, spec_sum};
use crate::batch::transformed;
use crate::binary32::{spec_clamp, spec_ge, spec_is_nan, value};
use crate::score::{adjusted_score, BatchParameters, ScoreData};

verus! {

/// The transformed batch holds, at every index under the size, the score
/// that the scalar rule gives for the record at that index, and past the
/// size what was there.
pub proof fn lemma_batch_equals_scalar(
    params: BatchParameters,
    scores: Seq<u32>,
    adv_weights: Seq<u32>,
    view_restricted: Seq<bool>,
    n: int,
    i: int,
)
    requires
        0 <= i < scores.len(),
    ensures
        i < n ==> transformed(params, scores, adv_weights, view_restricted, n)[i] == ScoreData::of(
            params,
            scores[i],
            adv_weights[i],
            view_restricted[i],
        ).spec_calc_score(),
        i >= n ==> transformed(params, scores, adv_weights, view_restricted, n)[i] == scores[i],
{
}

/// A record whose view is not restricted keeps its score, whatever the
/// parameters.
pub proof fn lemma_unrestricted_passes_through(record: ScoreData)
    requires
        !record.view_restricted,
    ensures
        record.spec_calc_score() == record.score,
{
}

/// A restricted record that is not eligible gets `no_adv_score`.
pub proof fn lemma_ineligible_gets_sentinel(record: ScoreData)
    requires
        record.view_restricted,
        !record.eligible(),
    ensures
        record.spec_calc_score() == record.no_adv_score,
{
}

/// A weight exactly on the threshold is eligible: the comparison is
/// inclusive. So is a score exactly on its threshold.
pub proof fn lemma_threshold_is_inclusive(record: ScoreData)
    requires
        !spec_is_nan(record.adv_weight),
        !spec_is_nan(record.score),
        record.adv_weight == record.min_adv_weight,
        record.score == record.min_score,
    ensures
        record.eligible(),
{
}

/// Between two bounds that are numbers in order, the clamped value is a
/// number between them, whatever was clamped.
pub proof fn lemma_clamp_is_bounded(x: u32, lo: u32, hi: u32)
    requires
        !spec_is_nan(lo),
        !spec_is_nan(hi),
        value(lo) <= value(hi),
    ensures
        !spec_is_nan(spec_clamp(x, lo, hi)),
        value(lo) <= value(spec_clamp(x, lo, hi)) <= value(hi),
{
}

/// The score of an eligible restricted record lies between `max_score`
/// times `min_adv_boost` and `max_score` times `max_adv_boost`, given that
/// `max_score` is not negative, that the bounds are in order, and that the
/// two products and the score are numbers.
pub proof fn lemma_boost_is_bounded(record: ScoreData)
    requires
        record.view_restricted,
        record.eligible(),
        value(record.max_score) >= 0,
        value(record.min_adv_boost) <= value(record.max_adv_boost),
        !spec_is_nan(spec_multiply(record.max_score, record.min_adv_boost)),
        !spec_is_nan(spec_multiply(record.max_score, record.max_adv_boost)),
        !spec_is_nan(record.spec_calc_score()),
    ensures
        spec_ge(record.spec_calc_score(), spec_multiply(record.max_score, record.min_adv_boost)),
        spec_ge(spec_multiply(record.max_score, record.max_adv_boost), record.spec_calc_score()),
{
    let raw = spec_sum(spec_multiply(record.adv_weight, record.slope), record.intercept);
    lemma_clamp_is_bounded(raw, record.min_adv_boost, record.max_adv_boost);
    lemma_multiply_monotone(record.max_score, record.min_adv_boost, record.boost());
    lemma_multiply_monotone(record.max_score, record.boost(), record.max_adv_boost);
}

/// A second transformation with the same parameters applies the rule to
/// the scores that the first one left, not to those it started from.
pub proof fn lemma_second_pass(
    params: BatchParameters,
    scores: Seq<u32>,
    adv_weights: Seq<u32>,
    view_restricted: Seq<bool>,
    n: int,
    i: int,
)
    requires
        0 <= i < n <= scores.len(),
    ensures
        transformed(
            params,
            transformed(params, scores, adv_weights, view_restricted, n),
            adv_weights,
            view_restricted,
            n,
        )[i] == adjusted_score(
            params,
            adjusted_score(params, scores[i], adv_weights[i], view_restricted[i]),
            adv_weights[i],
            view_restricted[i],
        ),
{
}

} // verus!
