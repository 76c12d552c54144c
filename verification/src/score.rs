//! The scalar rule: the adjusted score of one record.
//!
//! A record whose view is not restricted keeps its score. A restricted
//! record that is eligible gets `max_score` times the clamped linear boost
//! of its advertising weight; one that is not eligible gets `no_adv_score`.
//! Eligibility is inclusive on both thresholds, under IEEE-754 comparison:
//! a NaN score or weight is never eligible.

use vstd::prelude::*;
use crate::arith::{multiply, spec_multiply, spec_sum, sum};
use crate::binary32::{clamp, ge, spec_clamp, spec_ge};

verus! {

/// The tuning parameters of one batch, as binary32 bit patterns.
#[derive(Clone, Copy, Debug)]
pub struct BatchParameters {
    pub min_score: u32,
    pub max_score: u32,
    pub min_adv_weight: u32,
    pub no_adv_score: u32,
    pub min_adv_boost: u32,
    pub max_adv_boost: u32,
    pub slope: u32,
    pub intercept: u32,
}

/// One record together with the parameters it is scored under, as binary32
/// bit patterns.
#[derive(Clone, Copy, Debug)]
pub struct ScoreData {
    pub view_restricted: bool,
    pub score: u32,
    pub min_score: u32,
    pub max_score: u32,
    pub adv_weight: u32,
    pub min_adv_weight: u32,
    pub no_adv_score: u32,
    pub min_adv_boost: u32,
    pub max_adv_boost: u32,
    pub slope: u32,
    pub intercept: u32,
}

impl ScoreData {
    /// The record `(score, adv_weight, view_restricted)` under `params`.
    pub open spec fn of(
        params: BatchParameters,
        score: u32,
        adv_weight: u32,
        view_restricted: bool,
    ) -> ScoreData {
        ScoreData {
            view_restricted,
            score,
            min_score: params.min_score,
            max_score: params.max_score,
            adv_weight,
            min_adv_weight: params.min_adv_weight,
            no_adv_score: params.no_adv_score,
            min_adv_boost: params.min_adv_boost,
            max_adv_boost: params.max_adv_boost,
            slope: params.slope,
            intercept: params.intercept,
        }
    }

    /// Whether the boost applies: the weight reaches `min_adv_weight` and
    /// the score reaches `min_score`.
    pub open spec fn eligible(self) -> bool {
        spec_ge(self.adv_weight, self.min_adv_weight) && spec_ge(self.score, self.min_score)
    }

    /// The boost factor: `adv_weight * slope + intercept`, held to the range
    /// from `min_adv_boost` to `max_adv_boost`.
    pub open spec fn boost(self) -> u32 {
        spec_clamp(
            spec_sum(spec_multiply(self.adv_weight, self.slope), self.intercept),
            self.min_adv_boost,
            self.max_adv_boost,
        )
    }

    /// The adjusted score of the record.
    pub open spec fn spec_calc_score(self) -> u32 {
        if !self.view_restricted {
            self.score
        } else if !self.eligible() {
            self.no_adv_score
        } else {
            spec_multiply(self.max_score, self.boost())
        }
    }

    pub fn new(params: &BatchParameters, score: u32, adv_weight: u32, view_restricted: bool) -> (r:
        ScoreData)
        ensures
            r == ScoreData::of(*params, score, adv_weight, view_restricted),
    {
        ScoreData {
            view_restricted,
            score,
            min_score: params.min_score,
            max_score: params.max_score,
            adv_weight,
            min_adv_weight: params.min_adv_weight,
            no_adv_score: params.no_adv_score,
            min_adv_boost: params.min_adv_boost,
            max_adv_boost: params.max_adv_boost,
            slope: params.slope,
            intercept: params.intercept,
        }
    }

    /// Computes the adjusted score of the record.
    pub fn calc_score(&self) -> (r: u32)
        ensures
            r == self.spec_calc_score(),
    {
        if !self.view_restricted {
            return self.score;
        }
        if !ge(self.adv_weight, self.min_adv_weight) || !ge(self.score, self.min_score) {
            return self.no_adv_score;
        }
        multiply(
            self.max_score,
            clamp(
                sum(multiply(self.adv_weight, self.slope), self.intercept),
                self.min_adv_boost,
                self.max_adv_boost,
            ),
        )
    }
}

/// The adjusted score of the record `(score, adv_weight, view_restricted)`
/// under `params`.
pub open spec fn adjusted_score(
    params: BatchParameters,
    score: u32,
    adv_weight: u32,
    view_restricted: bool,
) -> u32 {
    ScoreData::of(params, score, adv_weight, view_restricted).spec_calc_score()
}

} // verus!
