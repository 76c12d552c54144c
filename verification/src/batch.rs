//! The batch transformation: every record of a batch gets its adjusted
//! score, group by group, in place.

use vstd::prelude::*;
use crate::group::{lemma_group_matches_scalar, spec_splat, splat, ScoreDataSimd};
use crate::score::{adjusted_score, BatchParameters, ScoreData};

verus! {

/// Why a batch is refused.
#[derive(Clone, Copy, Debug, PartialEq, Eq)]
pub enum ContractViolation {
    /// The size is zero or negative.
    NotPositive,
    /// The size is not a multiple of the group size.
    NotWholeGroups,
    /// The score array holds fewer elements than the size.
    ScoresTooShort,
    /// The weight array holds fewer elements than the size.
    WeightsTooShort,
    /// The flag array holds fewer elements than the size.
    FlagsTooShort,
}

/// The first rule that a batch of `size` records over arrays of the given
/// lengths breaks, if it breaks one.
pub open spec fn violation(size: int, scores_len: nat, weights_len: nat, flags_len: nat) -> Option<
    ContractViolation,
> {
    if size <= 0 {
        Some(ContractViolation::NotPositive)
    } else if size % 8 != 0 {
        Some(ContractViolation::NotWholeGroups)
    } else if scores_len < size {
        Some(ContractViolation::ScoresTooShort)
    } else if weights_len < size {
        Some(ContractViolation::WeightsTooShort)
    } else if flags_len < size {
        Some(ContractViolation::FlagsTooShort)
    } else {
        None
    }
}

/// The scores after the transformation of the first `n` records: each of
/// them adjusted on its own, the rest as they were.
pub open spec fn transformed(
    params: BatchParameters,
    scores: Seq<u32>,
    adv_weights: Seq<u32>,
    view_restricted: Seq<bool>,
    n: int,
) -> Seq<u32> {
    Seq::new(
        scores.len(),
        |i: int|
            if i < n {
                adjusted_score(params, scores[i], adv_weights[i], view_restricted[i])
            } else {
                scores[i]
            },
    )
}

/// Checks a batch against the rules and gives its size as an index bound.
pub fn check_batch(size: i32, scores_len: usize, weights_len: usize, flags_len: usize) -> (r: Result<
    usize,
    ContractViolation,
>)
    ensures
        match violation(size as int, scores_len as nat, weights_len as nat, flags_len as nat) {
            Some(e) => r == Err::<usize, ContractViolation>(e),
            None => r == Ok::<usize, ContractViolation>(size as usize),
        },
{
    if size <= 0 {
        return Err(ContractViolation::NotPositive);
    }
    if size % 8 != 0 {
        return Err(ContractViolation::NotWholeGroups);
    }
    let n: usize = size as usize;
    if scores_len < n {
        return Err(ContractViolation::ScoresTooShort);
    }
    if weights_len < n {
        return Err(ContractViolation::WeightsTooShort);
    }
    if flags_len < n {
        return Err(ContractViolation::FlagsTooShort);
    }
    Ok(n)
}

/// The eight patterns of `values` from index `at` on.
pub fn load(values: &[u32], at: usize) -> (r: [u32; 8])
    requires
        at + 8 <= values@.len(),
    ensures
        r@ == values@.subrange(at as int, at + 8),
{
    let n: usize = values.len();
    let mut r: [u32; 8] = [0;8];
    for i in 0..8usize
        invariant
            at + 8 <= n == values@.len(),
            forall|j: int| 0 <= j < i ==> r[j] == values@[at + j],
    {
        r[i] = values[at + i];
    }
    assert(r@ =~= values@.subrange(at as int, at + 8));
    r
}

/// The eight flags of `flags` from index `at` on.
pub fn load_mask(flags: &[bool], at: usize) -> (r: [bool; 8])
    requires
        at + 8 <= flags@.len(),
    ensures
        r@ == flags@.subrange(at as int, at + 8),
{
    let n: usize = flags.len();
    let mut r: [bool; 8] = [false;8];
    for i in 0..8usize
        invariant
            at + 8 <= n == flags@.len(),
            forall|j: int| 0 <= j < i ==> r[j] == flags@[at + j],
    {
        r[i] = flags[at + i];
    }
    assert(r@ =~= flags@.subrange(at as int, at + 8));
    r
}

/// Writes a group over the eight elements of `values` from index `at` on.
pub fn store(values: &mut [u32], at: usize, group: &[u32; 8])
    requires
        at + 8 <= old(values)@.len(),
    ensures
        final(values)@ == old(values)@.subrange(0, at as int) + group@ + old(values)@.subrange(
            at + 8,
            old(values)@.len() as int,
        ),
{
    let n: usize = values.len();
    for i in 0..8usize
        invariant
            at + 8 <= n == values@.len() == old(values)@.len(),
            forall|j: int| 0 <= j < i ==> values@[at + j] == group[j],
            forall|j: int|
                0 <= j < n && !(at <= j < at + i) ==> values@[j] == old(values)@[j],
    {
        values[at + i] = group[i];
    }
    assert(values@ =~= old(values)@.subrange(0, at as int) + group@ + old(values)@.subrange(
        at + 8,
        old(values)@.len() as int,
    ));
}

/// Replaces each of the first `size` scores by the adjusted score of its
/// record, eight records at a time, and leaves the rest as they are. A
/// batch that breaks a rule is refused as a whole and nothing is written.
pub fn transform_scores(
    size: i32,
    scores: &mut [u32],
    adv_weights: &[u32],
    view_restricted: &[bool],
    params: &BatchParameters,
) -> (r: Result<(), ContractViolation>)
    ensures
        match violation(
            size as int,
            old(scores)@.len(),
            adv_weights@.len(),
            view_restricted@.len(),
        ) {
            Some(e) => r == Err::<(), ContractViolation>(e) && final(scores)@ == old(scores)@,
            None => r is Ok && final(scores)@ == transformed(
                *params,
                old(scores)@,
                adv_weights@,
                view_restricted@,
                size as int,
            ),
        },
{
    let n: usize = match check_batch(
        size,
        scores.len(),
        adv_weights.len(),
        view_restricted.len(),
    ) {
        Ok(n) => n,
        Err(e) => {
            return Err(e);
        },
    };
    let min_scores = splat(params.min_score);
    let min_adv_weights = splat(params.min_adv_weight);
    let no_adv_scores = splat(params.no_adv_score);
    let min_adv_boosts = splat(params.min_adv_boost);
    let max_adv_boosts = splat(params.max_adv_boost);
    let num_chunks: usize = n / 8;
    for chunk in 0..num_chunks
        invariant
            n == 8 * num_chunks,
            n <= scores@.len() == old(scores)@.len(),
            n <= adv_weights@.len(),
            n <= view_restricted@.len(),
            min_scores@ == spec_splat(params.min_score),
            min_adv_weights@ == spec_splat(params.min_adv_weight),
            no_adv_scores@ == spec_splat(params.no_adv_score),
            min_adv_boosts@ == spec_splat(params.min_adv_boost),
            max_adv_boosts@ == spec_splat(params.max_adv_boost),
            forall|i: int|
                0 <= i < 8 * chunk ==> scores@[i] == adjusted_score(
                    *params,
                    old(scores)@[i],
                    adv_weights@[i],
                    view_restricted@[i],
                ),
            forall|i: int| 8 * chunk <= i < scores@.len() ==> scores@[i] == old(scores)@[i],
    {
        let at: usize = chunk * 8;
        let group = ScoreDataSimd {
            view_restricted: load_mask(view_restricted, at),
            scores: load(scores, at),
            min_scores,
            max_score: params.max_score,
            adv_weights: load(adv_weights, at),
            min_adv_weights,
            no_adv_scores,
            min_adv_boosts,
            max_adv_boosts,
            slope: params.slope,
            intercept: params.intercept,
        };
        let new_scores = group.calc_scores();
        proof {
            assert forall|i: int| 0 <= i < 8 implies new_scores[i] == adjusted_score(
                *params,
                old(scores)@[at + i],
                adv_weights@[at + i],
                view_restricted@[at + i],
            ) by {
                lemma_group_matches_scalar(group, i);
                assert(group.lane(i) == ScoreData::of(
                    *params,
                    old(scores)@[at + i],
                    adv_weights@[at + i],
                    view_restricted@[at + i],
                ));
            }
        }
        store(scores, at, &new_scores);
    }
    assert(scores@ =~= transformed(
        *params,
        old(scores)@,
        adv_weights@,
        view_restricted@,
        size as int,
    ));
    Ok(())
}

} // verus!
