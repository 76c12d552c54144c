//! Eight records at a time: lane-wise comparison, arithmetic and selection,
//! and the branchless evaluation of the score rule built from them.
//!
//! Nothing here branches on a record. Both outcomes of each decision are
//! computed for every lane and a mask picks one, so that all lanes do the
//! same work.

use vstd::prelude::*;
use crate::arith::{multiply, spec_multiply, spec_sum, sum};
use crate::binary32::{ge, max_num, min_num, spec_ge, spec_max_num, spec_min_num};
use crate::score::ScoreData;

verus! {

/// The number of records in a group.
pub const LANES: usize = 8;

/// Lane by lane, whether `a >= b`.
pub open spec fn spec_lanes_ge(a: Seq<u32>, b: Seq<u32>) -> Seq<bool> {
    Seq::new(8, |i: int| spec_ge(a[i], b[i]))
}

/// Lane by lane, whether both masks are set.
pub open spec fn spec_lanes_and(a: Seq<bool>, b: Seq<bool>) -> Seq<bool> {
    Seq::new(8, |i: int| a[i] && b[i])
}

/// Lane by lane, `a` where the mask is set and `b` where it is not.
pub open spec fn spec_lanes_select(mask: Seq<bool>, a: Seq<u32>, b: Seq<u32>) -> Seq<u32> {
    Seq::new(
        8,
        |i: int|
            if mask[i] {
                a[i]
            } else {
                b[i]
            },
    )
}

/// Lane by lane, the smaller of `a` and `b`.
pub open spec fn spec_lanes_min(a: Seq<u32>, b: Seq<u32>) -> Seq<u32> {
    Seq::new(8, |i: int| spec_min_num(a[i], b[i]))
}

/// Lane by lane, the larger of `a` and `b`.
pub open spec fn spec_lanes_max(a: Seq<u32>, b: Seq<u32>) -> Seq<u32> {
    Seq::new(8, |i: int| spec_max_num(a[i], b[i]))
}

/// Every lane of `a` times `k`.
pub open spec fn spec_lanes_times(a: Seq<u32>, k: u32) -> Seq<u32> {
    Seq::new(8, |i: int| spec_multiply(a[i], k))
}

/// `k` times every lane of `a`.
pub open spec fn spec_times_lanes(k: u32, a: Seq<u32>) -> Seq<u32> {
    Seq::new(8, |i: int| spec_multiply(k, a[i]))
}

/// Every lane of `a` plus `k`.
pub open spec fn spec_lanes_plus(a: Seq<u32>, k: u32) -> Seq<u32> {
    Seq::new(8, |i: int| spec_sum(a[i], k))
}

/// All lanes set to `x`.
pub open spec fn spec_splat(x: u32) -> Seq<u32> {
    Seq::new(8, |i: int| x)
}

pub fn splat(x: u32) -> (r: [u32; 8])
    ensures
        r@ == spec_splat(x),
{
    let r = [x;8];
    assert(r@ =~= spec_splat(x));
    r
}

pub fn lanes_ge(a: &[u32; 8], b: &[u32; 8]) -> (r: [bool; 8])
    ensures
        r@ == spec_lanes_ge(a@, b@),
{
    let mut r: [bool; 8] = [false;8];
    for i in 0..8usize
        invariant
            forall|j: int| 0 <= j < i ==> r[j] == spec_ge(a[j], b[j]),
    {
        r[i] = ge(a[i], b[i]);
    }
    assert(r@ =~= spec_lanes_ge(a@, b@));
    r
}

pub fn lanes_and(a: &[bool; 8], b: &[bool; 8]) -> (r: [bool; 8])
    ensures
        r@ == spec_lanes_and(a@, b@),
{
    let mut r: [bool; 8] = [false;8];
    for i in 0..8usize
        invariant
            forall|j: int| 0 <= j < i ==> r[j] == (a[j] && b[j]),
    {
        r[i] = a[i] && b[i];
    }
    assert(r@ =~= spec_lanes_and(a@, b@));
    r
}

pub fn lanes_select(mask: &[bool; 8], a: &[u32; 8], b: &[u32; 8]) -> (r: [u32; 8])
    ensures
        r@ == spec_lanes_select(mask@, a@, b@),
{
    let mut r: [u32; 8] = [0;8];
    for i in 0..8usize
        invariant
            forall|j: int|
                0 <= j < i ==> r[j] == if mask[j] {
                    a[j]
                } else {
                    b[j]
                },
    {
        r[i] = if mask[i] {
            a[i]
        } else {
            b[i]
        };
    }
    assert(r@ =~= spec_lanes_select(mask@, a@, b@));
    r
}

pub fn lanes_min(a: &[u32; 8], b: &[u32; 8]) -> (r: [u32; 8])
    ensures
        r@ == spec_lanes_min(a@, b@),
{
    let mut r: [u32; 8] = [0;8];
    for i in 0..8usize
        invariant
            forall|j: int| 0 <= j < i ==> r[j] == spec_min_num(a[j], b[j]),
    {
        r[i] = min_num(a[i], b[i]);
    }
    assert(r@ =~= spec_lanes_min(a@, b@));
    r
}

pub fn lanes_max(a: &[u32; 8], b: &[u32; 8]) -> (r: [u32; 8])
    ensures
        r@ == spec_lanes_max(a@, b@),
{
    let mut r: [u32; 8] = [0;8];
    for i in 0..8usize
        invariant
            forall|j: int| 0 <= j < i ==> r[j] == spec_max_num(a[j], b[j]),
    {
        r[i] = max_num(a[i], b[i]);
    }
    assert(r@ =~= spec_lanes_max(a@, b@));
    r
}

pub fn lanes_times(a: &[u32; 8], k: u32) -> (r: [u32; 8])
    ensures
        r@ == spec_lanes_times(a@, k),
{
    let mut r: [u32; 8] = [0;8];
    for i in 0..8usize
        invariant
            forall|j: int| 0 <= j < i ==> r[j] == spec_multiply(a[j], k),
    {
        r[i] = multiply(a[i], k);
    }
    assert(r@ =~= spec_lanes_times(a@, k));
    r
}

pub fn times_lanes(k: u32, a: &[u32; 8]) -> (r: [u32; 8])
    ensures
        r@ == spec_times_lanes(k, a@),
{
    let mut r: [u32; 8] = [0;8];
    for i in 0..8usize
        invariant
            forall|j: int| 0 <= j < i ==> r[j] == spec_multiply(k, a[j]),
    {
        r[i] = multiply(k, a[i]);
    }
    assert(r@ =~= spec_times_lanes(k, a@));
    r
}

pub fn lanes_plus(a: &[u32; 8], k: u32) -> (r: [u32; 8])
    ensures
        r@ == spec_lanes_plus(a@, k),
{
    let mut r: [u32; 8] = [0;8];
    for i in 0..8usize
        invariant
            forall|j: int| 0 <= j < i ==> r[j] == spec_sum(a[j], k),
    {
        r[i] = sum(a[i], k);
    }
    assert(r@ =~= spec_lanes_plus(a@, k));
    r
}

/// A group of eight records together with the parameters they are scored
/// under. The parameters that take part in lane-wise comparison and
/// selection are held once per lane.
#[derive(Clone, Copy, Debug)]
pub struct ScoreDataSimd {
    pub view_restricted: [bool; 8],
    pub scores: [u32; 8],
    pub min_scores: [u32; 8],
    pub max_score: u32,
    pub adv_weights: [u32; 8],
    pub min_adv_weights: [u32; 8],
    pub no_adv_scores: [u32; 8],
    pub min_adv_boosts: [u32; 8],
    pub max_adv_boosts: [u32; 8],
    pub slope: u32,
    pub intercept: u32,
}

impl ScoreDataSimd {
    /// The record in lane `i`, with the parameters of that lane.
    pub open spec fn lane(self, i: int) -> ScoreData {
        ScoreData {
            view_restricted: self.view_restricted[i],
            score: self.scores[i],
            min_score: self.min_scores[i],
            max_score: self.max_score,
            adv_weight: self.adv_weights[i],
            min_adv_weight: self.min_adv_weights[i],
            no_adv_score: self.no_adv_scores[i],
            min_adv_boost: self.min_adv_boosts[i],
            max_adv_boost: self.max_adv_boosts[i],
            slope: self.slope,
            intercept: self.intercept,
        }
    }

    /// The eligibility mask of the group.
    pub open spec fn eligible_mask(self) -> Seq<bool> {
        spec_lanes_and(
            spec_lanes_ge(self.adv_weights@, self.min_adv_weights@),
            spec_lanes_ge(self.scores@, self.min_scores@),
        )
    }

    /// The boosted score of every lane, eligible or not.
    pub open spec fn boosted(self) -> Seq<u32> {
        spec_times_lanes(
            self.max_score,
            spec_lanes_min(
                self.max_adv_boosts@,
                spec_lanes_max(
                    self.min_adv_boosts@,
                    spec_lanes_plus(spec_lanes_times(self.adv_weights@, self.slope), self.intercept),
                ),
            ),
        )
    }

    /// The adjusted scores of the group, by selection.
    pub open spec fn spec_calc_scores(self) -> Seq<u32> {
        spec_lanes_select(
            self.view_restricted@,
            spec_lanes_select(self.eligible_mask(), self.boosted(), self.no_adv_scores@),
            self.scores@,
        )
    }

    /// Computes the adjusted scores of the group without branching on a
    /// record.
    pub fn calc_scores(&self) -> (r: [u32; 8])
        ensures
            r@ == self.spec_calc_scores(),
    {
        let is_adv = lanes_and(
            &lanes_ge(&self.adv_weights, &self.min_adv_weights),
            &lanes_ge(&self.scores, &self.min_scores),
        );
        let raw = lanes_plus(&lanes_times(&self.adv_weights, self.slope), self.intercept);
        let boost = lanes_min(&self.max_adv_boosts, &lanes_max(&self.min_adv_boosts, &raw));
        let boosted = times_lanes(self.max_score, &boost);
        lanes_select(
            &self.view_restricted,
            &lanes_select(&is_adv, &boosted, &self.no_adv_scores),
            &self.scores,
        )
    }
}

/// In every lane the branchless evaluation of a group gives the score that
/// the scalar rule gives for the record of that lane.
pub proof fn lemma_group_matches_scalar(group: ScoreDataSimd, i: int)
    requires
        0 <= i < 8,
    ensures
        group.spec_calc_scores()[i] == group.lane(i).spec_calc_score(),
{
}

} // verus!
