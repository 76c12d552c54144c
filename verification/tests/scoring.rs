use adv_scorer::batch::{check_batch, load, load_mask, store, transform_scores, ContractViolation};
use adv_scorer::group::{
    lanes_and, lanes_ge, lanes_max, lanes_min, lanes_plus, lanes_select, lanes_times, splat,
    times_lanes, ScoreDataSimd, LANES,
};
use adv_scorer::score::{BatchParameters, ScoreData};

fn params(
    min_score: f32,
    max_score: f32,
    min_adv_weight: f32,
    no_adv_score: f32,
    min_adv_boost: f32,
    max_adv_boost: f32,
    slope: f32,
    intercept: f32,
) -> BatchParameters {
    BatchParameters {
        min_score: min_score.to_bits(),
        max_score: max_score.to_bits(),
        min_adv_weight: min_adv_weight.to_bits(),
        no_adv_score: no_adv_score.to_bits(),
        min_adv_boost: min_adv_boost.to_bits(),
        max_adv_boost: max_adv_boost.to_bits(),
        slope: slope.to_bits(),
        intercept: intercept.to_bits(),
    }
}

fn usual() -> BatchParameters {
    params(1.0, 100.0, 0.0, -1.0, 1.0, 10.0, 0.25, 0.5)
}

fn score_of(p: &BatchParameters, score: f32, adv_weight: f32, view_restricted: bool) -> f32 {
    f32::from_bits(ScoreData::new(p, score.to_bits(), adv_weight.to_bits(), view_restricted).calc_score())
}

fn bits(values: &[f32]) -> Vec<u32> {
    values.iter().map(|x| x.to_bits()).collect()
}

fn floats(values: &[u32]) -> Vec<f32> {
    values.iter().map(|x| f32::from_bits(*x)).collect()
}

fn group_of(p: &BatchParameters, scores: [f32; 8], weights: [f32; 8], flags: [bool; 8]) -> ScoreDataSimd {
    let mut s = [0u32; 8];
    let mut w = [0u32; 8];
    for i in 0..8 {
        s[i] = scores[i].to_bits();
        w[i] = weights[i].to_bits();
    }
    ScoreDataSimd {
        view_restricted: flags,
        scores: s,
        min_scores: splat(p.min_score),
        max_score: p.max_score,
        adv_weights: w,
        min_adv_weights: splat(p.min_adv_weight),
        no_adv_scores: splat(p.no_adv_score),
        min_adv_boosts: splat(p.min_adv_boost),
        max_adv_boosts: splat(p.max_adv_boost),
        slope: p.slope,
        intercept: p.intercept,
    }
}

/// The rule written with the machine's own binary32 arithmetic.
fn reference(p: &BatchParameters, score: f32, adv_weight: f32, view_restricted: bool) -> f32 {
    let f = f32::from_bits;
    if !view_restricted {
        return score;
    }
    if !(adv_weight >= f(p.min_adv_weight) && score >= f(p.min_score)) {
        return f(p.no_adv_score);
    }
    let raw = adv_weight * f(p.slope) + f(p.intercept);
    f(p.max_score) * f(p.max_adv_boost).min(f(p.min_adv_boost).max(raw))
}

fn same(got: u32, expected: f32) -> bool {
    if expected.is_nan() {
        f32::from_bits(got).is_nan()
    } else {
        got == expected.to_bits()
    }
}

struct Xorshift(u64);

impl Xorshift {
    fn next(&mut self) -> u32 {
        let mut x = self.0;
        x ^= x << 13;
        x ^= x >> 7;
        x ^= x << 17;
        self.0 = x;
        (x >> 16) as u32
    }

    /// A number between -4 and 12, on a grid of 1/64.
    fn small(&mut self) -> f32 {
        (self.next() % 1024) as f32 / 64.0 - 4.0
    }
}

#[test]
fn eligible_record_gets_clamped_boost() {
    // boost = clamp(1.0 * 0.25 + 0.5, 1.0, 10.0) = 1.0
    assert_eq!(score_of(&usual(), 1.1, 1.0, true), 100.0);
}

#[test]
fn score_below_minimum_gets_sentinel() {
    assert_eq!(score_of(&usual(), 0.5, 1.0, true), -1.0);
}

#[test]
fn unrestricted_record_keeps_score() {
    let p = usual();
    assert_eq!(score_of(&p, 1.1, 1.0, false), 1.1);
    assert_eq!(score_of(&p, 0.5, 1.0, false), 0.5);
    assert_eq!(score_of(&p, -7.25, -3.0, false), -7.25);
    let nan = ScoreData::new(&p, 0x7fc0_1234, 0xffff_ffff, false).calc_score();
    assert_eq!(nan, 0x7fc0_1234);
    assert_eq!(ScoreData::new(&p, 0x8000_0000, 0, false).calc_score(), 0x8000_0000);
}

#[test]
fn weight_on_the_threshold_is_eligible() {
    let p = usual();
    // weight 0.0 against the threshold 0.0: boost = clamp(0.5, 1, 10) = 1
    assert_eq!(score_of(&p, 1.1, 0.0, true), 100.0);
    assert_eq!(score_of(&p, 1.1, -0.0, true), 100.0);
    let q = params(1.0, 100.0, 2.0, -1.0, 1.0, 10.0, 0.25, 0.5);
    assert_eq!(score_of(&q, 1.1, 2.0, true), 100.0);
    assert_eq!(score_of(&q, 1.1, f32::from_bits(2.0f32.to_bits() - 1), true), -1.0);
    assert_eq!(score_of(&q, 1.1, f32::from_bits(2.0f32.to_bits() + 1), true), 100.0);
}

#[test]
fn score_on_the_threshold_is_eligible() {
    let p = usual();
    assert_eq!(score_of(&p, 1.0, 1.0, true), 100.0);
    assert_eq!(score_of(&p, f32::from_bits(1.0f32.to_bits() - 1), 1.0, true), -1.0);
}

#[test]
fn weight_below_threshold_gets_sentinel() {
    assert_eq!(score_of(&usual(), 1.1, -0.1, true), -1.0);
}

#[test]
fn boost_formula_exact_values() {
    let p = usual();
    // 3.0 * 0.25 + 0.5 = 1.25
    assert_eq!(score_of(&p, 1.3, 3.0, true), 125.0);
    // 10.0 * 0.25 + 0.5 = 3.0
    assert_eq!(score_of(&p, 1.4, 10.0, true), 300.0);
    // 100.0 * 0.25 + 0.5 = 25.5, held to 10.0
    assert_eq!(score_of(&p, 1.5, 100.0, true), 1000.0);
    // 2.0 * 0.25 + 0.5 = 1.0, the lower bound itself
    assert_eq!(score_of(&p, 1.2, 2.0, true), 100.0);
    // 38.0 * 0.25 + 0.5 = 10.0, the upper bound itself
    assert_eq!(score_of(&p, 1.2, 38.0, true), 1000.0);
}

#[test]
fn nan_inputs_follow_comparison_semantics() {
    let p = usual();
    assert_eq!(score_of(&p, f32::NAN, 1.0, true), -1.0);
    assert_eq!(score_of(&p, 1.1, f32::NAN, true), -1.0);
    // a NaN threshold makes nothing eligible
    let q = params(f32::NAN, 100.0, 0.0, -1.0, 1.0, 10.0, 0.25, 0.5);
    assert_eq!(score_of(&q, 1.1, 1.0, true), -1.0);
    // a NaN slope leaves the clamp with its bounds
    let r = params(1.0, 100.0, 0.0, -1.0, 1.0, 10.0, f32::NAN, 0.5);
    assert_eq!(score_of(&r, 1.1, 1.0, true), 100.0);
    // a NaN max_score reaches the result
    let s = params(1.0, f32::NAN, 0.0, -1.0, 1.0, 10.0, 0.25, 0.5);
    assert!(score_of(&s, 1.1, 1.0, true).is_nan());
}

#[test]
fn infinite_inputs_follow_the_formula() {
    let p = usual();
    assert_eq!(score_of(&p, f32::INFINITY, f32::INFINITY, true), 1000.0);
    assert_eq!(score_of(&p, 1.1, f32::NEG_INFINITY, true), -1.0);
    let q = params(1.0, f32::INFINITY, 0.0, -1.0, 1.0, 10.0, 0.25, 0.5);
    assert_eq!(score_of(&q, 1.1, 1.0, true), f32::INFINITY);
}

#[test]
fn boosted_score_stays_within_bounds() {
    let mut rng = Xorshift(0x2545_f491_4f6c_dd1d);
    for _ in 0..20_000 {
        let lo = rng.small();
        let hi = lo + (rng.next() % 512) as f32 / 32.0;
        let max_score = (rng.next() % 4096) as f32 / 16.0;
        let p = params(rng.small(), max_score, rng.small(), -1.0, lo, hi, rng.small(), rng.small());
        let score = rng.small();
        let weight = rng.small();
        let out = score_of(&p, score, weight, true);
        if weight >= f32::from_bits(p.min_adv_weight) && score >= f32::from_bits(p.min_score) {
            assert!(out >= max_score * lo, "{} under {}", out, max_score * lo);
            assert!(out <= max_score * hi, "{} over {}", out, max_score * hi);
        } else {
            assert_eq!(out, -1.0);
        }
    }
}

#[test]
fn scalar_rule_matches_machine_arithmetic() {
    let mut rng = Xorshift(0x6a09_e667_f3bc_c908);
    for round in 0..50_000 {
        let p = params(
            rng.small(),
            rng.small(),
            rng.small(),
            rng.small(),
            rng.small(),
            rng.small(),
            rng.small(),
            rng.small(),
        );
        let score = rng.small();
        let weight = rng.small();
        let flag = round % 3 != 0;
        let got = ScoreData::new(&p, score.to_bits(), weight.to_bits(), flag).calc_score();
        assert!(same(got, reference(&p, score, weight, flag)));
    }
}

#[test]
fn scalar_rule_matches_machine_arithmetic_on_any_pattern() {
    let mut rng = Xorshift(0xbb67_ae85_84ca_a73b);
    for round in 0..100_000 {
        let p = BatchParameters {
            min_score: rng.next(),
            max_score: rng.next(),
            min_adv_weight: rng.next(),
            no_adv_score: rng.next(),
            min_adv_boost: rng.next(),
            max_adv_boost: rng.next(),
            slope: rng.next(),
            intercept: rng.next(),
        };
        let (score, weight) = (rng.next(), rng.next());
        let flag = round % 5 != 0;
        let got = ScoreData::new(&p, score, weight, flag).calc_score();
        let is_nan = |x: u32| f32::from_bits(x).is_nan();
        // which of two NaN operands a machine keeps is not fixed: leave
        // the clamp of a NaN range out
        if is_nan(p.min_adv_boost) && is_nan(p.max_adv_boost) {
            continue;
        }
        let expected = reference(&p, f32::from_bits(score), f32::from_bits(weight), flag);
        if !flag || expected.to_bits() == p.no_adv_score {
            assert!(got == expected.to_bits() || (is_nan(got) && expected.is_nan()));
        } else {
            assert!(same(got, expected), "{:?} {:#x} {:#x}", p, score, weight);
        }
    }
}

#[test]
fn group_evaluates_each_lane() {
    let group = group_of(
        &usual(),
        [0.1, 0.5, 1.0, 1.1, 1.2, 1.3, 1.4, 1.5],
        [-0.1, 0.0, 0.1, 1.0, 2.0, 3.0, 10.0, 100.0],
        [true; 8],
    );
    assert_eq!(
        floats(&group.calc_scores()),
        vec![-1.0, -1.0, 100.0, 100.0, 100.0, 125.0, 300.0, 1000.0]
    );
}

#[test]
fn group_mixes_restricted_and_unrestricted_lanes() {
    let group = group_of(
        &usual(),
        [1.1, 1.1, 0.5, 0.5, 2.0, 2.0, 1.0, 1.0],
        [1.0, 1.0, 1.0, 1.0, -1.0, -1.0, 10.0, 10.0],
        [true, false, true, false, true, false, true, false],
    );
    assert_eq!(
        floats(&group.calc_scores()),
        vec![100.0, 1.1, -1.0, 0.5, -1.0, 2.0, 300.0, 1.0]
    );
}

#[test]
fn group_result_equals_scalar_result_in_every_lane() {
    let mut rng = Xorshift(0x3c6e_f372_fe94_f82b);
    for round in 0..20_000 {
        let any = round % 2 == 0;
        let mut pick = |rng: &mut Xorshift| if any { rng.next() } else { rng.small().to_bits() };
        let p = BatchParameters {
            min_score: pick(&mut rng),
            max_score: pick(&mut rng),
            min_adv_weight: pick(&mut rng),
            no_adv_score: pick(&mut rng),
            min_adv_boost: pick(&mut rng),
            max_adv_boost: pick(&mut rng),
            slope: pick(&mut rng),
            intercept: pick(&mut rng),
        };
        let mut scores = [0u32; 8];
        let mut weights = [0u32; 8];
        let mut flags = [false; 8];
        for i in 0..8 {
            scores[i] = pick(&mut rng);
            weights[i] = pick(&mut rng);
            flags[i] = rng.next() % 2 == 0;
        }
        let group = ScoreDataSimd {
            view_restricted: flags,
            scores,
            min_scores: splat(p.min_score),
            max_score: p.max_score,
            adv_weights: weights,
            min_adv_weights: splat(p.min_adv_weight),
            no_adv_scores: splat(p.no_adv_score),
            min_adv_boosts: splat(p.min_adv_boost),
            max_adv_boosts: splat(p.max_adv_boost),
            slope: p.slope,
            intercept: p.intercept,
        };
        let out = group.calc_scores();
        for i in 0..8 {
            assert_eq!(out[i], ScoreData::new(&p, scores[i], weights[i], flags[i]).calc_score());
        }
    }
}

#[test]
fn group_uses_the_parameters_of_each_lane() {
    let mut group = group_of(&usual(), [1.5; 8], [3.0; 8], [true; 8]);
    group.min_scores[1] = 2.0f32.to_bits();
    group.min_adv_weights[2] = 4.0f32.to_bits();
    group.no_adv_scores[2] = (-2.0f32).to_bits();
    group.min_adv_boosts[3] = 2.0f32.to_bits();
    group.max_adv_boosts[4] = 1.125f32.to_bits();
    assert_eq!(
        floats(&group.calc_scores()),
        vec![125.0, -1.0, -2.0, 200.0, 112.5, 125.0, 125.0, 125.0]
    );
}

#[test]
fn lane_operations() {
    let a = [1.0f32, 2.0, 3.0, 4.0, f32::NAN, -0.0, -1.0, 8.0].map(|x| x.to_bits());
    let b = [2.0f32, 2.0, 1.0, f32::NAN, 5.0, 0.0, -2.0, 9.0].map(|x| x.to_bits());
    assert_eq!(LANES, 8);
    assert_eq!(splat(7), [7; 8]);
    let ge = lanes_ge(&a, &b);
    assert_eq!(ge, [false, true, true, false, false, true, true, false]);
    assert_eq!(
        lanes_and(&ge, &[true, true, false, true, true, false, true, true]),
        [false, true, false, false, false, false, true, false]
    );
    assert_eq!(
        lanes_select(&ge, &a, &b),
        [b[0], a[1], a[2], b[3], b[4], a[5], a[6], b[7]]
    );
    assert_eq!(lanes_select(&[true; 8], &a, &b), a);
    assert_eq!(lanes_select(&[false; 8], &a, &b), b);
    assert_eq!(lanes_select(&ge, &a, &b)[3], b[3]);
    let lo = floats(&lanes_min(&a, &b));
    let hi = floats(&lanes_max(&a, &b));
    assert_eq!(lo[..5], [1.0, 2.0, 1.0, 4.0, 5.0]);
    assert_eq!(hi[..5], [2.0, 2.0, 3.0, 4.0, 5.0]);
    assert_eq!((lo[6], lo[7], hi[6], hi[7]), (-2.0, 8.0, -1.0, 9.0));
    let c = [1.0f32, 2.0, 3.0, 4.0, 0.5, -0.0, -1.0, 8.0].map(|x| x.to_bits());
    assert_eq!(
        floats(&lanes_times(&c, 0.5f32.to_bits())),
        vec![0.5, 1.0, 1.5, 2.0, 0.25, -0.0, -0.5, 4.0]
    );
    assert_eq!(
        floats(&times_lanes((-2.0f32).to_bits(), &c)),
        vec![-2.0, -4.0, -6.0, -8.0, -1.0, 0.0, 2.0, -16.0]
    );
    assert_eq!(times_lanes((-2.0f32).to_bits(), &c)[5], 0);
    assert_eq!(
        floats(&lanes_plus(&c, 0.5f32.to_bits())),
        vec![1.5, 2.5, 3.5, 4.5, 1.0, 0.5, -0.5, 8.5]
    );
}

#[test]
fn load_and_store_move_one_group() {
    let values: Vec<u32> = (0..24).collect();
    assert_eq!(load(&values, 8), [8, 9, 10, 11, 12, 13, 14, 15]);
    assert_eq!(load(&values, 16), [16, 17, 18, 19, 20, 21, 22, 23]);
    let flags: Vec<bool> = (0..16).map(|i| i % 3 == 0).collect();
    assert_eq!(load_mask(&flags, 8), [false, true, false, false, true, false, false, true]);
    let mut target = values.clone();
    store(&mut target, 8, &[100, 101, 102, 103, 104, 105, 106, 107]);
    let mut expected = values.clone();
    for i in 0..8 {
        expected[8 + i] = 100 + i as u32;
    }
    assert_eq!(target, expected);
}

#[test]
fn batch_transforms_every_group_in_place() {
    let p = usual();
    let mut scores = bits(&[
        0.1, 0.5, 1.0, 1.1, 1.2, 1.3, 1.4, 1.5, 1.1, 1.1, 0.5, 0.5, 2.0, 2.0, 1.0, 1.0,
    ]);
    let weights = bits(&[
        -0.1, 0.0, 0.1, 1.0, 2.0, 3.0, 10.0, 100.0, 1.0, 1.0, 1.0, 1.0, -1.0, -1.0, 10.0, 10.0,
    ]);
    let mut flags = vec![true; 8];
    flags.extend_from_slice(&[true, false, true, false, true, false, true, false]);
    assert_eq!(transform_scores(16, &mut scores, &weights, &flags, &p), Ok(()));
    assert_eq!(
        floats(&scores),
        vec![
            -1.0, -1.0, 100.0, 100.0, 100.0, 125.0, 300.0, 1000.0, 100.0, 1.1, -1.0, 0.5, -1.0,
            2.0, 300.0, 1.0
        ]
    );
}

#[test]
fn batch_leaves_what_lies_past_the_size() {
    let p = usual();
    let mut scores = bits(&[1.1; 20]);
    let weights = bits(&[3.0; 24]);
    let flags = vec![true; 17];
    assert_eq!(transform_scores(16, &mut scores, &weights, &flags, &p), Ok(()));
    let mut expected = vec![125.0f32; 16];
    expected.extend_from_slice(&[1.1; 4]);
    assert_eq!(floats(&scores), expected);
}

#[test]
fn batch_matches_scalar_rule_and_machine_arithmetic() {
    let mut rng = Xorshift(0xa54f_f53a_5f1d_36f1);
    for _ in 0..200 {
        let p = params(
            rng.small(),
            rng.small(),
            rng.small(),
            rng.small(),
            rng.small(),
            rng.small(),
            rng.small(),
            rng.small(),
        );
        let groups = 1 + (rng.next() % 16) as usize;
        let n = groups * 8;
        let before: Vec<f32> = (0..n).map(|_| rng.small()).collect();
        let weights: Vec<f32> = (0..n).map(|_| rng.small()).collect();
        let flags: Vec<bool> = (0..n).map(|_| rng.next() % 2 == 0).collect();
        let mut scores = bits(&before);
        assert_eq!(
            transform_scores(n as i32, &mut scores, &bits(&weights), &flags, &p),
            Ok(())
        );
        for i in 0..n {
            let scalar =
                ScoreData::new(&p, before[i].to_bits(), weights[i].to_bits(), flags[i]).calc_score();
            assert_eq!(scores[i], scalar);
            assert!(same(scores[i], reference(&p, before[i], weights[i], flags[i])));
        }
    }
}

#[test]
fn second_pass_scores_the_new_values() {
    // the boosted score 0.5 * 1.0 is under min_score, so a second pass
    // turns it into the sentinel
    let p = params(1.0, 0.5, 0.0, -1.0, 1.0, 10.0, 0.25, 0.5);
    let before = [1.1f32, 1.1, 0.2, 4.0, 1.0, 3.0, 2.0, 1.5];
    let weights = bits(&[1.0, 1.0, 1.0, 38.0, 2.0, -1.0, 6.0, 1.0]);
    let flags = [true, false, true, true, true, true, true, false];
    let mut scores = bits(&before);
    assert_eq!(transform_scores(8, &mut scores, &weights, &flags, &p), Ok(()));
    let first = floats(&scores);
    assert_eq!(first, vec![0.5, 1.1, -1.0, 5.0, 0.5, -1.0, 1.0, 1.5]);
    assert_eq!(transform_scores(8, &mut scores, &weights, &flags, &p), Ok(()));
    let second = floats(&scores);
    assert_eq!(second, vec![-1.0, 1.1, -1.0, 5.0, -1.0, -1.0, 1.0, 1.5]);
    assert_ne!(first, second);
    for i in 0..8 {
        assert_eq!(second[i], score_of(&p, first[i], f32::from_bits(weights[i]), flags[i]));
    }
}

#[test]
fn batch_refuses_a_size_that_is_not_positive() {
    let p = usual();
    let untouched = bits(&[1.1; 8]);
    let mut scores = untouched.clone();
    let weights = bits(&[1.0; 8]);
    let flags = [true; 8];
    assert_eq!(
        transform_scores(0, &mut scores, &weights, &flags, &p),
        Err(ContractViolation::NotPositive)
    );
    assert_eq!(
        transform_scores(-8, &mut scores, &weights, &flags, &p),
        Err(ContractViolation::NotPositive)
    );
    assert_eq!(
        transform_scores(i32::MIN, &mut scores, &weights, &flags, &p),
        Err(ContractViolation::NotPositive)
    );
    assert_eq!(scores, untouched);
}

#[test]
fn batch_refuses_a_size_that_is_no_multiple_of_eight() {
    let p = usual();
    let untouched = bits(&[1.1; 16]);
    let mut scores = untouched.clone();
    let weights = bits(&[1.0; 16]);
    let flags = [true; 16];
    for size in [1, 7, 9, 12, 15, i32::MAX] {
        assert_eq!(
            transform_scores(size, &mut scores, &weights, &flags, &p),
            Err(ContractViolation::NotWholeGroups)
        );
    }
    assert_eq!(scores, untouched);
}

#[test]
fn batch_refuses_short_arrays() {
    let p = usual();
    let untouched = bits(&[1.1; 16]);
    let mut scores = untouched.clone();
    let weights = bits(&[1.0; 16]);
    let flags = [true; 16];
    assert_eq!(
        transform_scores(16, &mut scores[..15], &weights, &flags, &p),
        Err(ContractViolation::ScoresTooShort)
    );
    assert_eq!(
        transform_scores(16, &mut scores, &weights[..8], &flags, &p),
        Err(ContractViolation::WeightsTooShort)
    );
    assert_eq!(
        transform_scores(16, &mut scores, &weights, &flags[..15], &p),
        Err(ContractViolation::FlagsTooShort)
    );
    assert_eq!(
        transform_scores(24, &mut scores, &weights[..8], &flags[..8], &p),
        Err(ContractViolation::ScoresTooShort)
    );
    assert_eq!(scores, untouched);
    assert_eq!(transform_scores(16, &mut scores, &weights, &flags, &p), Ok(()));
    assert_eq!(floats(&scores), vec![100.0; 16]);
}

#[test]
fn check_batch_gives_the_first_broken_rule() {
    assert_eq!(check_batch(8, 8, 8, 8), Ok(8));
    assert_eq!(check_batch(64, 64, 100, 64), Ok(64));
    assert_eq!(check_batch(0, 0, 0, 0), Err(ContractViolation::NotPositive));
    assert_eq!(check_batch(-3, 8, 8, 8), Err(ContractViolation::NotPositive));
    assert_eq!(check_batch(4, 0, 0, 0), Err(ContractViolation::NotWholeGroups));
    assert_eq!(check_batch(8, 7, 0, 0), Err(ContractViolation::ScoresTooShort));
    assert_eq!(check_batch(8, 8, 7, 0), Err(ContractViolation::WeightsTooShort));
    assert_eq!(check_batch(8, 8, 8, 7), Err(ContractViolation::FlagsTooShort));
}

#[test]
fn large_batch_matches_scalar_rule() {
    let p = params(1.0, 10.0, 0.1, -1.0, 2.0, 4.0, 0.25, 0.5);
    let n = 1024 * 64;
    let before: Vec<f32> = (0..n).map(|i| i as f32).collect();
    let weights: Vec<f32> = before.iter().map(|s| 1.0 / s + 1.0).collect();
    let flags: Vec<bool> = (0..n).map(|i| i % 2 == 0).collect();
    let mut scores = bits(&before);
    assert_eq!(transform_scores(n as i32, &mut scores, &bits(&weights), &flags, &p), Ok(()));
    for i in 0..n {
        assert!(same(scores[i], reference(&p, before[i], weights[i], flags[i])), "index {}", i);
    }
    // index 0: the weight is infinite, the boost is held to 4.0, but the score 0.0 is under 1.0
    assert_eq!(f32::from_bits(scores[0]), -1.0);
    // index 2: boost = clamp(1.5 * 0.25 + 0.5, 2, 4) = 2
    assert_eq!(f32::from_bits(scores[2]), 20.0);
    assert_eq!(f32::from_bits(scores[3]), 3.0);
}
