use retention_sim::error::Error;
use retention_sim::karlin::{accepts, sample, Density, MAX_ATTEMPTS};
use retention_sim::random::RandomSource;
use retention_sim::two_tier::KarlinInstance;
use retention_sim::Algorithm;

/// How many table units make a density of one.
const SCALE: f64 = 1e15;

/// The threshold density `e^(t/c) / ((e - 1) c)` at `t`.
fn pdf(t: u64, c: u64) -> f64 {
    let e = std::f64::consts::E;
    let lhs = 1.0 / ((e - 1.0) * c as f64);
    let rhs = e.powf(t as f64 / c as f64);
    lhs * rhs
}

/// The threshold density tabulated for `t` from zero to `c`.
fn karlin_density(c: u64) -> Density {
    Density::new((0..=c).map(|t| (pdf(t, c) * SCALE) as u64).collect()).unwrap()
}

#[test]
fn karlin_expected_value() {
    let cost = 1;
    let density = karlin_density(cost);
    assert_eq!(density.peak(), density.weight(cost));
    let res = density.weight(cost) as f64 / SCALE;
    assert_eq!(format!("{:.2}", res), "1.58");
}

#[test]
fn karlin_density_peaks_at_the_recovery_cost() {
    for cost in [1u64, 2, 3, 10, 1000] {
        let density = karlin_density(cost);
        assert_eq!(density.cost(), cost);
        for t in 0..cost {
            assert!(density.weight(t) < density.weight(t + 1));
        }
        assert_eq!(density.peak(), density.weight(cost));
    }
    // A cost of zero leaves no waiting time to draw.
    let weights: Vec<u64> = vec![(pdf(0, 0) * SCALE) as u64];
    assert_eq!(Density::new(weights).unwrap_err(), Error::ZeroCost);
}

#[test]
fn density_needs_a_cost_above_zero() {
    assert_eq!(Density::new(vec![7]).unwrap_err(), Error::ZeroCost);
    assert_eq!(Density::new(vec![0]).unwrap_err(), Error::ZeroCost);
    assert!(Density::new(vec![7, 7]).is_ok());
    let refused = KarlinInstance::new(1, 0, karlin_density(1), RandomSource::seeded(0));
    assert_eq!(refused.err(), Some(Error::DensityDomain));
}

#[test]
fn density_needs_a_weight() {
    assert_eq!(Density::new(vec![]).unwrap_err(), Error::EmptyDensity);
}

#[test]
fn density_needs_a_positive_peak() {
    assert_eq!(Density::new(vec![0, 0]).unwrap_err(), Error::ZeroPeak);
    assert_eq!(Density::new(vec![5, 0]).unwrap_err(), Error::ZeroPeak);
}

#[test]
fn density_peaks_at_the_end() {
    assert_eq!(Density::new(vec![1, 5, 4]).unwrap_err(), Error::WeightAbovePeak);
    assert!(Density::new(vec![4, 1, 4]).is_ok());
}

#[test]
fn density_reports_its_table() {
    let density = Density::new(vec![3, 7, 9]).unwrap();
    assert_eq!(density.cost(), 2);
    assert_eq!(density.peak(), 9);
    assert_eq!(density.weight(0), 3);
    assert_eq!(density.weight(1), 7);
    assert_eq!(density.weight(2), 9);
    assert_eq!(density.weight(3), 0);
    let copy = density.clone();
    assert_eq!(copy.cost(), 2);
    assert_eq!(copy.weight(1), 7);
}

#[test]
fn candidate_is_accepted_up_to_its_weight() {
    let density = Density::new(vec![3, 7, 9]).unwrap();
    assert!(accepts(&density, 0, 0));
    assert!(accepts(&density, 0, 3));
    assert!(!accepts(&density, 0, 4));
    assert!(accepts(&density, 1, 7));
    assert!(!accepts(&density, 1, 8));
    assert!(accepts(&density, 2, 8));
    assert!(!accepts(&density, 3, 0));
}

#[test]
fn sample_stays_in_the_domain() {
    let density = Density::new(vec![1, 2, 4, 8, 16]).unwrap();
    let mut source = RandomSource::seeded(3);
    for _ in 0..1000 {
        assert!(sample(&density, &mut source).unwrap() <= 4);
    }
}

#[test]
fn sample_prefers_heavier_times() {
    // A waiting time of weight zero is accepted only with a height of zero.
    let density = Density::new(vec![0, 500, 0, 1000]).unwrap();
    let mut source = RandomSource::seeded(8);
    let mut seen = [0u32; 4];
    for _ in 0..4000 {
        seen[sample(&density, &mut source).unwrap() as usize] += 1;
    }
    assert!(seen[3] > seen[1]);
    assert!(seen[1] > seen[0] + seen[2]);
}

#[test]
fn sample_follows_the_weights() {
    let density = Density::new(vec![1_000, 3_000]).unwrap();
    let mut source = RandomSource::seeded(21);
    let mut long = 0u32;
    let draws = 20_000u32;
    for _ in 0..draws {
        if sample(&density, &mut source).unwrap() == 1 {
            long += 1;
        }
    }
    // Three in four, give or take.
    assert!(long > draws / 100 * 72 && long < draws / 100 * 78, "{}", long);
}

#[test]
fn sample_of_a_flat_density_always_succeeds() {
    let density = Density::new(vec![7, 7, 7]).unwrap();
    let mut source = RandomSource::seeded(0);
    let mut seen = [false; 3];
    for _ in 0..200 {
        seen[sample(&density, &mut source).unwrap() as usize] = true;
    }
    assert_eq!(seen, [true, true, true]);
}

/// A density that accepts only the last of its waiting times: a draw from it
/// is exhausted about every other time.
fn needle(cost: u64) -> Density {
    let mut weights = vec![0u64; cost as usize];
    weights.push(u64::MAX);
    Density::new(weights).unwrap()
}

#[test]
fn sample_gives_up_after_its_attempts() {
    assert_eq!(MAX_ATTEMPTS, 10_000);
    let density = needle(14_400);
    let mut found = 0u32;
    let mut exhausted = 0u32;
    for seed in 0..60u64 {
        let mut source = RandomSource::seeded(seed);
        match sample(&density, &mut source) {
            Ok(waiting) => {
                assert_eq!(waiting, 14_400);
                found += 1;
            }
            Err(e) => {
                assert_eq!(e, Error::SamplingExhausted);
                exhausted += 1;
            }
        }
    }
    assert!(found > 0 && exhausted > 0, "{} {}", found, exhausted);
}

#[test]
fn instance_is_refused_when_its_first_draw_is_exhausted() {
    let mut refused = 0u32;
    for seed in 0..60u64 {
        match KarlinInstance::new(1, 14_400, needle(14_400), RandomSource::seeded(seed)) {
            Ok(online) => assert_eq!(online.wait_before_discard(), 14_400),
            Err(e) => {
                assert_eq!(e, Error::SamplingExhausted);
                refused += 1;
            }
        }
    }
    assert!(refused > 0);
}

#[test]
fn failed_tick_leaves_the_instance_as_it_was() {
    let mut checked = 0u32;
    for seed in 0..60u64 {
        if let Ok(mut online) =
            KarlinInstance::new(1, 14_400, needle(14_400), RandomSource::seeded(seed))
        {
            online.tick(false).unwrap();
            let threshold = online.wait_before_discard();
            if online.tick(true) == Err(Error::SamplingExhausted) {
                assert_eq!(online.total_accrued_cost(), 1);
                assert_eq!(online.wait_before_discard(), threshold);
                online.tick(false).unwrap();
                assert_eq!(online.total_accrued_cost(), 2);
                checked += 1;
            }
        }
    }
    assert!(checked > 0);
}

#[test]
fn draws_stay_in_range_and_vary() {
    let mut source = RandomSource::seeded(42);
    let mut low = false;
    let mut high = false;
    for _ in 0..2000 {
        let drawn = source.draw_between(10, 13);
        assert!((10..=13).contains(&drawn));
        low |= drawn == 10;
        high |= drawn == 13;
    }
    assert!(low && high);
    let mut zero = false;
    let mut top = false;
    for _ in 0..2000 {
        let drawn = source.draw_up_to(2);
        assert!(drawn <= 2);
        zero |= drawn == 0;
        top |= drawn == 2;
    }
    assert!(zero && top);
    assert_eq!(source.draw_between(9, 9), 9);
    assert_eq!(source.draw_up_to(0), 0);
}

#[test]
fn equal_seeds_give_equal_draws() {
    let mut a = RandomSource::seeded(7);
    let mut b = RandomSource::seeded(7);
    let mut c = RandomSource::seeded(8);
    let mut differs = false;
    for _ in 0..100 {
        let drawn = a.draw_up_to(u64::MAX);
        assert_eq!(drawn, b.draw_up_to(u64::MAX));
        differs |= drawn != c.draw_up_to(u64::MAX);
    }
    assert!(differs);
}

#[test]
fn sample_draws_repeat_for_a_seed() {
    let density = Density::new(vec![1, 2, 4, 8, 16, 32]).unwrap();
    let mut a = RandomSource::seeded(77);
    let mut b = RandomSource::seeded(77);
    for _ in 0..500 {
        assert_eq!(sample(&density, &mut a), sample(&density, &mut b));
    }
}

#[test]
fn sample_returns_the_first_candidate_accepted() {
    // The source repeats for a seed, so the draws that `sample` makes can be
    // made beforehand and its outcome worked out from them.
    let density = Density::new(vec![10, 200, 3_000, 40_000, 500_000]).unwrap();
    for seed in 0..200u64 {
        let mut ahead = RandomSource::seeded(seed);
        let mut expected = None;
        let mut pairs = 0u64;
        while expected.is_none() {
            let candidate = ahead.draw_up_to(density.cost());
            let height = ahead.draw_up_to(density.peak() - 1);
            pairs += 1;
            if accepts(&density, candidate, height) {
                expected = Some(candidate);
            }
        }
        let mut source = RandomSource::seeded(seed);
        assert_eq!(sample(&density, &mut source).ok(), expected);
        // Nothing was drawn after the accepted pair: both sources go on alike.
        assert_eq!(source.draw_up_to(u64::MAX), ahead.draw_up_to(u64::MAX));
        assert!(pairs >= 1);
    }
}

#[test]
fn instance_takes_its_threshold_from_sample() {
    let density = Density::new(vec![10, 200, 3_000, 40_000, 500_000]).unwrap();
    for seed in 0..100u64 {
        let mut ahead = RandomSource::seeded(seed);
        let first = sample(&density, &mut ahead).unwrap();
        let second = sample(&density, &mut ahead).unwrap();
        let mut online =
            KarlinInstance::new(1, 4, density.clone(), RandomSource::seeded(seed)).unwrap();
        assert_eq!(online.wait_before_discard(), first);
        online.tick(false).unwrap();
        assert_eq!(online.wait_before_discard(), first);
        online.tick(true).unwrap();
        assert_eq!(online.wait_before_discard(), second);
    }
}
