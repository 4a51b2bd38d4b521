use retention_sim::error::Error;
use retention_sim::karlin::Density;
use retention_sim::random::RandomSource;
use retention_sim::ratio::CompetitiveRatio;
use retention_sim::two_tier::{
    calculate_competitive_ratio, KarlinInstance, NaiveInstance, OfflineInstance,
};
use retention_sim::{Algorithm, Policy, Simulator};

/// The threshold density `e^(t/c) / ((e - 1) c)` for `t` from zero to `c`, in
/// units of `1e-15`.
fn karlin_density(c: u64) -> Density {
    let e = std::f64::consts::E;
    let weights: Vec<u64> = (0..=c)
        .map(|t| (e.powf(t as f64 / c as f64) / ((e - 1.0) * c as f64) * 1e15) as u64)
        .collect();
    Density::new(weights).unwrap()
}

fn as_float(ratio: CompetitiveRatio) -> f64 {
    ratio.online_cost as f64 / ratio.offline_cost as f64
}

fn offline_cost(keep_cost: u64, recover_cost: u64, trace: &[u64], num_ticks: u64) -> u64 {
    let offline = OfflineInstance::new(keep_cost, recover_cost, trace.to_vec());
    let mut sim = Simulator::new(trace.to_vec(), offline);
    sim.run(num_ticks).unwrap();
    sim.total_accrued_cost()
}

fn naive_cost(keep_cost: u64, recover_cost: u64, trace: &[u64], num_ticks: u64) -> u64 {
    let naive = NaiveInstance::new(keep_cost, recover_cost);
    let mut sim = Simulator::new(trace.to_vec(), naive);
    sim.run(num_ticks).unwrap();
    sim.total_accrued_cost()
}

#[test]
fn two_competitive() {
    let keep_cost = 1u64;
    let recover_cost = 3u64;
    let num_ticks = 11;
    let access_list = vec![4, 8, 12];
    let online_instance = NaiveInstance::new(keep_cost, recover_cost);
    let competitive_ratio = calculate_competitive_ratio(
        online_instance,
        keep_cost,
        recover_cost,
        access_list,
        num_ticks,
    )
    .unwrap();
    assert_eq!(2.0, as_float(competitive_ratio));
    assert_eq!(competitive_ratio, CompetitiveRatio { online_cost: 12, offline_cost: 6 });
}

#[test]
fn randomized_competitive() {
    let keep_cost = 1u64;
    let recover_cost = 3u64;
    let num_ticks = 11;
    let access_list = vec![4, 8, 12];
    let online_instance = KarlinInstance::new(
        keep_cost,
        recover_cost,
        karlin_density(recover_cost),
        RandomSource::seeded(1),
    )
    .unwrap();
    let competitive_ratio = calculate_competitive_ratio(
        online_instance,
        keep_cost,
        recover_cost,
        access_list,
        num_ticks,
    )
    .unwrap();
    assert!(as_float(competitive_ratio) < 1.67, "ratio {:?}", competitive_ratio);
}

#[test]
fn randomized_ratio_averages_below_bound() {
    let trials = 2000u64;
    let mut sum = 0.0f64;
    for seed in 0..trials {
        let online = KarlinInstance::new(1, 3, karlin_density(3), RandomSource::seeded(seed))
            .unwrap();
        let ratio = calculate_competitive_ratio(online, 1, 3, vec![4, 8, 12], 11).unwrap();
        assert_eq!(ratio.offline_cost, 6);
        assert!(ratio.online_cost >= 6 && ratio.online_cost <= 12);
        sum += as_float(ratio);
    }
    let mean = sum / trials as f64;
    assert!(mean < 1.67, "mean ratio {}", mean);
    assert!(mean > 1.0, "mean ratio {}", mean);
}

#[test]
fn randomized_run_repeats_for_a_seed() {
    let run = |seed: u64| {
        let mut online =
            KarlinInstance::new(1, 3, karlin_density(3), RandomSource::seeded(seed)).unwrap();
        let mut thresholds = vec![online.wait_before_discard()];
        for t in 1..=40u64 {
            let access = t % 5 == 0;
            online.tick(access).unwrap();
            if access {
                thresholds.push(online.wait_before_discard());
            }
        }
        (thresholds, online.total_accrued_cost())
    };
    for seed in [0u64, 1, 2, 99, u64::MAX] {
        assert_eq!(run(seed), run(seed));
    }
    let ratio = |seed: u64| {
        let online =
            KarlinInstance::new(1, 3, karlin_density(3), RandomSource::seeded(seed)).unwrap();
        calculate_competitive_ratio(online, 1, 3, vec![4, 8, 12], 11).unwrap()
    };
    for seed in [3u64, 4, 5] {
        assert_eq!(ratio(seed), ratio(seed));
    }
}

#[test]
fn offline_discards_at_break_even() {
    // The next access is exactly `recover_cost` ticks after the first tick.
    let mut offline = OfflineInstance::new(1, 3, vec![4]);
    assert_eq!(offline.policy(), Policy::Keep);
    offline.tick(false).unwrap();
    assert_eq!(offline.policy(), Policy::Discard);
    assert_eq!(offline.total_accrued_cost(), 0);
    offline.tick(false).unwrap();
    offline.tick(false).unwrap();
    offline.tick(true).unwrap();
    assert_eq!(offline.policy(), Policy::Keep);
    assert_eq!(offline.total_accrued_cost(), 3);
}

#[test]
fn offline_keeps_below_break_even() {
    // The next access is one tick short of `recover_cost` after the first.
    let mut offline = OfflineInstance::new(1, 3, vec![3]);
    offline.tick(false).unwrap();
    assert_eq!(offline.policy(), Policy::Keep);
    offline.tick(false).unwrap();
    offline.tick(true).unwrap();
    assert_eq!(offline.policy(), Policy::Keep);
    assert_eq!(offline.total_accrued_cost(), 2);
}

#[test]
fn offline_keeps_paying_once_the_trace_is_exhausted() {
    assert_eq!(offline_cost(1, 3, &[1], 100), 99);
    assert_eq!(naive_cost(1, 3, &[1], 100), 2);
}

#[test]
fn offline_with_overdue_access_keeps() {
    // The access at tick 2 is never reported, so the cursor stays behind.
    let mut offline = OfflineInstance::new(1, 3, vec![2, 50]);
    for _ in 0..5 {
        offline.tick(false).unwrap();
    }
    assert_eq!(offline.policy(), Policy::Keep);
    assert_eq!(offline.total_accrued_cost(), 5);
}

#[test]
fn naive_discards_after_recover_cost_ticks() {
    let mut naive = NaiveInstance::new(1, 3);
    naive.tick(false).unwrap();
    naive.tick(false).unwrap();
    assert_eq!(naive.policy(), Policy::Keep);
    assert_eq!(naive.total_accrued_cost(), 2);
    naive.tick(false).unwrap();
    assert_eq!(naive.policy(), Policy::Discard);
    assert_eq!(naive.total_accrued_cost(), 2);
    naive.tick(true).unwrap();
    assert_eq!(naive.policy(), Policy::Keep);
    assert_eq!(naive.total_accrued_cost(), 5);
}

#[test]
fn naive_discards_on_the_tick_of_a_late_access() {
    // A gap of exactly `recover_cost` ticks: five against two.
    assert_eq!(naive_cost(1, 3, &[3], 3), 5);
    assert_eq!(offline_cost(1, 3, &[3], 3), 2);
}

#[test]
fn offline_is_never_dearer_than_naive_within_the_trace() {
    let traces: [&[u64]; 5] =
        [&[4, 8, 12], &[1, 2, 3, 10, 20, 21], &[7], &[2, 9, 11, 30], &[5, 6, 40, 41, 43, 60]];
    for trace in traces {
        for (keep_cost, recover_cost) in [(1u64, 3u64), (2, 5), (0, 4), (7, 1), (3, 0)] {
            for num_ticks in 0..=*trace.last().unwrap() {
                let offline = offline_cost(keep_cost, recover_cost, trace, num_ticks);
                let naive = naive_cost(keep_cost, recover_cost, trace, num_ticks);
                assert!(offline <= naive, "{:?} {} {} {}", trace, keep_cost, recover_cost, num_ticks);
            }
        }
    }
}

#[test]
fn naive_is_within_twice_offline_after_each_access() {
    // No gap of these traces is exactly `recover_cost` long.
    let traces: [&[u64]; 4] = [&[4, 8, 12], &[1, 2, 10, 20, 21], &[7], &[5, 6, 40, 41, 43, 60]];
    for trace in traces {
        for &num_ticks in trace {
            let offline = offline_cost(1, 3, trace, num_ticks);
            let naive = naive_cost(1, 3, trace, num_ticks);
            assert!(naive <= 2 * offline, "{:?} {}", trace, num_ticks);
        }
    }
}

#[test]
fn offline_is_never_dearer_than_randomized_after_each_access() {
    let trace = vec![2u64, 3, 9, 10, 14, 30, 33];
    for seed in 0..200u64 {
        for &num_ticks in &trace {
            let online = KarlinInstance::new(1, 3, karlin_density(3), RandomSource::seeded(seed))
                .unwrap();
            let ratio =
                calculate_competitive_ratio(online, 1, 3, trace.clone(), num_ticks).unwrap();
            assert!(ratio.offline_cost <= ratio.online_cost, "seed {} {:?}", seed, ratio);
        }
    }
}

#[test]
fn randomized_thresholds_stay_within_recover_cost() {
    for seed in 0..50u64 {
        let mut online =
            KarlinInstance::new(2, 6, karlin_density(6), RandomSource::seeded(seed)).unwrap();
        assert!(online.wait_before_discard() <= 6);
        for t in 1..=60u64 {
            online.tick(t % 4 == 0).unwrap();
            assert!(online.wait_before_discard() <= 6);
        }
    }
}

#[test]
fn randomized_follows_its_threshold() {
    let mut online =
        KarlinInstance::new(1, 5, karlin_density(5), RandomSource::seeded(11)).unwrap();
    let threshold = online.wait_before_discard();
    let mut kept = 0u64;
    for t in 1..=10u64 {
        online.tick(false).unwrap();
        if t < threshold {
            kept += 1;
            assert_eq!(online.policy(), Policy::Keep);
        } else {
            assert_eq!(online.policy(), Policy::Discard);
        }
        assert_eq!(online.total_accrued_cost(), kept);
        assert_eq!(online.wait_before_discard(), threshold);
    }
    online.tick(true).unwrap();
    assert_eq!(online.policy(), Policy::Keep);
    assert_eq!(online.total_accrued_cost(), kept + 5);
}

#[test]
fn randomized_refuses_a_density_of_another_domain() {
    let refused = KarlinInstance::new(1, 3, karlin_density(4), RandomSource::seeded(0));
    assert_eq!(refused.err(), Some(Error::DensityDomain));
}

#[test]
fn ratio_of_an_empty_trace_is_undefined() {
    let ratio = calculate_competitive_ratio(NaiveInstance::new(0, 3), 0, 3, vec![], 10).unwrap();
    assert_eq!(ratio, CompetitiveRatio { online_cost: 0, offline_cost: 0 });
    assert!(!ratio.is_defined());
    assert!(as_float(ratio).is_nan());
}

#[test]
fn cost_never_decreases() {
    let trace = vec![3u64, 4, 9, 20];
    let mut offline = Simulator::new(trace.clone(), OfflineInstance::new(2, 4, trace.clone()));
    let mut naive = Simulator::new(trace.clone(), NaiveInstance::new(2, 4));
    let mut before = (0u64, 0u64);
    for _ in 0..25 {
        offline.tick().unwrap();
        naive.tick().unwrap();
        let now = (offline.total_accrued_cost(), naive.total_accrued_cost());
        assert!(now.0 >= before.0 && now.0 - before.0 <= 4);
        assert!(now.1 >= before.1 && now.1 - before.1 <= 4);
        before = now;
    }
}

#[test]
fn offline_exceeds_naive_by_the_overrun_at_most() {
    let traces: [&[u64]; 4] = [&[4, 8, 12], &[1], &[], &[2, 9, 11, 30]];
    for trace in traces {
        let horizon = trace.last().copied().unwrap_or(0);
        for (keep_cost, recover_cost) in [(1u64, 3u64), (2, 5), (4, 1), (3, 0)] {
            for num_ticks in 0..=horizon + 20 {
                let kept = recover_cost.saturating_sub(1);
                let overrun = num_ticks.saturating_sub(horizon + kept);
                let offline = offline_cost(keep_cost, recover_cost, trace, num_ticks);
                let naive = naive_cost(keep_cost, recover_cost, trace, num_ticks);
                assert!(offline <= naive + keep_cost * overrun);
                if trace.is_empty() {
                    // Nothing is saved before the overrun, so the bound is met.
                    assert_eq!(offline, naive + keep_cost * overrun);
                }
            }
        }
    }
}

#[test]
fn naive_is_within_twice_offline_up_to_exact_gaps() {
    // Gaps of 3, 3, 4, 2, 3, 10 and 1 ticks.
    let trace: &[u64] = &[3, 6, 10, 12, 15, 25, 26];
    for (keep_cost, recover_cost) in
        [(1u64, 3u64), (1, 4), (1, 1), (0, 3), (2, 2), (5, 0), (5, 3), (2, 5), (7, 1)]
    {
        let kept = recover_cost.saturating_sub(1);
        let margin = recover_cost as i128 - (keep_cost * kept) as i128;
        for num_ticks in 0..=40u64 {
            let mut exact = 0i128;
            let mut long = 0i128;
            let mut last = 0u64;
            for &access in trace.iter().filter(|&&access| access <= num_ticks) {
                if access - last == recover_cost {
                    exact += 1;
                } else if access - last > recover_cost {
                    long += 1;
                }
                last = access;
            }
            let mut offline = Simulator::new(
                trace.to_vec(),
                OfflineInstance::new(keep_cost, recover_cost, trace.to_vec()),
            );
            offline.run(num_ticks).unwrap();
            let discarded = offline.node().policy() == Policy::Discard;
            let pending = if discarded { (keep_cost * kept) as i128 } else { 0 };
            let offline = offline.total_accrued_cost() as i128;
            let naive = naive_cost(keep_cost, recover_cost, trace, num_ticks) as i128;
            assert!(
                naive + margin * long <= 2 * offline + margin * exact + pending,
                "{} {} {}",
                keep_cost,
                recover_cost,
                num_ticks
            );
        }
    }
}

#[test]
fn randomized_cost_is_determined_by_its_thresholds() {
    let trace = vec![2u64, 3, 9, 10, 14, 30, 33];
    for seed in 0..100u64 {
        let mut online =
            KarlinInstance::new(2, 4, karlin_density(4), RandomSource::seeded(seed)).unwrap();
        let mut threshold = online.wait_before_discard();
        let mut last = 0u64;
        let mut keeping = true;
        let mut cost = 0u64;
        for t in 1..=40u64 {
            let access = trace.contains(&t);
            online.tick(access).unwrap();
            if keeping && t - last >= threshold {
                keeping = false;
            }
            if access {
                last = t;
                threshold = online.wait_before_discard();
                if !keeping {
                    cost += 4;
                    keeping = true;
                }
            } else if keeping {
                cost += 2;
            }
            assert_eq!(online.total_accrued_cost(), cost);
            assert_eq!(online.policy() == Policy::Keep, keeping);
        }
    }
}

#[test]
fn offline_with_the_owed_recovery_is_never_dearer_than_randomized() {
    let trace = vec![2u64, 3, 9, 10, 14, 30, 33];
    for seed in 0..100u64 {
        let mut offline = Simulator::new(trace.clone(), OfflineInstance::new(1, 3, trace.clone()));
        let online = KarlinInstance::new(1, 3, karlin_density(3), RandomSource::seeded(seed))
            .unwrap();
        let mut online = Simulator::new(trace.clone(), online);
        for _ in 0..33 {
            offline.tick().unwrap();
            online.tick().unwrap();
            let owed = if online.node().policy() == Policy::Discard { 3 } else { 0 };
            assert!(offline.total_accrued_cost() <= online.total_accrued_cost() + owed);
        }
    }
}

#[test]
fn offline_exceeds_randomized_by_overrun_and_excess_at_most() {
    let trace = vec![2u64, 3, 9, 10, 14, 30, 33];
    for (keep_cost, recover_cost) in [(1u64, 3u64), (100, 3), (2, 5), (3, 1), (9, 4)] {
        let kept = recover_cost - 1;
        let excess = (keep_cost * kept).saturating_sub(recover_cost);
        for seed in 0..60u64 {
            let mut offline = Simulator::new(
                trace.clone(),
                OfflineInstance::new(keep_cost, recover_cost, trace.clone()),
            );
            let online = KarlinInstance::new(
                keep_cost,
                recover_cost,
                karlin_density(recover_cost),
                RandomSource::seeded(seed),
            )
            .unwrap();
            let mut online = Simulator::new(trace.clone(), online);
            let mut accesses = 0u64;
            for t in 1..=45u64 {
                offline.tick().unwrap();
                online.tick().unwrap();
                if trace.contains(&t) {
                    accesses += 1;
                }
                let owed =
                    if online.node().policy() == Policy::Discard { recover_cost } else { 0 };
                let waits = online.node().wait_before_discard().saturating_sub(1);
                let overrun = t.saturating_sub(33 + waits);
                assert!(
                    offline.total_accrued_cost()
                        <= online.total_accrued_cost()
                            + owed
                            + keep_cost * overrun
                            + excess * (accesses + 1),
                    "{} {} {} {}",
                    keep_cost,
                    recover_cost,
                    seed,
                    t
                );
            }
        }
    }
}

#[test]
fn randomized_beats_offline_where_keeping_is_dear() {
    // Two ticks kept at a hundred each, against one recovery of three.
    let mut beaten = false;
    for seed in 0..50u64 {
        let online =
            KarlinInstance::new(100, 3, karlin_density(3), RandomSource::seeded(seed)).unwrap();
        let ratio = calculate_competitive_ratio(online, 100, 3, vec![3], 3).unwrap();
        assert_eq!(ratio.offline_cost, 200);
        beaten |= ratio.online_cost < ratio.offline_cost;
    }
    assert!(beaten);
}

#[test]
fn costs_add_up_gap_by_gap() {
    let traces: [&[u64]; 5] =
        [&[4, 8, 12], &[1, 2, 3, 10, 20, 21], &[7], &[], &[3, 6, 10, 12, 15, 25, 26]];
    for trace in traces {
        for (keep_cost, recover_cost) in [(1u64, 3u64), (2, 5), (0, 4), (7, 1), (3, 0), (5, 3)] {
            let kept = recover_cost.saturating_sub(1);
            for num_ticks in 0..=30u64 {
                let mut offline = 0u64;
                let mut naive = 0u64;
                let mut last = 0u64;
                let mut served = 0usize;
                for &access in trace.iter().filter(|&&access| access <= num_ticks) {
                    let length = access - last;
                    offline += if length - 1 >= recover_cost {
                        recover_cost
                    } else {
                        (length - 1) * keep_cost
                    };
                    naive += (length - 1).min(kept) * keep_cost
                        + if length >= recover_cost { recover_cost } else { 0 };
                    last = access;
                    served += 1;
                }
                let waited = num_ticks - last;
                let discarded =
                    served < trace.len() && trace[served] - last - 1 >= recover_cost;
                offline += if discarded { 0 } else { waited * keep_cost };
                naive += waited.min(kept) * keep_cost;
                assert_eq!(offline_cost(keep_cost, recover_cost, trace, num_ticks), offline);
                assert_eq!(naive_cost(keep_cost, recover_cost, trace, num_ticks), naive);
            }
        }
    }
}

/// What a schedule of waits has paid after `num_ticks` ticks, and what it
/// still owes: `waits[i]` is the wait in force after `i` accesses.
fn schedule_cost(
    keep_cost: u64,
    recover_cost: u64,
    trace: &[u64],
    waits: &[u64],
    num_ticks: u64,
) -> (u64, u64) {
    let mut cost = 0u64;
    let mut last = 0u64;
    let mut served = 0usize;
    let mut keeping = true;
    for t in 1..=num_ticks {
        if keeping && t - last >= waits[served] {
            keeping = false;
        }
        if trace.contains(&t) {
            last = t;
            served += 1;
            if !keeping {
                cost += recover_cost;
                keeping = true;
            }
        } else if keeping {
            cost += keep_cost;
        }
    }
    (cost, if keeping { 0 } else { recover_cost })
}

#[test]
fn no_schedule_is_cheaper_than_offline() {
    let trace: &[u64] = &[2, 3, 8, 12];
    for (keep_cost, recover_cost) in [(1u64, 3u64), (1, 1), (2, 2), (1, 5)] {
        for code in 0..6u64.pow(5) {
            // Every schedule with waits from zero to four, and one that never
            // discards.
            let waits: Vec<u64> = (0..5)
                .map(|i| match code / 6u64.pow(i) % 6 {
                    5 => u64::MAX,
                    wait => wait,
                })
                .collect();
            for &num_ticks in trace {
                let (cost, owed) = schedule_cost(keep_cost, recover_cost, trace, &waits, num_ticks);
                assert_eq!(owed, 0);
                assert!(
                    offline_cost(keep_cost, recover_cost, trace, num_ticks) <= cost,
                    "{} {} {:?} {}",
                    keep_cost,
                    recover_cost,
                    waits,
                    num_ticks
                );
            }
            for num_ticks in 0..=12u64 {
                let (cost, owed) = schedule_cost(keep_cost, recover_cost, trace, &waits, num_ticks);
                assert!(offline_cost(keep_cost, recover_cost, trace, num_ticks) <= cost + owed);
            }
        }
    }
}

#[test]
fn schedule_that_keeps_for_nothing_beats_offline() {
    // Keeping is free, and the offline instance still discards ahead of a
    // long gap and pays to recover.
    let (cost, owed) = schedule_cost(0, 3, &[10], &[u64::MAX, u64::MAX], 10);
    assert_eq!((cost, owed), (0, 0));
    assert_eq!(offline_cost(0, 3, &[10], 10), 3);
}
