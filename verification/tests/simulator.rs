use retention_sim::random::RandomSource;
use retention_sim::ratio::CompetitiveRatio;
use retention_sim::trace::{check_trace, contains};
use retention_sim::two_tier::{NaiveInstance, OfflineInstance};
use retention_sim::util::{generate_access_list, insert_distinct, sorted_distinct};
use retention_sim::{Algorithm, Policy, Simulator};

#[test]
fn simulator_hands_out_accesses_by_tick_number() {
    let mut sim = Simulator::new(vec![2, 5], NaiveInstance::new(1, 2));
    // Tick 1: kept and charged.
    sim.tick().unwrap();
    assert_eq!(sim.total_accrued_cost(), 1);
    // Tick 2: two ticks since the start, so discarded, and recovered at once.
    sim.tick().unwrap();
    assert_eq!(sim.total_accrued_cost(), 3);
    assert_eq!(sim.node().policy(), Policy::Keep);
    // Ticks 3 and 4: one more tick kept, then discarded.
    sim.run(2).unwrap();
    assert_eq!(sim.total_accrued_cost(), 4);
    assert_eq!(sim.node().policy(), Policy::Discard);
    // Tick 5: recovered.
    sim.tick().unwrap();
    assert_eq!(sim.total_accrued_cost(), 6);
    assert_eq!(sim.node().policy(), Policy::Keep);
}

#[test]
fn simulator_run_equals_single_ticks() {
    let trace = vec![3u64, 4, 9, 20];
    let mut stepped = Simulator::new(trace.clone(), OfflineInstance::new(2, 4, trace.clone()));
    let mut ran = Simulator::new(trace.clone(), OfflineInstance::new(2, 4, trace.clone()));
    for _ in 0..23 {
        stepped.tick().unwrap();
    }
    ran.run(23).unwrap();
    assert_eq!(stepped.total_accrued_cost(), ran.total_accrued_cost());
    ran.run(0).unwrap();
    assert_eq!(stepped.total_accrued_cost(), ran.total_accrued_cost());
}

#[test]
fn fresh_instances_start_keeping_at_no_cost() {
    let naive = NaiveInstance::new(4, 9);
    assert_eq!(naive.policy(), Policy::Keep);
    assert_eq!(naive.total_accrued_cost(), 0);
    let offline = OfflineInstance::new(4, 9, vec![1, 2]);
    assert_eq!(offline.policy(), Policy::Keep);
    assert_eq!(offline.total_accrued_cost(), 0);
    let copy = naive.clone();
    assert_eq!(copy.total_accrued_cost(), 0);
}

#[test]
fn membership_in_a_trace() {
    let trace = vec![4u64, 8, 12];
    assert!(contains(&trace, 4));
    assert!(contains(&trace, 12));
    assert!(!contains(&trace, 5));
    assert!(!contains(&trace, 0));
    assert!(!contains(&vec![], 1));
}

#[test]
fn traces_ascend_from_tick_one() {
    assert!(check_trace(&vec![]));
    assert!(check_trace(&vec![1]));
    assert!(check_trace(&vec![4, 8, 12]));
    assert!(!check_trace(&vec![0, 1]));
    assert!(!check_trace(&vec![4, 4]));
    assert!(!check_trace(&vec![4, 8, 7]));
}

#[test]
fn ratio_comparisons_are_exact() {
    let ratio = CompetitiveRatio { online_cost: 12, offline_cost: 6 };
    assert!(ratio.is_defined());
    assert!(ratio.at_most(2, 1));
    assert!(ratio.at_least(2, 1));
    assert!(!ratio.at_most(199, 100));
    assert!(!ratio.at_least(201, 100));
    assert!(!ratio.at_most(2, 0));
    let large = CompetitiveRatio { online_cost: u64::MAX, offline_cost: u64::MAX - 1 };
    assert!(large.at_least(1, 1));
    assert!(!large.at_most(1, 1));
    assert!(large.at_most(u64::MAX, u64::MAX - 1));
    let undefined = CompetitiveRatio { online_cost: 3, offline_cost: 0 };
    assert!(!undefined.is_defined());
    assert!(!undefined.at_most(u64::MAX, 1));
    assert!(!undefined.at_least(0, 1));
}

#[test]
fn insertion_keeps_order_and_skips_repeats() {
    let mut list = vec![2u64, 5, 9];
    insert_distinct(&mut list, 7);
    assert_eq!(list, vec![2, 5, 7, 9]);
    insert_distinct(&mut list, 5);
    assert_eq!(list, vec![2, 5, 7, 9]);
    insert_distinct(&mut list, 1);
    insert_distinct(&mut list, 10);
    assert_eq!(list, vec![1, 2, 5, 7, 9, 10]);
}

#[test]
fn sorting_drops_repeats() {
    assert_eq!(sorted_distinct(&vec![5, 1, 5, 3, 1, 9]), vec![1, 3, 5, 9]);
    assert_eq!(sorted_distinct(&vec![]), Vec::<u64>::new());
}

#[test]
fn generated_traces_are_well_formed() {
    let mut source = RandomSource::seeded(12);
    for _ in 0..200 {
        let list = generate_access_list(10, 100, &mut source);
        assert!(check_trace(&list));
        assert!(!list.is_empty() && list.len() <= 10);
        assert!(*list.last().unwrap() <= 100);
    }
    assert_eq!(generate_access_list(5, 1, &mut source), vec![1]);
    assert!(generate_access_list(0, 100, &mut source).is_empty());
    assert!(generate_access_list(0, 0, &mut source).is_empty());
}

#[test]
fn generated_traces_repeat_for_a_seed() {
    let mut a = RandomSource::seeded(5);
    let mut b = RandomSource::seeded(5);
    for _ in 0..20 {
        assert_eq!(generate_access_list(10, 100, &mut a), generate_access_list(10, 100, &mut b));
    }
}

#[test]
fn generated_trace_holds_the_ticks_drawn() {
    for seed in 0..50u64 {
        let mut ahead = RandomSource::seeded(seed);
        let mut drawn: Vec<u64> = (0..10).map(|_| ahead.draw_between(1, 30)).collect();
        drawn.sort();
        drawn.dedup();
        let mut source = RandomSource::seeded(seed);
        assert_eq!(generate_access_list(10, 30, &mut source), drawn);
        assert_eq!(source.draw_up_to(u64::MAX), ahead.draw_up_to(u64::MAX));
    }
}
