use csim::cost::{ratio_of, sum_first, CostTracker, IndScr, Ratio};
use csim::credit::CREDIT_SCALE;
use csim::logger::{PrettyTracker, Tracker};
use csim::pressure::PressureTracker;
use csim::{HitPolicy, Item, Landlord, RequestFullOrSuffix, TiebreakingPolicy};

fn item(label: &str, cost: u32, size: u32) -> Item {
    Item::new(label.to_string(), cost, size)
}

fn name(label: &str) -> String {
    label.to_string()
}

#[test]
fn sums_and_ratios_are_exact() {
    let costs = vec![10, 4, 0, 6];
    assert_eq!(sum_first(&costs, 0), 0);
    assert_eq!(sum_first(&costs, 1), 10);
    assert_eq!(sum_first(&costs, 4), 20);
    assert_eq!(sum_first(&vec![u32::MAX, u32::MAX], 2), 2 * (u32::MAX as u64));
    assert_eq!(ratio_of(16, 20), Ratio { num: 16, den: 20 });
    assert_eq!(ratio_of(0, 20), Ratio { num: 0, den: 20 });
    assert_eq!(ratio_of(5, 0), Ratio { num: 0, den: 1 });
}

#[test]
fn individual_rows_follow_first_occurrence() {
    let (a, b) = (item("A", 10, 1), item("B", 4, 1));
    let trace: Vec<&Item> = vec![&b, &a, &b, &b, &a];
    let mut rows = IndScr::new(&trace);
    assert_eq!(rows.len(), 2);
    assert_eq!(rows.label_at(0), "B");
    assert_eq!(rows.label_at(1), "A");
    assert!(rows.contains(&name("A")));
    assert!(!rows.contains(&name("C")));
    assert_eq!(rows.scr(0, &name("A")), Ratio { num: 0, den: 1 });
    rows.enter(&name("A"), RequestFullOrSuffix::Full(false), 10);
    rows.enter(&name("A"), RequestFullOrSuffix::Suff(false), 4);
    rows.enter(&name("A"), RequestFullOrSuffix::Full(false), 5);
    rows.enter(&name("A"), RequestFullOrSuffix::Suff(true), 0);
    assert_eq!(rows.scr(1, &name("A")), Ratio { num: 4, den: 10 });
    assert_eq!(rows.scr(2, &name("A")), Ratio { num: 4, den: 15 });
    assert_eq!(rows.scr_of_row(1), Ratio { num: 4, den: 15 });
    assert_eq!(rows.scr_of_row(0), Ratio { num: 0, den: 1 });
}

#[test]
fn cost_tracker_logs_cost_on_fault_and_zero_on_hit() {
    let (a, b) = (item("A", 10, 1), item("B", 4, 1));
    let trace: Vec<&Item> = vec![&a, &b];
    let mut tracker = CostTracker::for_trace(&trace);
    assert_eq!(tracker.get_scr(0), Ratio { num: 0, den: 1 });
    assert_eq!(tracker.get_scr(5), Ratio { num: 0, den: 1 });
    tracker.log(&a, RequestFullOrSuffix::Full(false));
    tracker.log(&a, RequestFullOrSuffix::Suff(true));
    tracker.log(&b, RequestFullOrSuffix::Full(false));
    tracker.log(&b, RequestFullOrSuffix::Suff(false));
    tracker.log(&a, RequestFullOrSuffix::Full(true));
    tracker.log(&a, RequestFullOrSuffix::Suff(false));
    assert_eq!(tracker.full_costs(), &vec![10, 4, 0]);
    assert_eq!(tracker.suff_costs(), &vec![0, 4, 10]);
    assert_eq!(tracker.get_full_cost(0), 10);
    assert_eq!(tracker.get_full_cost(2), 0);
    assert_eq!(tracker.get_suff_cost(0), 0);
    assert_eq!(tracker.get_suff_cost(2), 10);
    assert_eq!(tracker.get_full_cost_range(0), 0);
    assert_eq!(tracker.get_full_cost_range(2), 14);
    assert_eq!(tracker.get_full_cost_range(3), 14);
    assert_eq!(tracker.get_suff_cost_range(1), 0);
    assert_eq!(tracker.get_suff_cost_range(3), 14);
    assert_eq!(tracker.get_scr(0), Ratio { num: 0, den: 1 });
    assert_eq!(tracker.get_scr(1), Ratio { num: 0, den: 10 });
    assert_eq!(tracker.get_scr(2), Ratio { num: 4, den: 14 });
    assert_eq!(tracker.get_scr(3), Ratio { num: 14, den: 14 });
    assert_eq!(tracker.get_ind_scr(2, &a), Ratio { num: 10, den: 10 });
    assert_eq!(tracker.get_ind_scr(1, &a), Ratio { num: 0, den: 10 });
    assert_eq!(tracker.get_ind_scr(1, &b), Ratio { num: 4, den: 4 });
    assert_eq!(tracker.ind_scr().len(), 2);
    let (full, suff, rows) = tracker.into_parts();
    assert_eq!(full, vec![10, 4, 0]);
    assert_eq!(suff, vec![0, 4, 10]);
    assert_eq!(rows.len(), 2);
}

#[test]
fn new_cost_tracker_follows_no_item() {
    let tracker = CostTracker::new();
    assert!(tracker.full_costs().is_empty());
    assert!(tracker.suff_costs().is_empty());
    assert_eq!(tracker.ind_scr().len(), 0);
    assert_eq!(tracker.get_full_cost_range(0), 0);
    assert_eq!(tracker.get_suff_cost_range(0), 0);
    assert_eq!(tracker.get_scr(3), Ratio { num: 0, den: 1 });
}

#[test]
fn prefix_sums_never_decrease() {
    let (a, b, c) = (item("A", 10, 1), item("B", 4, 1), item("C", 6, 1));
    let trace: Vec<&Item> = vec![&a, &b, &c, &a, &b, &c, &c, &a];
    let s = Landlord::new(2, TiebreakingPolicy::Lru, HitPolicy::Lru);
    let f = Landlord::new(2, TiebreakingPolicy::Lru, HitPolicy::Lru);
    let mut tracker = Tracker::new(&trace);
    Landlord::run(&trace, 3, s, f, &mut tracker);
    for k in 0..trace.len() as u32 {
        assert!(tracker.get_full_cost_range(k) <= tracker.get_full_cost_range(k + 1));
        assert!(tracker.get_suff_cost_range(k) <= tracker.get_suff_cost_range(k + 1));
        assert_eq!(
            tracker.get_full_cost_range(k + 1) - tracker.get_full_cost_range(k),
            tracker.get_full_cost(k) as u64
        );
    }
    for k in 0..=trace.len() as u32 {
        let full = tracker.get_full_cost_range(k);
        let scr = tracker.get_scr(k);
        if full > 0 {
            assert_eq!(scr, Ratio { num: tracker.get_suff_cost_range(k), den: full });
        } else {
            assert_eq!(scr, Ratio { num: 0, den: 1 });
        }
    }
}

#[test]
fn scr_is_zero_where_the_full_cache_paid_nothing() {
    let free = item("free", 0, 1);
    let trace: Vec<&Item> = vec![&free, &free];
    let mut tracker = Tracker::new(&trace);
    assert_eq!(tracker.get_scr(0), Ratio { num: 0, den: 1 });
    tracker.log_cost(&free, RequestFullOrSuffix::Full(false));
    tracker.log_cost(&free, RequestFullOrSuffix::Suff(false));
    assert_eq!(tracker.get_scr(1), Ratio { num: 0, den: 1 });
    assert_eq!(tracker.get_ind_scr(1, &free), Ratio { num: 0, den: 1 });
}

#[test]
fn individual_scr_is_suffix_over_full() {
    let (a, b) = (item("A", 10, 1), item("B", 4, 1));
    let trace: Vec<&Item> = vec![&a, &b, &a];
    let mut tracker = Tracker::new(&trace);
    tracker.log_cost(&a, RequestFullOrSuffix::Full(false));
    tracker.log_cost(&a, RequestFullOrSuffix::Suff(true));
    tracker.log_cost(&b, RequestFullOrSuffix::Full(false));
    tracker.log_cost(&b, RequestFullOrSuffix::Suff(false));
    tracker.log_cost(&a, RequestFullOrSuffix::Full(false));
    tracker.log_cost(&a, RequestFullOrSuffix::Suff(false));
    // The suffix cache paid 10 for A where the full cache paid 20: not 1.
    assert_eq!(tracker.get_ind_scr(2, &a), Ratio { num: 10, den: 20 });
    assert_eq!(tracker.get_ind_scr(1, &a), Ratio { num: 0, den: 10 });
    assert_eq!(tracker.get_ind_scr(1, &b), Ratio { num: 4, den: 4 });
    assert_eq!(tracker.get_ind_scr(0, &b), Ratio { num: 0, den: 1 });
}

#[test]
fn pressure_is_logged_on_fault_only() {
    let mut tracker = PressureTracker::new();
    assert!(tracker.full_pressures().is_empty());
    assert!(tracker.suffix_pressures().is_empty());
    tracker.log(7, RequestFullOrSuffix::Full(false));
    tracker.log(9, RequestFullOrSuffix::Full(true));
    tracker.log(3, RequestFullOrSuffix::Suff(true));
    tracker.log(5, RequestFullOrSuffix::Suff(false));
    tracker.log(0, RequestFullOrSuffix::Suff(false));
    assert_eq!(tracker.full_pressures(), &vec![7, 0]);
    assert_eq!(tracker.suffix_pressures(), &vec![0, 5, 0]);
    let (full, suffix) = tracker.into_parts();
    assert_eq!(full, vec![7, 0]);
    assert_eq!(suffix, vec![0, 5, 0]);

    let a = item("A", 1, 1);
    let trace: Vec<&Item> = vec![&a];
    let mut tracker = Tracker::new(&trace);
    tracker.log_pres(11, RequestFullOrSuffix::Full(false));
    tracker.log_pres(11, RequestFullOrSuffix::Suff(true));
    assert_eq!(tracker.full_pressures(), &vec![11]);
    assert_eq!(tracker.suff_pressures(), &vec![0]);
    assert!(tracker.full_costs().is_empty());
}

#[test]
fn summary_holds_sequences_and_one_ratio_per_item() {
    let (a, b, c) = (item("A", 10, 1), item("B", 4, 1), item("C", 6, 1));
    let trace: Vec<&Item> = vec![&a, &b, &c, &a];
    let s = Landlord::new(2, TiebreakingPolicy::Lru, HitPolicy::Lru);
    let f = Landlord::new(2, TiebreakingPolicy::Lru, HitPolicy::Lru);
    let mut tracker = Tracker::new(&trace);
    Landlord::run(&trace, 2, s, f, &mut tracker);
    let pretty = PrettyTracker::new(tracker);
    assert_eq!(pretty.full_costs(), &vec![10, 4, 6, 0]);
    assert_eq!(pretty.suff_costs(), &vec![0, 0, 6, 10]);
    assert_eq!(pretty.full_pres(), &vec![0, 0, 4 * CREDIT_SCALE, 0]);
    assert_eq!(pretty.suff_pres(), &vec![0, 0, 0, 0]);
    assert_eq!(pretty.ind_scr_len(), 3);
    let (label, ratio) = pretty.ind_scr_at(0);
    assert_eq!((label.as_str(), ratio), ("A", Ratio { num: 10, den: 10 }));
    let (label, ratio) = pretty.ind_scr_at(1);
    assert_eq!((label.as_str(), ratio), ("B", Ratio { num: 0, den: 4 }));
    let (label, ratio) = pretty.ind_scr_at(2);
    assert_eq!((label.as_str(), ratio), ("C", Ratio { num: 6, den: 6 }));
}

#[test]
fn summary_of_item_that_never_cost_the_full_cache_is_zero() {
    let free = item("free", 0, 1);
    let trace: Vec<&Item> = vec![&free, &free];
    let s = Landlord::new(1, TiebreakingPolicy::Lru, HitPolicy::Lru);
    let f = Landlord::new(1, TiebreakingPolicy::Lru, HitPolicy::Lru);
    let mut tracker = Tracker::new(&trace);
    Landlord::run(&trace, 0, s, f, &mut tracker);
    let pretty = PrettyTracker::new(tracker);
    assert_eq!(pretty.ind_scr_len(), 1);
    assert_eq!(pretty.ind_scr_at(0).1, Ratio { num: 0, den: 1 });
}
