use csim::cost::Ratio;
use csim::credit::CREDIT_SCALE;
use csim::logger::Tracker;
use csim::{HitPolicy, Item, Landlord, RequestResult, TiebreakingPolicy};

fn item(label: &str, cost: u32, size: u32) -> Item {
    Item::new(label.to_string(), cost, size)
}

fn units(cost: u64) -> u64 {
    cost * CREDIT_SCALE
}

fn as_f32(r: Ratio) -> f32 {
    r.num as f32 / r.den as f32
}

fn credit(engine: &Landlord, label: &str) -> Option<u64> {
    engine.credit_of(&label.to_string())
}

struct Run {
    tracker: Tracker,
    full: Landlord,
    suffix: Landlord,
}

fn run(trace: &[&Item], capacity: u32, div: u32, hit: HitPolicy, tiebreak: TiebreakingPolicy, seed: u64) -> Run {
    let requests: Vec<&Item> = trace.to_vec();
    let s = Landlord::with_seed(capacity, tiebreak, hit, seed);
    let f = Landlord::with_seed(capacity, tiebreak, hit, seed);
    let mut tracker = Tracker::new(&requests);
    let (suffix, full) = Landlord::run(&requests, div, s, f, &mut tracker);
    Run { tracker, full, suffix }
}

#[test]
fn hit_on_cached_item_costs_nothing() {
    let (a, b) = (item("A", 10, 1), item("B", 4, 1));
    let mut engine = Landlord::new(2, TiebreakingPolicy::Lru, HitPolicy::Lru);
    assert_eq!(engine.request(&a), RequestResult::Fault(0));
    assert_eq!(credit(&engine, "A"), Some(units(10)));
    assert_eq!(engine.cached().len(), 1);
    assert_eq!(engine.request(&b), RequestResult::Fault(0));
    assert_eq!(credit(&engine, "A"), Some(units(10)));
    assert_eq!(credit(&engine, "B"), Some(units(4)));
    assert_eq!(engine.request(&a), RequestResult::Hit);
    assert_eq!(credit(&engine, "A"), Some(units(10)));
    assert_eq!(credit(&engine, "B"), Some(units(4)));

    let r = run(&[&a, &b, &a], 2, 0, HitPolicy::Lru, TiebreakingPolicy::Lru, 0);
    assert_eq!(r.tracker.full_costs(), &vec![10, 4, 0]);
    assert_eq!(r.tracker.full_pressures(), &vec![0, 0, 0]);
    assert_eq!(r.tracker.suff_costs(), &vec![10, 4, 0]);
    assert_eq!(r.tracker.suff_pressures(), &vec![0, 0, 0]);
    assert_eq!(r.tracker.get_scr(3), Ratio { num: 14, den: 14 });
    assert_eq!(as_f32(r.tracker.get_scr(3)), 1.0);
}

#[test]
fn fault_on_full_cache_evicts_lowest_credit() {
    let (a, b, c) = (item("A", 10, 1), item("B", 4, 1), item("C", 6, 1));
    let mut engine = Landlord::new(2, TiebreakingPolicy::Lru, HitPolicy::Lru);
    engine.request(&a);
    engine.request(&b);
    assert_eq!(engine.request(&c), RequestResult::Fault(units(4)));
    assert_eq!(credit(&engine, "A"), Some(units(6)));
    assert_eq!(credit(&engine, "B"), None);
    assert_eq!(credit(&engine, "C"), Some(units(6)));
    assert_eq!(engine.occupied(), 2);

    let r = run(&[&a, &b, &c], 2, 0, HitPolicy::Lru, TiebreakingPolicy::Lru, 0);
    assert_eq!(r.tracker.full_costs(), &vec![10, 4, 6]);
    assert_eq!(r.tracker.full_pressures(), &vec![0, 0, units(4)]);
    assert_eq!(credit(&r.full, "A"), Some(units(6)));
    assert_eq!(credit(&r.full, "C"), Some(units(6)));
    assert_eq!(r.full.cached().len(), 2);
}

#[test]
fn suffix_cache_starts_at_suffix_start() {
    let (a, b, c) = (item("A", 10, 1), item("B", 4, 1), item("C", 6, 1));
    let r = run(&[&a, &b, &c, &a], 2, 2, HitPolicy::Lru, TiebreakingPolicy::Lru, 0);
    assert_eq!(r.tracker.full_costs(), &vec![10, 4, 6, 0]);
    assert_eq!(r.tracker.full_pressures(), &vec![0, 0, units(4), 0]);
    assert_eq!(r.tracker.suff_costs(), &vec![0, 0, 6, 10]);
    assert_eq!(r.tracker.suff_pressures(), &vec![0, 0, 0, 0]);
    assert_eq!(r.tracker.get_scr(4), Ratio { num: 16, den: 20 });
    assert_eq!(as_f32(r.tracker.get_scr(4)), 0.8);
    assert_eq!(credit(&r.suffix, "C"), Some(units(6)));
    assert_eq!(credit(&r.suffix, "A"), Some(units(10)));
    assert_eq!(r.suffix.cached().len(), 2);
}

#[test]
fn half_policy_sets_credit_to_half_of_what_was_used() {
    let (a, b, c) = (item("A", 10, 1), item("B", 4, 1), item("C", 6, 1));
    let mut engine = Landlord::new(2, TiebreakingPolicy::Lru, HitPolicy::Half);
    engine.request(&a);
    engine.request(&b);
    assert_eq!(engine.request(&a), RequestResult::Hit);
    assert_eq!(credit(&engine, "A"), Some(0));
    assert_eq!(engine.request(&c), RequestResult::Fault(0));
    assert_eq!(credit(&engine, "A"), None);

    let r = run(&[&a, &b, &a, &c], 2, 0, HitPolicy::Half, TiebreakingPolicy::Lru, 0);
    assert_eq!(r.tracker.full_costs(), &vec![10, 4, 0, 6]);
    assert_eq!(r.tracker.full_pressures(), &vec![0, 0, 0, 0]);
    assert_eq!(credit(&r.full, "B"), Some(units(4)));
    assert_eq!(credit(&r.full, "C"), Some(units(6)));
    assert_eq!(r.full.cached().len(), 2);
}

#[test]
fn item_of_size_two_evicts_for_its_whole_size() {
    let (x, y) = (item("X", 6, 2), item("Y", 4, 1));
    let mut engine = Landlord::new(2, TiebreakingPolicy::Lru, HitPolicy::Lru);
    assert_eq!(engine.request(&y), RequestResult::Fault(0));
    assert_eq!(engine.occupied(), 1);
    assert_eq!(engine.request(&x), RequestResult::Fault(units(4)));
    assert_eq!(engine.occupied(), 2);

    let r = run(&[&y, &x], 2, 0, HitPolicy::Lru, TiebreakingPolicy::Lru, 0);
    assert_eq!(r.tracker.full_costs(), &vec![4, 6]);
    assert_eq!(r.tracker.full_pressures(), &vec![0, units(4)]);
    assert_eq!(credit(&r.full, "X"), Some(units(6)));
    assert_eq!(credit(&r.full, "Y"), None);
    assert_eq!(r.full.cached().len(), 1);
}

#[test]
fn random_policies_repeat_under_one_seed() {
    let (a, b, c) = (item("A", 10, 1), item("B", 4, 1), item("C", 6, 1));
    let trace = [&a, &b, &c, &a, &b, &c, &a, &b, &c];
    for seed in [0u64, 1, 7, 0xdead_beef] {
        let first = run(&trace, 2, 0, HitPolicy::Rand, TiebreakingPolicy::Rand, seed);
        let second = run(&trace, 2, 0, HitPolicy::Rand, TiebreakingPolicy::Rand, seed);
        assert_eq!(first.tracker.full_costs(), second.tracker.full_costs());
        assert_eq!(first.tracker.suff_costs(), second.tracker.suff_costs());
        assert_eq!(first.tracker.full_pressures(), second.tracker.full_pressures());
        assert_eq!(first.tracker.suff_pressures(), second.tracker.suff_pressures());
        assert_eq!(first.full.tiebreak_order(), second.full.tiebreak_order());
        assert_eq!(first.tracker.full_costs().len(), 9);
    }
}

#[test]
fn every_policy_pair_repeats() {
    let (a, b, c, d) = (item("A", 10, 1), item("B", 4, 2), item("C", 6, 1), item("D", 2, 3));
    let trace = [&a, &b, &c, &d, &a, &c, &b, &a, &d, &d, &c];
    let hits = [HitPolicy::Lru, HitPolicy::Fifo, HitPolicy::Rand, HitPolicy::Half];
    let ties = [TiebreakingPolicy::Lru, TiebreakingPolicy::Fifo, TiebreakingPolicy::Rand];
    for hit in hits {
        for tie in ties {
            let first = run(&trace, 4, 3, hit, tie, 99);
            let second = run(&trace, 4, 3, hit, tie, 99);
            assert_eq!(first.tracker.full_costs(), second.tracker.full_costs());
            assert_eq!(first.tracker.suff_costs(), second.tracker.suff_costs());
            assert_eq!(first.tracker.full_pressures(), second.tracker.full_pressures());
            assert_eq!(first.tracker.suff_pressures(), second.tracker.suff_pressures());
        }
    }
}
