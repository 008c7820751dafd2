use csim::cache::Cache;
use csim::credit::{charge_for, credit_of_cost, rate_is_below, CREDIT_SCALE};
use csim::prng::Prng;
use csim::tiebreak::TiebreakOrder;
use csim::{HitPolicy, Item, Landlord, RequestResult, TiebreakingPolicy};
use std::cmp::Ordering;

fn item(label: &str, cost: u32, size: u32) -> Item {
    Item::new(label.to_string(), cost, size)
}

fn name(label: &str) -> String {
    label.to_string()
}

fn names(labels: &[&str]) -> Vec<String> {
    labels.iter().map(|l| l.to_string()).collect()
}

#[test]
fn item_accessors_and_equality_by_label() {
    let a = item("A", 10, 3);
    assert_eq!(a.get_label(), "A");
    assert_eq!(a.get_cost(), 10);
    assert_eq!(a.get_size(), 3);
    let same_label = item("A", 1, 1);
    let other = item("B", 10, 3);
    assert!(a == same_label);
    assert!(a.same_as(&same_label));
    assert!(a != other);
    assert!(!a.same_as(&other));
    let copy = a.duplicate();
    assert_eq!(copy.get_label(), "A");
    assert_eq!(copy.get_cost(), 10);
    assert_eq!(copy.get_size(), 3);
}

#[test]
fn items_are_ordered_by_label() {
    let labels = ["", "A", "AB", "B", "a", "ab", "b", "\u{e9}", "e\u{301}", "\u{10348}", "z", "Z0", "Z"];
    for x in labels {
        for y in labels {
            let (ix, iy) = (item(x, 9, 1), item(y, 1, 9));
            assert_eq!(ix.partial_cmp(&iy), Some(x.cmp(y)));
            assert_eq!(ix < iy, x < y);
            assert_eq!(ix == iy, x == y);
        }
    }
    assert_eq!(item("A", 1, 1).partial_cmp(&item("AB", 1, 1)), Some(Ordering::Less));
    assert_eq!(item("B", 1, 1).partial_cmp(&item("AB", 1, 1)), Some(Ordering::Greater));
    assert_eq!(item("AB", 1, 1).partial_cmp(&item("AB", 2, 2)), Some(Ordering::Equal));
}

#[test]
fn credit_arithmetic_is_exact() {
    assert_eq!(CREDIT_SCALE, 1 << 20);
    assert_eq!(credit_of_cost(0), 0);
    assert_eq!(credit_of_cost(3), 3 * 1_048_576);
    assert_eq!(credit_of_cost(u32::MAX), 4_294_967_295u64 * 1_048_576);
    // 10 / 3 against 7 / 2.
    assert!(rate_is_below(10, 3, 7, 2));
    assert!(!rate_is_below(7, 2, 10, 3));
    assert!(!rate_is_below(2, 4, 1, 2));
    assert!(rate_is_below(0, 1, 1, u32::MAX));
    // Two units of room at the rate 10 / 3, rounded down.
    assert_eq!(charge_for(10, 3, 2, 7), 6);
    assert_eq!(charge_for(10 * CREDIT_SCALE, 3, 2, 7 * CREDIT_SCALE), 6_990_506);
    assert_eq!(charge_for(10, 3, 3, 10), 10);
    assert_eq!(charge_for(0, 5, 9, 0), 0);
    assert_eq!(charge_for(u64::MAX, u32::MAX, u32::MAX, u64::MAX), u64::MAX);
}

#[test]
fn generator_is_a_function_of_its_seed() {
    let mut rng = Prng::new(0);
    assert_eq!(rng.next(), 1442695037175000593);
    assert_eq!(rng.next(), 11166244415259155177);
    let mut one = Prng::new(1);
    assert_eq!(one.next(), 7806831265782990515);
    let mut again = Prng::new(42);
    assert_eq!(again.below(10), 7);
    let mut same = Prng::new(42);
    assert_eq!(same.next(), 10481999409208359077);
    assert_eq!(same.below(1), 0);
    for bound in 1..50u64 {
        let mut rng = Prng::new(bound);
        for _ in 0..20 {
            assert!(rng.below(bound) < bound);
        }
    }
}

#[test]
fn cache_holds_credit_by_label() {
    let mut cache = Cache::new(5);
    assert_eq!(cache.capacity(), 5);
    assert_eq!(cache.occupied(), 0);
    assert_eq!(cache.len(), 0);
    assert!(!cache.contains(&name("A")));
    cache.insert(&item("A", 10, 3), credit_of_cost(10));
    cache.insert(&item("B", 7, 2), 5);
    assert!(cache.contains(&name("A")));
    assert!(cache.contains(&name("B")));
    assert!(!cache.contains(&name("C")));
    assert_eq!(cache.occupied(), 5);
    assert_eq!(cache.len(), 2);
    assert_eq!(cache.get_credit(&name("A")), 10 * CREDIT_SCALE);
    assert_eq!(cache.get_credit(&name("B")), 5);
    assert_eq!(cache.get_cost(&name("B")), 7);
    cache.set_credit(&name("B"), 7 * CREDIT_SCALE);
    assert_eq!(cache.get_credit(&name("B")), 7 * CREDIT_SCALE);
    let pairs = cache.entries();
    assert_eq!(pairs.len(), 2);
    assert_eq!(pairs[0].0.get_label(), "A");
    assert_eq!(pairs[0].1, 10 * CREDIT_SCALE);
    assert_eq!(pairs[1].0.get_label(), "B");
    assert_eq!(pairs[1].0.get_size(), 2);
    cache.remove(&name("A"));
    assert!(!cache.contains(&name("A")));
    assert_eq!(cache.occupied(), 2);
    assert_eq!(cache.len(), 1);
}

#[test]
fn cache_decay_charges_the_lowest_rate_rounded_down() {
    let mut cache = Cache::new(5);
    cache.insert(&item("P", 10, 3), credit_of_cost(10));
    cache.insert(&item("Q", 7, 2), credit_of_cost(7));
    let (label, rate) = cache.min_normalized();
    assert_eq!(label, "P");
    assert_eq!(rate, 3_495_253);
    assert!(cache.zeros().is_empty());
    cache.decay();
    assert_eq!(cache.get_credit(&name("P")), 0);
    assert_eq!(cache.get_credit(&name("Q")), 7 * 1_048_576 - 6_990_506);
    assert_eq!(cache.zeros(), names(&["P"]));
    assert_eq!(cache.occupied(), 5);
    // Giving up the item that ran out frees its room.
    cache.remove(&name("P"));
    assert_eq!(cache.occupied(), 2);
    assert_eq!(cache.len(), 1);
}

#[test]
fn cache_decay_runs_out_every_item_at_the_lowest_rate() {
    let mut cache = Cache::new(10);
    cache.insert(&item("A", 4, 2), credit_of_cost(4));
    cache.insert(&item("B", 9, 3), credit_of_cost(9));
    cache.insert(&item("C", 2, 1), credit_of_cost(2));
    cache.insert(&item("D", 6, 3), credit_of_cost(6));
    let (label, rate) = cache.min_normalized();
    assert_eq!(label, "A");
    assert_eq!(rate, 2 * CREDIT_SCALE);
    cache.decay();
    assert_eq!(cache.zeros(), names(&["A", "C", "D"]));
    assert_eq!(cache.get_credit(&name("B")), 3 * CREDIT_SCALE);
}

#[test]
fn order_appends_for_lru_and_fifo() {
    let mut rng = Prng::new(5);
    for policy in [TiebreakingPolicy::Lru, TiebreakingPolicy::Fifo] {
        let mut order = TiebreakOrder::new();
        assert_eq!(order.len(), 0);
        order.insert_on_fault(&name("A"), policy, &mut rng);
        order.insert_on_fault(&name("B"), policy, &mut rng);
        order.insert_on_fault(&name("C"), policy, &mut rng);
        assert_eq!(order.labels(), names(&["A", "B", "C"]));
        assert!(order.contains(&name("B")));
        assert!(!order.contains(&name("D")));
        order.remove(&name("B"));
        assert_eq!(order.labels(), names(&["A", "C"]));
        assert_eq!(order.len(), 2);
    }
    // Neither policy has drawn.
    assert_eq!(rng.next(), Prng::new(5).next());
}

#[test]
fn order_touch_moves_to_back_for_lru_only() {
    let mut rng = Prng::new(0);
    let mut lru = TiebreakOrder::new();
    let mut fifo = TiebreakOrder::new();
    for label in ["A", "B", "C"] {
        lru.insert_on_fault(&name(label), TiebreakingPolicy::Lru, &mut rng);
        fifo.insert_on_fault(&name(label), TiebreakingPolicy::Fifo, &mut rng);
    }
    lru.touch_on_hit(&name("A"), TiebreakingPolicy::Lru, &mut rng);
    fifo.touch_on_hit(&name("A"), TiebreakingPolicy::Fifo, &mut rng);
    assert_eq!(lru.labels(), names(&["B", "C", "A"]));
    assert_eq!(fifo.labels(), names(&["A", "B", "C"]));
    lru.touch_on_hit(&name("A"), TiebreakingPolicy::Lru, &mut rng);
    assert_eq!(lru.labels(), names(&["B", "C", "A"]));
}

#[test]
fn order_random_insertion_covers_both_ends() {
    // Into an empty order the only index is 0.
    for seed in 0..20u64 {
        let mut rng = Prng::new(seed);
        let mut order = TiebreakOrder::new();
        order.insert_on_fault(&name("A"), TiebreakingPolicy::Rand, &mut rng);
        assert_eq!(order.labels(), names(&["A"]));
        order.insert_on_fault(&name("B"), TiebreakingPolicy::Rand, &mut rng);
        assert_eq!(order.len(), 2);
        order.touch_on_hit(&name("A"), TiebreakingPolicy::Rand, &mut rng);
        assert_eq!(order.len(), 2);
        assert!(order.contains(&name("A")));
        assert!(order.contains(&name("B")));
    }
    // Seed 0 draws 1442695037175000593, which is 2 modulo 3 and 3 modulo 4.
    let mut rng = Prng::new(0);
    let mut order = TiebreakOrder::new();
    for label in ["A", "B"] {
        order.insert_on_fault(&name(label), TiebreakingPolicy::Lru, &mut rng);
    }
    order.insert_on_fault(&name("C"), TiebreakingPolicy::Rand, &mut rng);
    assert_eq!(order.labels(), names(&["A", "B", "C"]));
    let mut rng = Prng::new(0);
    let mut order = TiebreakOrder::new();
    for label in ["A", "B", "C", "D", "E"] {
        order.insert_on_fault(&name(label), TiebreakingPolicy::Lru, &mut rng);
    }
    // 1442695037175000593 is 5 modulo 6: the far end.
    order.insert_on_fault(&name("F"), TiebreakingPolicy::Rand, &mut rng);
    assert_eq!(order.labels(), names(&["A", "B", "C", "D", "E", "F"]));
    let mut rng = Prng::new(0);
    let mut order = TiebreakOrder::new();
    for label in ["A", "B", "C"] {
        order.insert_on_fault(&name(label), TiebreakingPolicy::Lru, &mut rng);
    }
    // 1442695037175000593 is 1 modulo 4.
    order.insert_on_fault(&name("D"), TiebreakingPolicy::Rand, &mut rng);
    assert_eq!(order.labels(), names(&["A", "D", "B", "C"]));
}

#[test]
fn order_picks_first_of_the_zeros() {
    let mut rng = Prng::new(0);
    let mut order = TiebreakOrder::new();
    for label in ["A", "B", "C", "D"] {
        order.insert_on_fault(&name(label), TiebreakingPolicy::Fifo, &mut rng);
    }
    assert_eq!(order.pick(&names(&["D", "B"])), "B");
    assert_eq!(order.pick(&names(&["C"])), "C");
    assert_eq!(order.pick(&names(&["D", "C", "B", "A"])), "A");
}

#[test]
fn tiebreak_policy_decides_between_items_out_of_credit() {
    // A and B run out together when C comes: both have rate 4.
    let (a, b, c) = (item("A", 4, 1), item("B", 8, 2), item("C", 1, 1));
    let mut lru = Landlord::new(3, TiebreakingPolicy::Lru, HitPolicy::Fifo);
    let mut fifo = Landlord::new(3, TiebreakingPolicy::Fifo, HitPolicy::Fifo);
    for engine in [&mut lru, &mut fifo] {
        engine.request(&a);
        engine.request(&b);
        assert_eq!(engine.request(&a), RequestResult::Hit);
    }
    assert_eq!(lru.tiebreak_order(), names(&["B", "A"]));
    assert_eq!(fifo.tiebreak_order(), names(&["A", "B"]));
    assert_eq!(lru.request(&c), RequestResult::Fault(4 * CREDIT_SCALE));
    assert_eq!(fifo.request(&c), RequestResult::Fault(4 * CREDIT_SCALE));
    assert!(lru.contains(&name("A")) && !lru.contains(&name("B")));
    assert!(fifo.contains(&name("B")) && !fifo.contains(&name("A")));
    assert_eq!(lru.credit_of(&name("A")), Some(0));
    assert_eq!(fifo.credit_of(&name("B")), Some(0));
    assert_eq!(fifo.occupied(), 3);
    assert_eq!(lru.occupied(), 2);
}

#[test]
fn hit_policies_refresh_credit() {
    let (a, b, c) = (item("A", 10, 1), item("B", 4, 1), item("C", 6, 1));
    for (policy, expected) in [
        (HitPolicy::Lru, 10 * CREDIT_SCALE),
        (HitPolicy::Fifo, 6 * CREDIT_SCALE),
        (HitPolicy::Half, 2 * CREDIT_SCALE),
    ] {
        let mut engine = Landlord::new(2, TiebreakingPolicy::Lru, policy);
        engine.request(&a);
        engine.request(&b);
        engine.request(&c);
        assert_eq!(engine.credit_of(&name("A")), Some(6 * CREDIT_SCALE));
        assert_eq!(engine.request(&a), RequestResult::Hit);
        assert_eq!(engine.credit_of(&name("A")), Some(expected));
    }
    // Half of an odd number of units is rounded down.
    let (p, q, r) = (item("P", 1, 3), item("Q", 1, 1), item("R", 1, 1));
    let mut engine = Landlord::new(4, TiebreakingPolicy::Lru, HitPolicy::Half);
    engine.request(&p);
    engine.request(&q);
    assert_eq!(engine.request(&r), RequestResult::Fault(349_525));
    assert_eq!(engine.credit_of(&name("P")), None);
    assert_eq!(engine.credit_of(&name("Q")), Some(1_048_576 - 349_525));
    assert_eq!(engine.request(&q), RequestResult::Hit);
    assert_eq!(engine.credit_of(&name("Q")), Some(174_762));
}

#[test]
fn random_refresh_stays_between_old_credit_and_cost() {
    let (a, b, c) = (item("A", 10, 1), item("B", 4, 1), item("C", 6, 1));
    for seed in 0..50u64 {
        let mut engine = Landlord::with_seed(2, TiebreakingPolicy::Lru, HitPolicy::Rand, seed);
        engine.request(&a);
        // The credit is the whole cost: it stays, and nothing is drawn.
        assert_eq!(engine.request(&a), RequestResult::Hit);
        assert_eq!(engine.credit_of(&name("A")), Some(10 * CREDIT_SCALE));
        engine.request(&b);
        engine.request(&c);
        assert_eq!(engine.credit_of(&name("A")), Some(6 * CREDIT_SCALE));
        engine.request(&a);
        let credit = engine.credit_of(&name("A")).unwrap();
        assert!(6 * CREDIT_SCALE <= credit && credit < 10 * CREDIT_SCALE);
        let drawn = Prng::new(seed).next();
        assert_eq!(credit, 6 * CREDIT_SCALE + drawn % (4 * CREDIT_SCALE));
    }
}

#[test]
fn new_engine_is_empty() {
    let engine = Landlord::new(7, TiebreakingPolicy::Rand, HitPolicy::Rand);
    assert_eq!(engine.capacity(), 7);
    assert_eq!(engine.occupied(), 0);
    assert!(engine.cached().is_empty());
    assert!(engine.tiebreak_order().is_empty());
    assert_eq!(engine.credit_of(&name("A")), None);
}

#[test]
fn seed_decides_random_choices() {
    let mut orders: Vec<Vec<String>> = Vec::new();
    let mut credits: Vec<u64> = Vec::new();
    for seed in 0..32u64 {
        let mut engine = Landlord::with_seed(4, TiebreakingPolicy::Rand, HitPolicy::Rand, seed);
        for label in ["A", "B", "C", "D"] {
            engine.request(&item(label, 8, 1));
        }
        engine.request(&item("E", 8, 1));
        let left = engine.cached()[0].0.get_label().clone();
        engine.request(&item(&left, 8, 1));
        let order = engine.tiebreak_order();
        assert_eq!(order.len(), 4);
        if !orders.contains(&order) {
            orders.push(order);
        }
        let credit = engine.credit_of(&left).unwrap();
        if !credits.contains(&credit) {
            credits.push(credit);
        }
    }
    assert!(orders.len() > 1);
    assert!(credits.len() > 1);
}
