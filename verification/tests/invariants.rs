use csim::credit::CREDIT_SCALE;
use csim::logger::Tracker;
use csim::{HitPolicy, Item, Landlord, RequestResult, TiebreakingPolicy};

fn table() -> Vec<Item> {
    vec![
        Item::new("a".to_string(), 10, 1),
        Item::new("b".to_string(), 4, 2),
        Item::new("c".to_string(), 6, 3),
        Item::new("d".to_string(), 2, 1),
        Item::new("e".to_string(), 9, 4),
        Item::new("f".to_string(), 0, 2),
    ]
}

fn pattern() -> Vec<usize> {
    vec![0, 1, 2, 3, 0, 4, 1, 5, 2, 0, 3, 3, 4, 5, 1, 0, 2, 4, 0, 5, 1, 3]
}

fn check_engine(engine: &Landlord, capacity: u32) {
    assert!(engine.occupied() <= capacity);
    let cached = engine.cached();
    let mut room: u32 = 0;
    for (item, credit) in cached.iter() {
        assert!(*credit <= item.get_cost() as u64 * CREDIT_SCALE);
        room += item.get_size();
    }
    assert_eq!(room, engine.occupied());
    let mut in_cache: Vec<String> = cached.iter().map(|(item, _)| item.get_label().clone()).collect();
    let mut in_order: Vec<String> = engine.tiebreak_order();
    in_cache.sort();
    in_order.sort();
    assert_eq!(in_cache, in_order);
}

#[test]
fn engine_keeps_capacity_credit_bounds_and_order() {
    let items = table();
    let hits = [HitPolicy::Lru, HitPolicy::Fifo, HitPolicy::Rand, HitPolicy::Half];
    let ties = [TiebreakingPolicy::Lru, TiebreakingPolicy::Fifo, TiebreakingPolicy::Rand];
    for hit in hits {
        for tie in ties {
            let mut engine = Landlord::with_seed(5, tie, hit, 3);
            for &k in pattern().iter() {
                let was_cached = engine.contains(items[k].get_label());
                let result = engine.request(&items[k]);
                assert_eq!(result == RequestResult::Hit, was_cached);
                assert!(engine.contains(items[k].get_label()));
                check_engine(&engine, 5);
            }
        }
    }
}

#[test]
fn tracker_sequences_grow_by_one_per_request() {
    let items = table();
    let requests: Vec<&Item> = pattern().iter().map(|&k| &items[k]).collect();
    for n in 0..requests.len() {
        let prefix: Vec<&Item> = requests[..n].to_vec();
        let s = Landlord::new(5, TiebreakingPolicy::Lru, HitPolicy::Lru);
        let f = Landlord::new(5, TiebreakingPolicy::Lru, HitPolicy::Lru);
        let mut tracker = Tracker::new(&prefix);
        Landlord::run(&prefix, 4, s, f, &mut tracker);
        assert_eq!(tracker.full_costs().len(), n);
        assert_eq!(tracker.suff_costs().len(), n);
        assert_eq!(tracker.full_pressures().len(), n);
        assert_eq!(tracker.suff_pressures().len(), n);
    }
}

#[test]
fn nothing_is_charged_to_the_suffix_cache_before_its_start() {
    let items = table();
    let requests: Vec<&Item> = pattern().iter().map(|&k| &items[k]).collect();
    for div in [0u32, 1, 5, 22, 40] {
        let s = Landlord::new(5, TiebreakingPolicy::Fifo, HitPolicy::Half);
        let f = Landlord::new(5, TiebreakingPolicy::Fifo, HitPolicy::Half);
        let mut tracker = Tracker::new(&requests);
        let (suffix, _) = Landlord::run(&requests, div, s, f, &mut tracker);
        for i in 0..requests.len() {
            if (i as u32) < div {
                assert_eq!(tracker.get_suff_cost(i as u32), 0);
                assert_eq!(tracker.suff_pressures()[i], 0);
            }
        }
        if div as usize >= requests.len() {
            assert_eq!(suffix.cached().len(), 0);
        }
    }
}

#[test]
fn cost_is_zero_exactly_on_a_hit() {
    let items = table();
    let requests: Vec<&Item> = pattern().iter().map(|&k| &items[k]).collect();
    let div = 6usize;
    let s = Landlord::new(5, TiebreakingPolicy::Lru, HitPolicy::Lru);
    let f = Landlord::new(5, TiebreakingPolicy::Lru, HitPolicy::Lru);
    let mut tracker = Tracker::new(&requests);
    Landlord::run(&requests, div as u32, s, f, &mut tracker);

    let mut full = Landlord::new(5, TiebreakingPolicy::Lru, HitPolicy::Lru);
    let mut suffix = Landlord::new(5, TiebreakingPolicy::Lru, HitPolicy::Lru);
    for (i, item) in requests.iter().enumerate() {
        let full_result = full.request(item);
        if item.get_cost() > 0 {
            assert_eq!(tracker.get_full_cost(i as u32) == 0, full_result == RequestResult::Hit);
        }
        match full_result {
            RequestResult::Hit => assert_eq!(tracker.full_pressures()[i], 0),
            RequestResult::Fault(p) => {
                assert_eq!(tracker.get_full_cost(i as u32), item.get_cost());
                assert_eq!(tracker.full_pressures()[i], p);
            }
        }
        if i >= div {
            let suff_result = suffix.request(item);
            if item.get_cost() > 0 {
                assert_eq!(tracker.get_suff_cost(i as u32) == 0, suff_result == RequestResult::Hit);
            }
            match suff_result {
                RequestResult::Hit => assert_eq!(tracker.suff_pressures()[i], 0),
                RequestResult::Fault(p) => assert_eq!(tracker.suff_pressures()[i], p),
            }
        }
    }
}

#[test]
fn fault_on_item_without_cost_is_logged_as_zero() {
    let free = Item::new("free".to_string(), 0, 1);
    let requests: Vec<&Item> = vec![&free];
    let s = Landlord::new(1, TiebreakingPolicy::Lru, HitPolicy::Lru);
    let f = Landlord::new(1, TiebreakingPolicy::Lru, HitPolicy::Lru);
    let mut tracker = Tracker::new(&requests);
    Landlord::run(&requests, 0, s, f, &mut tracker);
    assert_eq!(tracker.full_costs(), &vec![0]);
    let mut engine = Landlord::new(1, TiebreakingPolicy::Lru, HitPolicy::Lru);
    assert_eq!(engine.request(&free), RequestResult::Fault(0));
}

#[test]
fn pressure_is_at_most_the_cost_of_an_evicted_item() {
    let items = table();
    let mut engine = Landlord::new(5, TiebreakingPolicy::Lru, HitPolicy::Lru);
    for &k in pattern().iter() {
        if let RequestResult::Fault(p) = engine.request(&items[k]) {
            assert!(p <= 10 * CREDIT_SCALE);
        }
    }
}

#[test]
fn eviction_cascade_frees_room_item_by_item() {
    let small: Vec<Item> = (0..4).map(|i| Item::new(format!("s{}", i), 3 + i, 1)).collect();
    let big = Item::new("big".to_string(), 50, 4);
    let mut engine = Landlord::new(4, TiebreakingPolicy::Fifo, HitPolicy::Fifo);
    for item in small.iter() {
        engine.request(item);
    }
    assert_eq!(engine.occupied(), 4);
    // Rates charged in turn: 3, then 4 - 3, then 5 - 4, then 6 - 5.
    assert_eq!(engine.request(&big), RequestResult::Fault(6 * CREDIT_SCALE));
    assert_eq!(engine.cached().len(), 1);
    assert_eq!(engine.occupied(), 4);
    assert_eq!(engine.credit_of(&"big".to_string()), Some(50 * CREDIT_SCALE));
}
