//! The Landlord replacement engine.

use vstd::prelude::*;
use crate::cache::Cache;
use crate::credit::credit_of_cost;
use crate::item::{Item, ItemView};
use crate::labels::{position, spelled, lemma_position};
use crate::model::{
    Eviction, LandlordView, RequestResult, can_refund, credit_limit, engine_wf, evict, evict_one,
    evicted_for, hits, on_fault, on_hit, outcome, refreshed, rng_after_refresh, step, lemma_evict,
    lemma_evict_one, lemma_refreshed, lemma_step_keeps_engine_wf,
};
use crate::policy::{HitPolicy, TiebreakingPolicy};
use crate::prng::Prng;
use crate::slots::{
    credit_of, decay, labels_of, total_size, zero_labels, lemma_decay, lemma_len_within_total,
    lemma_size_within_total,
};
use crate::tiebreak::{TiebreakOrder, picked};

verus! {

/// A cache run by the Landlord policy: every cached item holds credit, a
/// fault that finds no room makes every item pay in proportion to its size,
/// and an item that has run out of credit leaves.
pub struct Landlord {
    cache: Cache,
    order: TiebreakOrder,
    tiebreak: TiebreakingPolicy,
    hit: HitPolicy,
    rng: Prng,
}

impl View for Landlord {
    type V = LandlordView;

    closed spec fn view(&self) -> LandlordView {
        LandlordView {
            capacity: self.cache@.capacity,
            slots: self.cache@.slots,
            order: self.order@,
            tiebreak: self.tiebreak,
            hit: self.hit,
            rng: self.rng@,
        }
    }
}

impl Landlord {
    /// The cache's own bookkeeping agrees with its contents.
    pub closed spec fn accounted(&self) -> bool {
        self.cache.accounted()
    }

    /// The engine's invariant: see [`engine_wf`].
    pub open spec fn wf(&self) -> bool {
        &&& self.accounted()
        &&& engine_wf(self@)
    }

    /// An empty cache of the given capacity. Its generator starts from seed 0.
    pub fn new(capacity: u32, tiebreak_policy: TiebreakingPolicy, hit_policy: HitPolicy) -> (engine:
        Landlord)
        ensures
            engine.wf(),
            engine@ == (LandlordView {
                capacity,
                slots: Seq::empty(),
                order: Seq::empty(),
                tiebreak: tiebreak_policy,
                hit: hit_policy,
                rng: 0,
            }),
    {
        Landlord::with_seed(capacity, tiebreak_policy, hit_policy, 0)
    }

    /// An empty cache of the given capacity whose random policies draw from
    /// a generator started at `seed`.
    pub fn with_seed(
        capacity: u32,
        tiebreak_policy: TiebreakingPolicy,
        hit_policy: HitPolicy,
        seed: u64,
    ) -> (engine: Landlord)
        ensures
            engine.wf(),
            engine@ == (LandlordView {
                capacity,
                slots: Seq::empty(),
                order: Seq::empty(),
                tiebreak: tiebreak_policy,
                hit: hit_policy,
                rng: seed,
            }),
    {
        let engine = Landlord {
            cache: Cache::new(capacity),
            order: TiebreakOrder::new(),
            tiebreak: tiebreak_policy,
            hit: hit_policy,
            rng: Prng::new(seed),
        };
        assert(engine@.order.to_set() =~= labels_of(engine@.slots).to_set());
        engine
    }

    pub fn capacity(&self) -> (capacity: u32)
        ensures
            capacity == self@.capacity,
    {
        self.cache.capacity()
    }

    /// The room taken by the cached items.
    pub fn occupied(&self) -> (occupied: u32)
        requires
            self.wf(),
        ensures
            occupied == total_size(self@.slots),
            occupied <= self@.capacity,
    {
        self.cache.occupied()
    }

    /// Whether an item with this label is cached.
    pub fn contains(&self, label: &String) -> (held: bool)
        ensures
            held == labels_of(self@.slots).contains(label@),
    {
        self.cache.contains(label)
    }

    /// The credit of the cached item with this label, if there is one.
    pub fn credit_of(&self, label: &String) -> (credit: Option<u64>)
        ensures
            credit is Some <==> labels_of(self@.slots).contains(label@),
            credit matches Some(c) ==> c == credit_of(self@.slots, label@),
    {
        if self.cache.contains(label) {
            Some(self.cache.get_credit(label))
        } else {
            None
        }
    }

    /// The cached items with their credits, in the order in which they came in.
    pub fn cached(&self) -> (pairs: Vec<(Item, u64)>)
        ensures
            pairs.len() == self@.slots.len(),
            forall|i: int|
                0 <= i < pairs.len() ==> {
                    &&& (#[trigger] pairs[i]).0@.label == self@.slots[i].label
                    &&& pairs[i].0@.cost == self@.slots[i].cost
                    &&& pairs[i].0@.size == self@.slots[i].size
                    &&& pairs[i].1 == self@.slots[i].credit
                },
    {
        self.cache.entries()
    }

    /// The labels of the cached items in tiebreak order: the first is the
    /// first to be given up among items that are out of credit.
    pub fn tiebreak_order(&self) -> (labels: Vec<String>)
        ensures
            spelled(labels@) == self@.order,
    {
        self.order.labels()
    }

    /// Serves a request that hits: refreshes the item's credit under the hit
    /// policy and records the hit in the tiebreak order.
    fn hit(&mut self, label: &String)
        requires
            old(self).wf(),
            labels_of(old(self)@.slots).contains(label@),
        ensures
            final(self).wf(),
            final(self)@ == on_hit(old(self)@, label@),
    {
        let ghost before = self@;
        let ghost slot = before.slots[position(labels_of(before.slots), label@)];
        proof {
            lemma_position(labels_of(before.slots), label@);
            lemma_refreshed(self.hit, slot.cost, slot.credit, self.rng@);
            assert(before.order.to_set().contains(label@));
        }
        let left: u64 = self.cache.get_credit(label);
        let whole: u64 = credit_of_cost(self.cache.get_cost(label));
        let credit: u64 = match self.hit {
            HitPolicy::Lru => whole,
            HitPolicy::Fifo => left,
            HitPolicy::Rand => if left < whole {
                let extra: u64 = self.rng.below(whole - left);
                left + extra
            } else {
                whole
            },
            HitPolicy::Half => (whole - left) / 2,
        };
        assert(credit == refreshed(before.hit, slot.cost, slot.credit, before.rng));
        assert(self.rng@ == rng_after_refresh(before.hit, slot.cost, slot.credit, before.rng));
        self.cache.set_credit(label, credit);
        self.order.touch_on_hit(label, self.tiebreak, &mut self.rng);
        proof {
            let item = ItemView { label: label@, cost: slot.cost, size: slot.size };
            lemma_size_within_total(before.slots, position(labels_of(before.slots), label@));
            lemma_step_keeps_engine_wf(before, item);
        }
    }

    /// Makes room for `needed` units by evicting, and returns the pressure
    /// charged on the way.
    fn evict(&mut self, needed: u32) -> (pressure: u64)
        requires
            old(self).wf(),
            needed <= old(self)@.capacity,
        ensures
            final(self).wf(),
            final(self)@ == (LandlordView {
                slots: evict(
                    old(self)@.slots,
                    old(self)@.order,
                    old(self)@.capacity,
                    needed,
                    old(self)@.slots.len(),
                ).slots,
                order: evict(
                    old(self)@.slots,
                    old(self)@.order,
                    old(self)@.capacity,
                    needed,
                    old(self)@.slots.len(),
                ).order,
                ..old(self)@
            }),
            pressure == evict(
                old(self)@.slots,
                old(self)@.order,
                old(self)@.capacity,
                needed,
                old(self)@.slots.len(),
            ).pressure,
            total_size(final(self)@.slots) + needed <= final(self)@.capacity,
    {
        let ghost start = self@;
        let ghost goal = evict(start.slots, start.order, start.capacity, needed, start.slots.len());
        let mut pressure: u64 = 0;
        while self.cache.capacity() - self.cache.occupied() < needed
            invariant
                self.wf(),
                self@.capacity == start.capacity,
                self@.tiebreak == start.tiebreak,
                self@.hit == start.hit,
                self@.rng == start.rng,
                needed <= start.capacity,
                can_refund(self@.slots, pressure as nat),
                pressure <= credit_limit(),
                goal == (Eviction {
                    pressure: pressure as nat + evict(
                        self@.slots,
                        self@.order,
                        start.capacity,
                        needed,
                        self@.slots.len(),
                    ).pressure,
                    ..evict(self@.slots, self@.order, start.capacity, needed, self@.slots.len())
                }),
            decreases self@.slots.len(),
        {
            let ghost slots = self@.slots;
            let ghost order = self@.order;
            proof {
                if slots.len() == 0 {
                    assert(total_size(slots) == 0);
                }
                lemma_evict_one(slots, order, start.capacity, pressure as nat);
                lemma_decay(slots);
            }
            let rate: u64 = self.cache.min_normalized().1;
            self.cache.decay();
            let zeros: Vec<String> = self.cache.zeros();
            proof {
                let among = zero_labels(decay(slots));
                let victim = picked(order, among);
                assert(spelled(zeros@).to_set().contains(victim));
                assert(spelled(zeros@).contains(victim));
                assert forall|l: Seq<char>| among.contains(l) implies order.to_set().contains(l) by {
                    let i = choose|i: int|
                        0 <= i < decay(slots).len() && (#[trigger] decay(slots)[i]).label == l && decay(
                            slots,
                        )[i].credit == 0;
                    assert(labels_of(decay(slots))[i] == l);
                    assert(labels_of(slots).to_set().contains(l));
                }
            }
            let victim: String = self.order.pick(&zeros);
            self.cache.remove(&victim);
            self.order.remove(&victim);
            pressure = pressure + rate;
            proof {
                let one = evict_one(slots, order);
                assert(self@.slots == one.slots);
                assert(self@.order == one.order);
                assert(rate == one.pressure);
            }
        }
        pressure
    }

    /// Serves a request that faults: makes room, then takes the item in with
    /// its whole cost as credit. Returns the pressure of making room.
    fn fault(&mut self, item: &Item) -> (pressure: u64)
        requires
            old(self).wf(),
            item@.fits(old(self)@.capacity),
            !hits(old(self)@, item@),
        ensures
            final(self).wf(),
            final(self)@ == on_fault(old(self)@, item@),
            pressure == evicted_for(old(self)@, item@).pressure,
    {
        let ghost before = self@;
        proof {
            lemma_evict(before.slots, before.order, before.capacity, item@.size, before.slots.len(), 0);
            lemma_step_keeps_engine_wf(before, item@);
        }
        let pressure: u64 = self.evict(item.get_size());
        proof {
            let made = evicted_for(before, item@);
            if labels_of(made.slots).contains(item@.label) {
                assert(labels_of(made.slots).to_set().contains(item@.label));
                assert(labels_of(before.slots).to_set().contains(item@.label));
            }
            if made.order.contains(item@.label) {
                assert(made.order.to_set().contains(item@.label));
            }
            lemma_len_within_total(made.slots);
        }
        self.cache.insert(item, credit_of_cost(item.get_cost()));
        self.order.insert_on_fault(item.get_label(), self.tiebreak, &mut self.rng);
        pressure
    }

    /// Serves one request.
    ///
    /// A request for a cached item is a hit: the item's credit is refreshed
    /// under the hit policy and the tiebreak order is told. Any other request
    /// is a fault: items are evicted until the requested one fits, and it
    /// comes in with its whole cost as credit; the result carries the
    /// pressure, the sum of the rates charged by the evictions.
    pub fn request(&mut self, item: &Item) -> (result: RequestResult)
        requires
            old(self).wf(),
            item@.fits(old(self)@.capacity),
        ensures
            final(self).wf(),
            final(self)@ == step(old(self)@, item@),
            final(self)@.capacity == old(self)@.capacity,
            result == outcome(old(self)@, item@),
            result is Hit <==> labels_of(old(self)@.slots).contains(item@.label),
            labels_of(final(self)@.slots).contains(item@.label),
    {
        proof {
            lemma_step_keeps_engine_wf(self@, item@);
        }
        if self.cache.contains(item.get_label()) {
            self.hit(item.get_label());
            RequestResult::Hit
        } else {
            let pressure: u64 = self.fault(item);
            RequestResult::Fault(pressure)
        }
    }
}

} // verus!
