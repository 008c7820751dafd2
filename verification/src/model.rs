//! The Landlord policy as a function from the state of an engine and a
//! requested item to the next state and the outcome of the request.

use vstd::prelude::*;
use crate::credit::{CREDIT_SCALE, charge, full_credit};
use crate::item::ItemView;
use crate::labels::{distinct, position, lemma_first_in, lemma_position};
use crate::policy::{HitPolicy, TiebreakingPolicy};
use crate::prng::{after_draw, drawn};
use crate::slots::{
    Slot, decay, labels_of, lowest, lowest_rate, slots_wf, total_size, with_credit, without,
    zero_labels, lemma_decay, lemma_lowest, lemma_push, lemma_with_credit, lemma_without,
};
use crate::tiebreak::{
    picked, placed, rng_after_update, touched, lemma_distinct_remove, lemma_placed, lemma_touched,
};

verus! {

/// The outcome of a request: a hit, or a fault with the pressure that making
/// room for the item has put on the cache, in credit units.
#[derive(Clone, Copy, Debug, PartialEq, Eq, Structural)]
pub enum RequestResult {
    Hit,
    Fault(u64),
}

/// The state of an engine.
pub struct LandlordView {
    pub capacity: u32,
    pub slots: Seq<Slot>,
    pub order: Seq<Seq<char>>,
    pub tiebreak: TiebreakingPolicy,
    pub hit: HitPolicy,
    pub rng: u64,
}

/// No credit, and so no pressure, exceeds the greatest cost there is.
pub open spec fn credit_limit() -> nat {
    0xffff_ffff * CREDIT_SCALE as nat
}

/// What holds of an engine between requests: the cached items fit the
/// capacity, every credit lies between zero and the item's cost, and the
/// tiebreak order holds exactly the cached items, each once.
pub open spec fn engine_wf(v: LandlordView) -> bool {
    &&& slots_wf(v.slots, v.capacity)
    &&& coupled(v.slots, v.order)
}

/// The tiebreak order holds exactly the cached items, each once.
pub open spec fn coupled(slots: Seq<Slot>, order: Seq<Seq<char>>) -> bool {
    &&& distinct(order)
    &&& order.len() == slots.len()
    &&& order.to_set() == labels_of(slots).to_set()
}

/// The credit of an item after a request has hit it.
pub open spec fn refreshed(policy: HitPolicy, cost: u32, credit: nat, rng: u64) -> nat {
    match policy {
        HitPolicy::Lru => full_credit(cost),
        HitPolicy::Fifo => credit,
        HitPolicy::Rand => if credit < full_credit(cost) {
            credit + drawn(rng) as nat % ((full_credit(cost) - credit) as nat)
        } else {
            full_credit(cost)
        },
        HitPolicy::Half => ((full_credit(cost) - credit) / 2) as nat,
    }
}

/// The generator after a credit has been refreshed: only the random policy
/// draws, once, and only where there is a range to draw from.
pub open spec fn rng_after_refresh(policy: HitPolicy, cost: u32, credit: nat, rng: u64) -> u64 {
    if policy == HitPolicy::Rand && credit < full_credit(cost) {
        after_draw(rng)
    } else {
        rng
    }
}

/// The state after a request has hit the cached item `label`.
pub open spec fn on_hit(v: LandlordView, label: Seq<char>) -> LandlordView {
    let slot = v.slots[position(labels_of(v.slots), label)];
    let rng = rng_after_refresh(v.hit, slot.cost, slot.credit, v.rng);
    LandlordView {
        slots: with_credit(v.slots, label, refreshed(v.hit, slot.cost, slot.credit, v.rng)),
        order: touched(v.order, label, v.tiebreak, rng),
        rng: rng_after_update(v.tiebreak, rng),
        ..v
    }
}

/// Slots and tiebreak order after some evictions, and the pressure charged.
pub struct Eviction {
    pub slots: Seq<Slot>,
    pub order: Seq<Seq<char>>,
    pub pressure: nat,
}

/// One eviction: a round of decay, after which the first item in the
/// tiebreak order that is out of credit leaves the cache and the order. The
/// pressure is the rate charged in that round.
pub open spec fn evict_one(slots: Seq<Slot>, order: Seq<Seq<char>>) -> Eviction {
    let victim = picked(order, zero_labels(decay(slots)));
    Eviction {
        slots: without(decay(slots), victim),
        order: order.remove(position(order, victim)),
        pressure: lowest_rate(slots),
    }
}

/// Evictions, one after the other, until `needed` units of room are free. At
/// most `rounds` of them are made; as many as there are slots always suffice.
pub open spec fn evict(
    slots: Seq<Slot>,
    order: Seq<Seq<char>>,
    capacity: u32,
    needed: u32,
    rounds: nat,
) -> Eviction
    decreases rounds,
{
    if rounds == 0 || total_size(slots) + needed <= capacity {
        Eviction { slots, order, pressure: 0 }
    } else {
        let one = evict_one(slots, order);
        let rest = evict(one.slots, one.order, capacity, needed, (rounds - 1) as nat);
        Eviction { pressure: one.pressure + rest.pressure, ..rest }
    }
}

/// The slot of an item that has just been fetched.
pub open spec fn fresh(item: ItemView) -> Slot {
    Slot { label: item.label, cost: item.cost, size: item.size, credit: full_credit(item.cost) }
}

/// The evictions that a fault on `item` sets off.
pub open spec fn evicted_for(v: LandlordView, item: ItemView) -> Eviction {
    evict(v.slots, v.order, v.capacity, item.size, v.slots.len())
}

/// The state after a fault on `item`: room is made, then the item comes in
/// with its whole cost as credit.
pub open spec fn on_fault(v: LandlordView, item: ItemView) -> LandlordView {
    let made = evicted_for(v, item);
    LandlordView {
        slots: made.slots.push(fresh(item)),
        order: placed(made.order, item.label, v.tiebreak, v.rng),
        rng: rng_after_update(v.tiebreak, v.rng),
        ..v
    }
}

/// Whether a request for `item` hits.
pub open spec fn hits(v: LandlordView, item: ItemView) -> bool {
    labels_of(v.slots).contains(item.label)
}

/// The state after `item` has been requested.
pub open spec fn step(v: LandlordView, item: ItemView) -> LandlordView {
    if hits(v, item) {
        on_hit(v, item.label)
    } else {
        on_fault(v, item)
    }
}

/// The outcome of a request for `item`.
pub open spec fn outcome(v: LandlordView, item: ItemView) -> RequestResult {
    if hits(v, item) {
        RequestResult::Hit
    } else {
        RequestResult::Fault(evicted_for(v, item).pressure as u64)
    }
}

/// Every slot could still pay back `paid` without exceeding its item's cost.
pub open spec fn can_refund(slots: Seq<Slot>, paid: nat) -> bool {
    forall|j: int| 0 <= j < slots.len() ==> paid + (#[trigger] slots[j]).credit <= full_credit(slots[j].cost)
}

/// No cost exceeds the limit.
pub proof fn lemma_full_credit_limit(cost: u32)
    ensures
        full_credit(cost) <= credit_limit(),
{
    assert(cost as nat * CREDIT_SCALE as nat <= 0xffff_ffff * CREDIT_SCALE as nat) by (nonlinear_arith)
        requires
            cost <= 0xffff_ffff,
    ;
}

/// A refreshed credit lies within the item's cost.
pub proof fn lemma_refreshed(policy: HitPolicy, cost: u32, credit: nat, rng: u64)
    requires
        credit <= full_credit(cost),
    ensures
        refreshed(policy, cost, credit, rng) <= full_credit(cost),
{
    if policy == HitPolicy::Rand && credit < full_credit(cost) {
        let range = (full_credit(cost) - credit) as nat;
        assert(drawn(rng) as nat % range < range) by (nonlinear_arith)
            requires
                range > 0,
        ;
    }
}

/// One eviction keeps the engine well formed, frees the room of the victim,
/// and charges no more than any slot can bear.
pub proof fn lemma_evict_one(slots: Seq<Slot>, order: Seq<Seq<char>>, capacity: u32, paid: nat)
    requires
        slots_wf(slots, capacity),
        coupled(slots, order),
        slots.len() > 0,
        can_refund(slots, paid),
    ensures
        slots_wf(evict_one(slots, order).slots, capacity),
        coupled(evict_one(slots, order).slots, evict_one(slots, order).order),
        evict_one(slots, order).slots.len() + 1 == slots.len(),
        total_size(evict_one(slots, order).slots) < total_size(slots),
        can_refund(evict_one(slots, order).slots, paid + evict_one(slots, order).pressure),
        paid + evict_one(slots, order).pressure <= credit_limit(),
        zero_labels(decay(slots)).contains(picked(order, zero_labels(decay(slots)))),
        order.contains(picked(order, zero_labels(decay(slots)))),
        labels_of(decay(slots)).contains(picked(order, zero_labels(decay(slots)))),
{
    lemma_decay(slots);
    lemma_lowest(slots);
    let decayed = decay(slots);
    let zeros = zero_labels(decayed);
    let m = lowest(slots);
    let labels = labels_of(slots);
    // The lowest slot is out of credit and stands in the order.
    assert(labels[m] == slots[m].label);
    assert(labels.to_set().contains(slots[m].label));
    assert(order.contains(slots[m].label));
    lemma_first_in(order, zeros);
    let k = choose|k: int| 0 <= k < order.len() && order[k] == slots[m].label;
    assert(zeros.contains(order[k]));
    let victim = picked(order, zeros);
    assert(zeros.contains(victim));
    assert(order.contains(victim));
    let i = choose|i: int| 0 <= i < decayed.len() && (#[trigger] decayed[i]).label == victim && decayed[i].credit == 0;
    assert(labels_of(decayed)[i] == victim);
    assert(labels_of(decayed).contains(victim));
    lemma_without(decayed, capacity, victim);
    lemma_distinct_remove(order, victim);
    lemma_distinct_remove(labels, victim);
    let after = evict_one(slots, order);
    // Every slot has paid at least the rate, so it can pay back that much more.
    let rate = lowest_rate(slots);
    lemma_position(labels_of(decayed), victim);
    let p = position(labels_of(decayed), victim);
    assert forall|j: int| 0 <= j < decayed.len() implies rate + (#[trigger] decayed[j]).credit
        <= slots[j].credit by {
        let c = slots[m].credit;
        let per = slots[m].size as nat;
        let size = slots[j].size as nat;
        assert(c / per <= (c * size) / per) by (nonlinear_arith)
            requires
                per >= 1,
                size >= 1,
        {
            assert(c <= c * size);
        }
        assert(decayed[j].credit + charge(c, per, size) == slots[j].credit);
    }
    assert forall|j: int| 0 <= j < after.slots.len() implies paid + rate + (#[trigger] after.slots[j]).credit
        <= full_credit(after.slots[j].cost) by {
        let j0 = if j < p { j } else { j + 1 };
        assert(after.slots[j] == decayed[j0]);
        assert(rate + decayed[j0].credit <= slots[j0].credit);
        assert(decayed[j0].cost == slots[j0].cost);
    }
    assert(rate + decayed[m].credit <= slots[m].credit);
    lemma_full_credit_limit(slots[m].cost);
}

/// A cascade of evictions keeps the engine well formed, ends with the room
/// that was asked for, and charges no more in all than an item can cost.
pub proof fn lemma_evict(
    slots: Seq<Slot>,
    order: Seq<Seq<char>>,
    capacity: u32,
    needed: u32,
    rounds: nat,
    paid: nat,
)
    requires
        slots_wf(slots, capacity),
        coupled(slots, order),
        needed <= capacity,
        rounds >= slots.len(),
        can_refund(slots, paid),
        paid <= credit_limit(),
    ensures
        slots_wf(evict(slots, order, capacity, needed, rounds).slots, capacity),
        coupled(
            evict(slots, order, capacity, needed, rounds).slots,
            evict(slots, order, capacity, needed, rounds).order,
        ),
        total_size(evict(slots, order, capacity, needed, rounds).slots) + needed <= capacity,
        total_size(evict(slots, order, capacity, needed, rounds).slots) <= total_size(slots),
        evict(slots, order, capacity, needed, rounds).slots.len() <= slots.len(),
        paid + evict(slots, order, capacity, needed, rounds).pressure <= credit_limit(),
        labels_of(evict(slots, order, capacity, needed, rounds).slots).to_set().subset_of(
            labels_of(slots).to_set(),
        ),
    decreases rounds,
{
    if rounds == 0 {
        assert(slots.len() == 0);
        assert(total_size(slots) == 0);
    } else if total_size(slots) + needed <= capacity {
    } else {
        if slots.len() == 0 {
            assert(total_size(slots) == 0);
        }
        lemma_evict_one(slots, order, capacity, paid);
        let one = evict_one(slots, order);
        lemma_evict(one.slots, one.order, capacity, needed, (rounds - 1) as nat, paid + one.pressure);
        lemma_decay(slots);
        let victim = picked(order, zero_labels(decay(slots)));
        lemma_without(decay(slots), capacity, victim);
        lemma_distinct_remove(labels_of(slots), victim);
    }
}

/// A request leaves the engine well formed: the capacity is respected,
/// every credit lies between zero and the item's cost, and the tiebreak
/// order holds exactly the cached items.
pub proof fn lemma_step_keeps_engine_wf(v: LandlordView, item: ItemView)
    requires
        engine_wf(v),
        item.fits(v.capacity),
    ensures
        engine_wf(step(v, item)),
        step(v, item).capacity == v.capacity,
        hits(step(v, item), item),
{
    let labels = labels_of(v.slots);
    if hits(v, item) {
        lemma_position(labels, item.label);
        let slot = v.slots[position(labels, item.label)];
        lemma_refreshed(v.hit, slot.cost, slot.credit, v.rng);
        lemma_with_credit(v.slots, v.capacity, item.label, refreshed(v.hit, slot.cost, slot.credit, v.rng));
        assert(v.order.to_set().contains(item.label));
        lemma_touched(v.order, item.label, v.tiebreak, rng_after_refresh(v.hit, slot.cost, slot.credit, v.rng));
    } else {
        lemma_evict(v.slots, v.order, v.capacity, item.size, v.slots.len(), 0);
        let made = evicted_for(v, item);
        assert(!labels_of(made.slots).contains(item.label)) by {
            if labels_of(made.slots).contains(item.label) {
                assert(labels_of(made.slots).to_set().contains(item.label));
                assert(labels.to_set().contains(item.label));
            }
        }
        assert(!made.order.contains(item.label)) by {
            if made.order.contains(item.label) {
                assert(made.order.to_set().contains(item.label));
            }
        }
        lemma_push(made.slots, v.capacity, fresh(item));
        lemma_placed(made.order, item.label, v.tiebreak, v.rng);
        let after = on_fault(v, item);
        assert(labels_of(after.slots).to_set() =~= labels_of(made.slots).to_set().insert(item.label)) by {
            let before = labels_of(made.slots);
            let now = before.push(item.label);
            assert forall|l: Seq<char>| now.to_set().contains(l) <==> before.to_set().insert(item.label).contains(l) by {
                if now.contains(l) {
                    let k = choose|k: int| 0 <= k < now.len() && now[k] == l;
                    if k < before.len() {
                        assert(before[k] == l);
                    }
                }
                if before.contains(l) {
                    let k = choose|k: int| 0 <= k < before.len() && before[k] == l;
                    assert(now[k] == l);
                }
                if l == item.label {
                    assert(now[before.len() as int] == l);
                }
            }
        }
        assert(labels_of(after.slots)[made.slots.len() as int] == item.label);
    }
}

} // verus!
