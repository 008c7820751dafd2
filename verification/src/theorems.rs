//! What holds of every run, at every position of the trace.

use vstd::prelude::*;
use crate::cost::{CostTrackerView, charged, lemma_prefix_sum_bound, prefix_sum, scr_at};
use crate::credit::{charge, full_credit, lemma_charge_leaves_rest, lemma_charge_takes_all};
use crate::item::ItemView;
use crate::model::{
    Eviction, can_refund, coupled, credit_limit, evict, evict_one, hits, outcome, lemma_evict_one,
};
use crate::run::{
    RunView, driven, pressure_of, run_wf, lemma_driven, lemma_outcome_bounded, lemma_served,
};
use crate::slots::{
    Slot, cheaper, decay, labels_of, lowest, slots_bounded, slots_wf, total_size, lemma_decay,
    lemma_lowest,
};

verus! {

/// The run is within the limits of the tracker: its positions can be
/// numbered up to the end of the trace.
pub open spec fn numbered(run: RunView, n: nat) -> bool {
    &&& run.tracker.full_cost.len() + n <= u32::MAX
    &&& run.tracker.suff_cost.len() + n <= u32::MAX
}

/// The tracker of the run has nothing in it yet.
pub open spec fn started_empty(run: RunView) -> bool {
    &&& run.tracker.full_cost.len() == 0
    &&& run.tracker.suff_cost.len() == 0
    &&& run.tracker.full_pres.len() == 0
    &&& run.tracker.suff_pres.len() == 0
}

/// At every position of a run, the items cached by either engine
/// take no more room together than the engine's capacity.
pub proof fn theorem_capacity(run: RunView, trace: Seq<ItemView>, suffix_start: nat, k: nat)
    requires
        run_wf(run, trace),
        k <= trace.len(),
        numbered(run, k),
    ensures
        total_size(driven(run, trace, suffix_start, k).full.slots) <= run.full.capacity,
        total_size(driven(run, trace, suffix_start, k).suffix.slots) <= run.suffix.capacity,
{
    lemma_driven(run, trace, suffix_start, k);
}

/// At every position of a run, the credit of every cached
/// item lies between zero and the item's cost.
pub proof fn theorem_credit_bounds(
    run: RunView,
    trace: Seq<ItemView>,
    suffix_start: nat,
    k: nat,
    slot: Slot,
)
    requires
        run_wf(run, trace),
        k <= trace.len(),
        numbered(run, k),
        driven(run, trace, suffix_start, k).full.slots.contains(slot) || driven(
            run,
            trace,
            suffix_start,
            k,
        ).suffix.slots.contains(slot),
    ensures
        0 <= slot.credit <= full_credit(slot.cost),
{
    lemma_driven(run, trace, suffix_start, k);
}

/// At every position of a run, the tiebreak order of
/// either engine holds exactly the items that the engine has cached.
pub proof fn theorem_set_consistency(run: RunView, trace: Seq<ItemView>, suffix_start: nat, k: nat)
    requires
        run_wf(run, trace),
        k <= trace.len(),
        numbered(run, k),
    ensures
        driven(run, trace, suffix_start, k).full.order.to_set() == labels_of(
            driven(run, trace, suffix_start, k).full.slots,
        ).to_set(),
        driven(run, trace, suffix_start, k).suffix.order.to_set() == labels_of(
            driven(run, trace, suffix_start, k).suffix.slots,
        ).to_set(),
{
    lemma_driven(run, trace, suffix_start, k);
}

/// After `k` requests, each of the four sequences of a
/// tracker that started empty has `k` entries.
pub proof fn theorem_tracker_length(run: RunView, trace: Seq<ItemView>, suffix_start: nat, k: nat)
    requires
        run_wf(run, trace),
        k <= trace.len(),
        numbered(run, k),
        started_empty(run),
    ensures
        driven(run, trace, suffix_start, k).tracker.full_cost.len() == k,
        driven(run, trace, suffix_start, k).tracker.suff_cost.len() == k,
        driven(run, trace, suffix_start, k).tracker.full_pres.len() == k,
        driven(run, trace, suffix_start, k).tracker.suff_pres.len() == k,
{
    lemma_driven(run, trace, suffix_start, k);
}

/// What the tracker holds for the request at position `i` once `n` requests
/// have been served, in terms of the state of the engines just before that
/// request. Entries are counted from the lengths that the tracker started with.
pub proof fn lemma_entry(run: RunView, trace: Seq<ItemView>, suffix_start: nat, n: nat, i: nat)
    requires
        run_wf(run, trace),
        i < n <= trace.len(),
        numbered(run, n),
    ensures
        driven(run, trace, suffix_start, n).tracker.full_cost[(run.tracker.full_cost.len() + i) as int] == charged(
            trace[i as int].cost,
            hits(driven(run, trace, suffix_start, i).full, trace[i as int]),
        ),
        driven(run, trace, suffix_start, n).tracker.full_pres[(run.tracker.full_pres.len() + i) as int]
            == pressure_of(outcome(driven(run, trace, suffix_start, i).full, trace[i as int])),
        driven(run, trace, suffix_start, n).tracker.suff_cost[(run.tracker.suff_cost.len() + i) as int] == (if i
            < suffix_start {
            0
        } else {
            charged(trace[i as int].cost, hits(driven(run, trace, suffix_start, i).suffix, trace[i as int]))
        }),
        driven(run, trace, suffix_start, n).tracker.suff_pres[(run.tracker.suff_pres.len() + i) as int] == (if i
            < suffix_start {
            0
        } else {
            pressure_of(outcome(driven(run, trace, suffix_start, i).suffix, trace[i as int]))
        }),
    decreases n,
{
    let before = driven(run, trace, suffix_start, (n - 1) as nat);
    lemma_driven(run, trace, suffix_start, (n - 1) as nat);
    lemma_served(before, trace, trace[n - 1], n - 1 >= suffix_start);
    if i < n - 1 {
        lemma_entry(run, trace, suffix_start, (n - 1) as nat, i);
    }
}

/// For every request before the suffix starts, the tracker
/// holds zero as the cost and as the pressure of the suffix cache.
pub proof fn theorem_suffix_gating(run: RunView, trace: Seq<ItemView>, suffix_start: nat, n: nat, i: nat)
    requires
        run_wf(run, trace),
        i < n <= trace.len(),
        numbered(run, n),
        started_empty(run),
        i < suffix_start,
    ensures
        driven(run, trace, suffix_start, n).tracker.suff_cost[i as int] == 0,
        driven(run, trace, suffix_start, n).tracker.suff_pres[i as int] == 0,
{
    lemma_entry(run, trace, suffix_start, n, i);
}

/// For a request of an item that costs something,
/// the tracker holds zero as the cost of the full cache exactly when the
/// full cache hit; and from the start of the suffix on, the same holds of
/// the suffix cache.
pub proof fn theorem_cost_hit_coupling(
    run: RunView,
    trace: Seq<ItemView>,
    suffix_start: nat,
    n: nat,
    i: nat,
)
    requires
        run_wf(run, trace),
        i < n <= trace.len(),
        numbered(run, n),
        started_empty(run),
        trace[i as int].cost > 0,
    ensures
        driven(run, trace, suffix_start, n).tracker.full_cost[i as int] == 0 <==> hits(
            driven(run, trace, suffix_start, i).full,
            trace[i as int],
        ),
        i >= suffix_start ==> (driven(run, trace, suffix_start, n).tracker.suff_cost[i as int] == 0 <==> hits(driven(run, trace, suffix_start, i).suffix, trace[i as int])),
{
    lemma_entry(run, trace, suffix_start, n, i);
}

/// Pressure is never negative: every pressure in the tracker is zero on a
/// hit, and on a fault lies between zero and the greatest cost there is.
pub proof fn theorem_pressure_bounds(run: RunView, trace: Seq<ItemView>, suffix_start: nat, n: nat, i: nat)
    requires
        run_wf(run, trace),
        i < n <= trace.len(),
        numbered(run, n),
        started_empty(run),
    ensures
        0 <= driven(run, trace, suffix_start, n).tracker.full_pres[i as int]
            <= credit_limit(),
        0 <= driven(run, trace, suffix_start, n).tracker.suff_pres[i as int]
            <= credit_limit(),
        hits(driven(run, trace, suffix_start, i).full, trace[i as int]) ==> driven(
            run,
            trace,
            suffix_start,
            n,
        ).tracker.full_pres[i as int] == 0,
{
    lemma_entry(run, trace, suffix_start, n, i);
    lemma_driven(run, trace, suffix_start, i);
    let before = driven(run, trace, suffix_start, i);
    lemma_outcome_bounded(before.full, trace[i as int]);
    lemma_outcome_bounded(before.suffix, trace[i as int]);
}

/// What is charged falls short of the exact share of the rate by
/// less than one credit unit, and never exceeds it.
pub proof fn theorem_charge_rounding(credit: nat, per: nat, size: nat)
    requires
        per >= 1,
    ensures
        charge(credit, per, size) * per <= credit * size < (charge(credit, per, size) + 1) * per,
{
    let product = credit * size;
    assert((product / per) * per <= product < (product / per + 1) * per) by (nonlinear_arith)
        requires
            per >= 1,
            product >= 0,
    ;
}

/// After a round of decay the items that are out of
/// credit are exactly those that had the lowest credit per unit of room, so at
/// least one is, and the tiebreak order decides among them.
pub proof fn theorem_decay_zeros(slots: Seq<Slot>, j: int)
    requires
        slots.len() > 0,
        slots_bounded(slots),
        0 <= j < slots.len(),
    ensures
        decay(slots)[j].credit == 0 <==> !cheaper(slots[lowest(slots)], slots[j]),
{
    lemma_lowest(slots);
    lemma_decay(slots);
    let m = slots[lowest(slots)];
    let s = slots[j];
    if cheaper(m, s) {
        lemma_charge_leaves_rest(m.credit, m.size as nat, s.size as nat, s.credit);
    } else {
        assert(!cheaper(s, m));
        assert(m.credit * s.size == s.credit * m.size);
        lemma_charge_takes_all(m.credit, m.size as nat, s.size as nat, s.credit);
    }
}

/// A cascade of evictions either finds the room
/// that it was asked for and stops, or makes one eviction, which strictly
/// lessens the room taken, and goes on from there.
pub proof fn theorem_evict_progress(
    slots: Seq<Slot>,
    order: Seq<Seq<char>>,
    capacity: u32,
    needed: u32,
    rounds: nat,
)
    requires
        slots_wf(slots, capacity),
        coupled(slots, order),
        needed <= capacity,
        rounds >= slots.len(),
    ensures
        total_size(slots) + needed <= capacity ==> evict(slots, order, capacity, needed, rounds) == (Eviction {
            slots,
            order,
            pressure: 0,
        }),
        total_size(slots) + needed > capacity ==> {
            &&& total_size(evict_one(slots, order).slots) < total_size(slots)
            &&& evict(slots, order, capacity, needed, rounds).slots == evict(
                evict_one(slots, order).slots,
                evict_one(slots, order).order,
                capacity,
                needed,
                (rounds - 1) as nat,
            ).slots
        },
{
    if total_size(slots) + needed > capacity {
        if slots.len() == 0 {
            assert(total_size(slots) == 0);
        }
        assert(can_refund(slots, 0));
        lemma_evict_one(slots, order, capacity, 0);
    }
}

/// The cost paid over a prefix of the run never decreases as the prefix grows.
pub proof fn theorem_prefix_sum_monotone(costs: Seq<u32>, j: nat, k: nat)
    requires
        j <= k,
    ensures
        prefix_sum(costs, j) <= prefix_sum(costs, k),
    decreases k,
{
    if j < k {
        theorem_prefix_sum_monotone(costs, j, (k - 1) as nat);
    }
}

/// The suffix competitive ratio is defined wherever the full cache has paid
/// anything: it is then the cost to the suffix cache over the cost to the
/// full cache.
pub proof fn theorem_scr_defined(v: CostTrackerView, k: nat)
    requires
        k <= v.full_cost.len() <= u32::MAX,
        k <= v.suff_cost.len(),
        prefix_sum(v.full_cost, k) > 0,
    ensures
        scr_at(v, k).den == prefix_sum(v.full_cost, k),
        scr_at(v, k).num == prefix_sum(v.suff_cost, k),
{
    lemma_prefix_sum_bound(v.full_cost, k);
    lemma_prefix_sum_bound(v.suff_cost, k);
    assert(k * 0xffff_ffff <= 0xffff_ffff * 0xffff_ffff) by (nonlinear_arith)
        requires
            k <= 0xffff_ffff,
    ;
}

} // verus!
