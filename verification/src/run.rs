//! The driver: one trace served by a full cache and, from a given position
//! on, by a suffix cache, with every request entered in the tracker.

use vstd::prelude::*;
use crate::cost::{
    RequestFullOrSuffix, channel_len, charged, costs_wf, labels_of_costs, lemma_logged,
};
use crate::item::{Item, ItemView};
use crate::landlord::Landlord;
use crate::logger::{Tracker, TrackerView};
use crate::model::{
    LandlordView, RequestResult, credit_limit, engine_wf, evicted_for, hits, outcome, step,
    lemma_evict, lemma_step_keeps_engine_wf,
};

verus! {

/// Whether a request was a hit.
pub open spec fn is_hit(result: RequestResult) -> bool {
    result is Hit
}

/// The pressure of a request: that of its evictions on a fault, none on a hit.
pub open spec fn pressure_of(result: RequestResult) -> u64 {
    match result {
        RequestResult::Hit => 0,
        RequestResult::Fault(pressure) => pressure,
    }
}

/// The tag under which a request is entered in the tracker.
pub open spec fn tag_of(result: RequestResult, full: bool) -> RequestFullOrSuffix {
    if full {
        RequestFullOrSuffix::Full(is_hit(result))
    } else {
        RequestFullOrSuffix::Suff(is_hit(result))
    }
}

/// The tracker after the cost and the pressure of a request have been logged.
pub open spec fn noted(t: TrackerView, item: ItemView, result: RequestResult, full: bool) -> TrackerView {
    t.with_cost(item.label, item.cost, tag_of(result, full)).with_pressure(
        pressure_of(result),
        tag_of(result, full),
    )
}

/// The two engines and the tracker of a run.
pub struct RunView {
    pub full: LandlordView,
    pub suffix: LandlordView,
    pub tracker: TrackerView,
}

/// The run after one more request. The full cache serves it. The suffix
/// cache serves it too if the request lies in the suffix; before that the
/// suffix cache is left alone and the request is entered for it as a hit.
pub open spec fn served(run: RunView, item: ItemView, in_suffix: bool) -> RunView {
    let after_full = noted(run.tracker, item, outcome(run.full, item), true);
    if in_suffix {
        RunView {
            full: step(run.full, item),
            suffix: step(run.suffix, item),
            tracker: noted(after_full, item, outcome(run.suffix, item), false),
        }
    } else {
        RunView {
            full: step(run.full, item),
            suffix: run.suffix,
            tracker: noted(after_full, item, RequestResult::Hit, false),
        }
    }
}

/// The run after the first `n` requests of the trace.
pub open spec fn driven(run: RunView, trace: Seq<ItemView>, suffix_start: nat, n: nat) -> RunView
    decreases n,
{
    if n == 0 {
        run
    } else {
        served(driven(run, trace, suffix_start, (n - 1) as nat), trace[n - 1], n - 1 >= suffix_start)
    }
}

/// The items of a trace, request by request.
pub open spec fn items_of(trace: Seq<&Item>) -> Seq<ItemView> {
    trace.map_values(|item: &Item| item@)
}

/// Every item of the trace fits the cache and has a row in the tracker.
pub open spec fn servable(trace: Seq<ItemView>, capacity: u32, t: TrackerView) -> bool {
    forall|i: int|
        0 <= i < trace.len() ==> (#[trigger] trace[i]).fits(capacity) && labels_of_costs(t.items).contains(
            trace[i].label,
        )
}

/// What holds of a run between requests, given the trace it serves.
pub open spec fn run_wf(run: RunView, trace: Seq<ItemView>) -> bool {
    &&& engine_wf(run.full)
    &&& engine_wf(run.suffix)
    &&& costs_wf(run.tracker.costs())
    &&& servable(trace, run.full.capacity, run.tracker)
    &&& servable(trace, run.suffix.capacity, run.tracker)
}

/// The pressure of a fault is no more than an item can cost.
pub proof fn lemma_outcome_bounded(v: LandlordView, item: ItemView)
    requires
        engine_wf(v),
        item.fits(v.capacity),
    ensures
        pressure_of(outcome(v, item)) <= credit_limit(),
        !hits(v, item) ==> pressure_of(outcome(v, item)) == evicted_for(v, item).pressure,
{
    if !hits(v, item) {
        lemma_evict(v.slots, v.order, v.capacity, item.size, v.slots.len(), 0);
    }
}

/// Entering a request appends one entry to the cost and to the pressure of
/// its channel, and leaves the other channel as it was.
pub proof fn lemma_noted(t: TrackerView, item: ItemView, result: RequestResult, full: bool)
    requires
        costs_wf(t.costs()),
        labels_of_costs(t.items).contains(item.label),
        channel_len(t.costs(), tag_of(result, full)) < u32::MAX,
    ensures
        costs_wf(noted(t, item, result, full).costs()),
        labels_of_costs(noted(t, item, result, full).items) == labels_of_costs(t.items),
        full ==> {
            &&& noted(t, item, result, full).full_cost == t.full_cost.push(charged(item.cost, is_hit(result)))
            &&& noted(t, item, result, full).full_pres == t.full_pres.push(pressure_of(result))
            &&& noted(t, item, result, full).suff_cost == t.suff_cost
            &&& noted(t, item, result, full).suff_pres == t.suff_pres
        },
        !full ==> {
            &&& noted(t, item, result, full).suff_cost == t.suff_cost.push(charged(item.cost, is_hit(result)))
            &&& noted(t, item, result, full).suff_pres == t.suff_pres.push(pressure_of(result))
            &&& noted(t, item, result, full).full_cost == t.full_cost
            &&& noted(t, item, result, full).full_pres == t.full_pres
        },
{
    lemma_logged(t.costs(), item.label, item.cost, tag_of(result, full));
}

/// One more request keeps the run well formed and appends one entry to each
/// of the four sequences of the tracker.
pub proof fn lemma_served(run: RunView, trace: Seq<ItemView>, item: ItemView, in_suffix: bool)
    requires
        run_wf(run, trace),
        item.fits(run.full.capacity),
        item.fits(run.suffix.capacity),
        labels_of_costs(run.tracker.items).contains(item.label),
        run.tracker.full_cost.len() < u32::MAX,
        run.tracker.suff_cost.len() < u32::MAX,
    ensures
        run_wf(served(run, item, in_suffix), trace),
        served(run, item, in_suffix).full.capacity == run.full.capacity,
        served(run, item, in_suffix).suffix.capacity == run.suffix.capacity,
        labels_of_costs(served(run, item, in_suffix).tracker.items) == labels_of_costs(
            run.tracker.items,
        ),
        served(run, item, in_suffix).tracker.full_cost == run.tracker.full_cost.push(
            charged(item.cost, hits(run.full, item)),
        ),
        served(run, item, in_suffix).tracker.full_pres == run.tracker.full_pres.push(
            pressure_of(outcome(run.full, item)),
        ),
        served(run, item, in_suffix).tracker.suff_cost == run.tracker.suff_cost.push(
            if in_suffix {
                charged(item.cost, hits(run.suffix, item))
            } else {
                0
            },
        ),
        served(run, item, in_suffix).tracker.suff_pres == run.tracker.suff_pres.push(
            if in_suffix {
                pressure_of(outcome(run.suffix, item))
            } else {
                0
            },
        ),
{
    lemma_step_keeps_engine_wf(run.full, item);
    let after_full = noted(run.tracker, item, outcome(run.full, item), true);
    lemma_noted(run.tracker, item, outcome(run.full, item), true);
    if in_suffix {
        lemma_step_keeps_engine_wf(run.suffix, item);
        lemma_noted(after_full, item, outcome(run.suffix, item), false);
    } else {
        lemma_noted(after_full, item, RequestResult::Hit, false);
    }
}

/// After `n` requests the run is well formed and each of the four sequences
/// of the tracker is `n` entries longer.
pub proof fn lemma_driven(run: RunView, trace: Seq<ItemView>, suffix_start: nat, n: nat)
    requires
        run_wf(run, trace),
        n <= trace.len(),
        run.tracker.full_cost.len() + n <= u32::MAX,
        run.tracker.suff_cost.len() + n <= u32::MAX,
    ensures
        run_wf(driven(run, trace, suffix_start, n), trace),
        driven(run, trace, suffix_start, n).full.capacity == run.full.capacity,
        driven(run, trace, suffix_start, n).suffix.capacity == run.suffix.capacity,
        labels_of_costs(driven(run, trace, suffix_start, n).tracker.items) == labels_of_costs(
            run.tracker.items,
        ),
        driven(run, trace, suffix_start, n).tracker.full_cost.len() == run.tracker.full_cost.len() + n,
        driven(run, trace, suffix_start, n).tracker.suff_cost.len() == run.tracker.suff_cost.len() + n,
        driven(run, trace, suffix_start, n).tracker.full_pres.len() == run.tracker.full_pres.len() + n,
        driven(run, trace, suffix_start, n).tracker.suff_pres.len() == run.tracker.suff_pres.len() + n,
    decreases n,
{
    if n > 0 {
        lemma_driven(run, trace, suffix_start, (n - 1) as nat);
        let before = driven(run, trace, suffix_start, (n - 1) as nat);
        lemma_served(before, trace, trace[n - 1], n - 1 >= suffix_start);
    }
}

impl Landlord {
    /// Serves the trace: every request goes to the full cache `f`, and from
    /// position `div` on to the suffix cache `s` as well; the cost and the
    /// pressure of each are logged in the tracker. Before position `div` the
    /// suffix cache is not touched and the tracker gets zeros for it.
    /// Returns the two engines as the run has left them: the suffix cache,
    /// then the full cache.
    pub fn run(trace: &Vec<&Item>, div: u32, s: Landlord, f: Landlord, tracker: &mut Tracker) -> (engines:
        (Landlord, Landlord))
        requires
            s.wf(),
            f.wf(),
            run_wf(RunView { full: f@, suffix: s@, tracker: old(tracker)@ }, items_of(trace@)),
            old(tracker)@.full_cost.len() + trace.len() <= u32::MAX,
            old(tracker)@.suff_cost.len() + trace.len() <= u32::MAX,
        ensures
            engines.0.wf(),
            engines.1.wf(),
            final(tracker).wf(),
            (RunView { full: engines.1@, suffix: engines.0@, tracker: final(tracker)@ }) == driven(
                RunView { full: f@, suffix: s@, tracker: old(tracker)@ },
                items_of(trace@),
                div as nat,
                trace.len() as nat,
            ),
    {
        let ghost start = RunView { full: f@, suffix: s@, tracker: tracker@ };
        let ghost items = items_of(trace@);
        let mut full = f;
        let mut suffix = s;
        let mut i: usize = 0;
        while i < trace.len()
            invariant
                i <= trace.len(),
                items == items_of(trace@),
                full.wf(),
                suffix.wf(),
                run_wf(start, items),
                start.tracker.full_cost.len() + trace.len() <= u32::MAX,
                start.tracker.suff_cost.len() + trace.len() <= u32::MAX,
                (RunView { full: full@, suffix: suffix@, tracker: tracker@ }) == driven(
                    start,
                    items,
                    div as nat,
                    i as nat,
                ),
            decreases trace.len() - i,
        {
            let ghost before = RunView { full: full@, suffix: suffix@, tracker: tracker@ };
            let item: &Item = trace[i];
            proof {
                lemma_driven(start, items, div as nat, i as nat);
                assert(items[i as int] == item@);
                lemma_served(before, items, item@, i >= div);
                lemma_noted(before.tracker, item@, outcome(before.full, item@), true);
                lemma_outcome_bounded(before.full, item@);
            }
            let result = full.request(item);
            let (hit, pressure): (bool, u64) = match result {
                RequestResult::Hit => (true, 0),
                RequestResult::Fault(p) => (false, p),
            };
            tracker.log_cost(item, RequestFullOrSuffix::Full(hit));
            tracker.log_pres(pressure, RequestFullOrSuffix::Full(hit));
            if i < div as usize {
                tracker.log_cost(item, RequestFullOrSuffix::Suff(true));
                tracker.log_pres(0, RequestFullOrSuffix::Suff(true));
            } else {
                let result = suffix.request(item);
                let (hit, pressure): (bool, u64) = match result {
                    RequestResult::Hit => (true, 0),
                    RequestResult::Fault(p) => (false, p),
                };
                tracker.log_cost(item, RequestFullOrSuffix::Suff(hit));
                tracker.log_pres(pressure, RequestFullOrSuffix::Suff(hit));
            }
            i += 1;
        }
        proof {
            lemma_driven(start, items, div as nat, trace.len() as nat);
        }
        (suffix, full)
    }
}

} // verus!
