//! The tracker: the ledger of a run, and its summary.

use vstd::prelude::*;
use crate::cost::{
    CostTracker, CostTrackerView, ItemCosts, Ratio, RequestFullOrSuffix, channel_len, charged,
    costs_wf, empty_rows, labels_of_costs, logged, prefix_sum, ratio, requested, row_of, scr_at,
};
use crate::item::Item;
use crate::pressure::{PressureTracker, PressureTrackerView, pressed, pressure_logged};

verus! {

/// What a [`Tracker`] stands for in contracts: four sequences indexed by the
/// position of the request, and the costs of each item.
pub struct TrackerView {
    pub full_cost: Seq<u32>,
    pub suff_cost: Seq<u32>,
    pub full_pres: Seq<u64>,
    pub suff_pres: Seq<u64>,
    pub items: Seq<ItemCosts>,
}

impl TrackerView {
    /// The cost part of the ledger.
    pub open spec fn costs(self) -> CostTrackerView {
        CostTrackerView { full_cost: self.full_cost, suff_cost: self.suff_cost, items: self.items }
    }

    /// The pressure part of the ledger.
    pub open spec fn pressures(self) -> PressureTrackerView {
        PressureTrackerView { full_pressure: self.full_pres, suffix_pressure: self.suff_pres }
    }

    /// The ledger after the cost of a request has been logged.
    pub open spec fn with_cost(self, label: Seq<char>, cost: u32, tag: RequestFullOrSuffix) -> TrackerView {
        let costs = logged(self.costs(), label, cost, tag);
        TrackerView { full_cost: costs.full_cost, suff_cost: costs.suff_cost, items: costs.items, ..self }
    }

    /// The ledger after the pressure of a request has been logged.
    pub open spec fn with_pressure(self, pressure: u64, tag: RequestFullOrSuffix) -> TrackerView {
        let pressures = pressure_logged(self.pressures(), pressure, tag);
        TrackerView {
            full_pres: pressures.full_pressure,
            suff_pres: pressures.suffix_pressure,
            ..self
        }
    }
}

/// A tracker with an empty row for every label of the trace and nothing else.
pub open spec fn empty_tracker(labels: Seq<Seq<char>>) -> TrackerView {
    TrackerView {
        full_cost: Seq::empty(),
        suff_cost: Seq::empty(),
        full_pres: Seq::empty(),
        suff_pres: Seq::empty(),
        items: empty_rows(labels),
    }
}

/// The ledger of a run: per request, what it cost each cache and the
/// pressure it put on each; per item, what its requests cost each cache.
#[derive(Debug)]
pub struct Tracker {
    costs: CostTracker,
    pressures: PressureTracker,
}

impl View for Tracker {
    type V = TrackerView;

    closed spec fn view(&self) -> TrackerView {
        TrackerView {
            full_cost: self.costs@.full_cost,
            suff_cost: self.costs@.suff_cost,
            full_pres: self.pressures@.full_pressure,
            suff_pres: self.pressures@.suffix_pressure,
            items: self.costs@.items,
        }
    }
}

impl Tracker {
    /// The tracker's invariant: see [`costs_wf`].
    pub open spec fn wf(&self) -> bool {
        costs_wf(self@.costs())
    }

    /// Whether the item with this label has a row of its own.
    pub open spec fn tracks(&self, label: Seq<char>) -> bool {
        labels_of_costs(self@.items).contains(label)
    }

    /// The row of the item with this label.
    pub open spec fn row(&self, label: Seq<char>) -> ItemCosts {
        row_of(self@.items, label)
    }

    /// An empty ledger with an empty row for every item of the trace.
    pub fn new(trace: &Vec<&Item>) -> (tracker: Tracker)
        ensures
            tracker.wf(),
            tracker@ == empty_tracker(requested(trace@)),
            forall|i: int| 0 <= i < trace.len() ==> tracker.tracks(#[trigger] trace[i]@.label),
    {
        let tracker = Tracker { costs: CostTracker::for_trace(trace), pressures: PressureTracker::new() };
        proof {
            assert(tracker@.full_pres =~= Seq::<u64>::empty());
            assert(tracker@.suff_pres =~= Seq::<u64>::empty());
        }
        tracker
    }

    /// What the request at position `index` cost the full cache.
    pub fn get_full_cost(&self, index: u32) -> (cost: u32)
        requires
            index < self@.full_cost.len(),
        ensures
            cost == self@.full_cost[index as int],
    {
        self.costs.get_full_cost(index)
    }

    /// What the requests before position `index` cost the full cache.
    pub fn get_full_cost_range(&self, index: u32) -> (sum: u64)
        requires
            index <= self@.full_cost.len(),
        ensures
            sum == prefix_sum(self@.full_cost, index as nat),
    {
        self.costs.get_full_cost_range(index)
    }

    /// What the requests before position `index` cost the suffix cache.
    pub fn get_suff_cost_range(&self, index: u32) -> (sum: u64)
        requires
            index <= self@.suff_cost.len(),
        ensures
            sum == prefix_sum(self@.suff_cost, index as nat),
    {
        self.costs.get_suff_cost_range(index)
    }

    /// What the request at position `index` cost the suffix cache.
    pub fn get_suff_cost(&self, index: u32) -> (cost: u32)
        requires
            index < self@.suff_cost.len(),
        ensures
            cost == self@.suff_cost[index as int],
    {
        self.costs.get_suff_cost(index)
    }

    /// The suffix competitive ratio of the requests before position `index`:
    /// what they cost the suffix cache over what they cost the full cache,
    /// and zero where nothing has been logged or the full cache paid nothing.
    pub fn get_scr(&self, index: u32) -> (r: Ratio)
        requires
            self@.full_cost.len() > 0 ==> index <= self@.full_cost.len() && index
                <= self@.suff_cost.len(),
        ensures
            r == scr_at(self@.costs(), index as nat),
    {
        self.costs.get_scr(index)
    }

    /// The suffix competitive ratio of one item over its own first `index`
    /// requests: what they cost the suffix cache over what they cost the full
    /// cache, and zero where the full cache paid nothing.
    pub fn get_ind_scr(&self, index: u32, item: &Item) -> (r: Ratio)
        requires
            self.tracks(item@.label),
            index <= self.row(item@.label).full.len(),
            index <= self.row(item@.label).suff.len(),
        ensures
            r == ratio(
                prefix_sum(self.row(item@.label).suff, index as nat),
                prefix_sum(self.row(item@.label).full, index as nat),
            ),
    {
        self.costs.get_ind_scr(index, item)
    }

    /// Logs what a request for `item` has cost: nothing on a hit, the item's
    /// cost on a fault.
    pub fn log_cost(&mut self, item: &Item, request_type: RequestFullOrSuffix)
        requires
            old(self).wf(),
            old(self).tracks(item@.label),
            channel_len(old(self)@.costs(), request_type) < u32::MAX,
        ensures
            final(self).wf(),
            final(self)@ == old(self)@.with_cost(item@.label, item@.cost, request_type),
            labels_of_costs(final(self)@.items) == labels_of_costs(old(self)@.items),
            final(self)@.full_pres == old(self)@.full_pres,
            final(self)@.suff_pres == old(self)@.suff_pres,
            forall|other: Seq<char>|
                other != item@.label && old(self).tracks(other) ==> #[trigger] row_of(
                    final(self)@.items,
                    other,
                ) == row_of(old(self)@.items, other),
            request_type matches RequestFullOrSuffix::Full(is_hit) ==> {
                &&& final(self)@.full_cost == old(self)@.full_cost.push(charged(item@.cost, is_hit))
                &&& final(self)@.suff_cost == old(self)@.suff_cost
                &&& final(self).row(item@.label).full == old(self).row(item@.label).full.push(
                    charged(item@.cost, is_hit),
                )
                &&& final(self).row(item@.label).suff == old(self).row(item@.label).suff
            },
            request_type matches RequestFullOrSuffix::Suff(is_hit) ==> {
                &&& final(self)@.suff_cost == old(self)@.suff_cost.push(charged(item@.cost, is_hit))
                &&& final(self)@.full_cost == old(self)@.full_cost
                &&& final(self).row(item@.label).suff == old(self).row(item@.label).suff.push(
                    charged(item@.cost, is_hit),
                )
                &&& final(self).row(item@.label).full == old(self).row(item@.label).full
            },
    {
        self.costs.log(item, request_type);
    }

    /// Logs the pressure of a request: none on a hit, `pressure` on a fault.
    pub fn log_pres(&mut self, pressure: u64, request_type: RequestFullOrSuffix)
        ensures
            final(self)@ == old(self)@.with_pressure(pressure, request_type),
            final(self)@.costs() == old(self)@.costs(),
            request_type matches RequestFullOrSuffix::Full(is_hit) ==> {
                &&& final(self)@.full_pres == old(self)@.full_pres.push(pressed(pressure, is_hit))
                &&& final(self)@.suff_pres == old(self)@.suff_pres
            },
            request_type matches RequestFullOrSuffix::Suff(is_hit) ==> {
                &&& final(self)@.suff_pres == old(self)@.suff_pres.push(pressed(pressure, is_hit))
                &&& final(self)@.full_pres == old(self)@.full_pres
            },
    {
        self.pressures.log(pressure, request_type);
    }

    /// The costs to the full cache, request by request.
    pub fn full_costs(&self) -> (costs: &Vec<u32>)
        ensures
            costs@ == self@.full_cost,
    {
        self.costs.full_costs()
    }

    /// The costs to the suffix cache, request by request.
    pub fn suff_costs(&self) -> (costs: &Vec<u32>)
        ensures
            costs@ == self@.suff_cost,
    {
        self.costs.suff_costs()
    }

    /// The pressures on the full cache, request by request.
    pub fn full_pressures(&self) -> (pressures: &Vec<u64>)
        ensures
            pressures@ == self@.full_pres,
    {
        self.pressures.full_pressures()
    }

    /// The pressures on the suffix cache, request by request.
    pub fn suff_pressures(&self) -> (pressures: &Vec<u64>)
        ensures
            pressures@ == self@.suff_pres,
    {
        self.pressures.suffix_pressures()
    }
}

/// The individual suffix competitive ratio of each row, over the whole run.
pub open spec fn summary(items: Seq<ItemCosts>) -> Seq<(Seq<char>, Ratio)> {
    items.map_values(
        |row: ItemCosts|
            (
                row.label,
                ratio(prefix_sum(row.suff, row.suff.len()), prefix_sum(row.full, row.full.len())),
            ),
    )
}

/// What a [`PrettyTracker`] stands for in contracts.
pub struct PrettyTrackerView {
    pub full_costs: Seq<u32>,
    pub suff_costs: Seq<u32>,
    pub full_pres: Seq<u64>,
    pub suff_pres: Seq<u64>,
    pub ind_scr: Seq<(Seq<char>, Ratio)>,
}

/// The summary of a run, ready to be written out: the four sequences of the
/// tracker in full, and for every item of the trace its individual suffix
/// competitive ratio.
#[derive(Debug)]
pub struct PrettyTracker {
    full_costs: Vec<u32>,
    suff_costs: Vec<u32>,
    full_pres: Vec<u64>,
    suff_pres: Vec<u64>,
    ind_scr: Vec<(String, Ratio)>,
}

spec fn named(pairs: Seq<(String, Ratio)>) -> Seq<(Seq<char>, Ratio)> {
    pairs.map_values(|p: (String, Ratio)| (p.0@, p.1))
}

impl View for PrettyTracker {
    type V = PrettyTrackerView;

    closed spec fn view(&self) -> PrettyTrackerView {
        PrettyTrackerView {
            full_costs: self.full_costs@,
            suff_costs: self.suff_costs@,
            full_pres: self.full_pres@,
            suff_pres: self.suff_pres@,
            ind_scr: named(self.ind_scr@),
        }
    }
}

impl PrettyTracker {
    /// The summary of what the tracker holds.
    pub fn new(tracker: Tracker) -> (pretty: PrettyTracker)
        requires
            tracker.wf(),
        ensures
            pretty@.full_costs == tracker@.full_cost,
            pretty@.suff_costs == tracker@.suff_cost,
            pretty@.full_pres == tracker@.full_pres,
            pretty@.suff_pres == tracker@.suff_pres,
            pretty@.ind_scr == summary(tracker@.items),
    {
        let ghost items = tracker@.items;
        let (full_costs, suff_costs, rows) = tracker.costs.into_parts();
        let (full_pres, suff_pres) = tracker.pressures.into_parts();
        let mut ind_scr: Vec<(String, Ratio)> = Vec::new();
        let n: usize = rows.len();
        let mut i: usize = 0;
        while i < n
            invariant
                i <= n,
                n == items.len(),
                rows@ == items,
                rows.wf(),
                ind_scr.len() == i,
                forall|j: int| 0 <= j < i ==> #[trigger] named(ind_scr@)[j] == summary(items)[j],
            decreases n - i,
        {
            let ghost before = named(ind_scr@);
            let r: Ratio = rows.scr_of_row(i);
            ind_scr.push((rows.label_at(i).clone(), r));
            assert(named(ind_scr@) =~= before.push((items[i as int].label, r)));
            i += 1;
        }
        let pretty = PrettyTracker { full_costs, suff_costs, full_pres, suff_pres, ind_scr };
        assert(pretty@.ind_scr =~= summary(items));
        pretty
    }

    /// The costs to the full cache, request by request.
    pub fn full_costs(&self) -> (costs: &Vec<u32>)
        ensures
            costs@ == self@.full_costs,
    {
        &self.full_costs
    }

    /// The costs to the suffix cache, request by request.
    pub fn suff_costs(&self) -> (costs: &Vec<u32>)
        ensures
            costs@ == self@.suff_costs,
    {
        &self.suff_costs
    }

    /// The pressures on the full cache, request by request, in credit units.
    pub fn full_pres(&self) -> (pressures: &Vec<u64>)
        ensures
            pressures@ == self@.full_pres,
    {
        &self.full_pres
    }

    /// The pressures on the suffix cache, request by request, in credit units.
    pub fn suff_pres(&self) -> (pressures: &Vec<u64>)
        ensures
            pressures@ == self@.suff_pres,
    {
        &self.suff_pres
    }

    /// The number of items in the summary.
    pub fn ind_scr_len(&self) -> (len: usize)
        ensures
            len == self@.ind_scr.len(),
    {
        self.ind_scr.len()
    }

    /// The label and the individual suffix competitive ratio of the `i`-th item.
    pub fn ind_scr_at(&self, i: usize) -> (entry: (&String, Ratio))
        requires
            i < self@.ind_scr.len(),
        ensures
            entry.0@ == self@.ind_scr[i as int].0,
            entry.1 == self@.ind_scr[i as int].1,
    {
        (&self.ind_scr[i].0, self.ind_scr[i].1)
    }
}

} // verus!
