//! The input of a run: the table of items, the trace of requests and the
//! settings, how they are checked, and the run that they describe.

use vstd::prelude::*;
use crate::cost::{first_seen, labels_of_costs, lemma_first_seen, requested};
use crate::item::{Item, ItemView};
use crate::labels::{position, lemma_position};
use crate::landlord::Landlord;
use crate::logger::{PrettyTracker, PrettyTrackerView, Tracker, TrackerView, empty_tracker, summary};
use crate::model::LandlordView;
use crate::policy::{HitPolicy, TiebreakingPolicy, hit_policy_named, tiebreaking_policy_named};
use crate::run::{RunView, driven, items_of, run_wf};
use crate::slots::labels_of;

verus! {

/// What a [`TraceInfo`] stands for in contracts.
pub struct TraceInfoView {
    pub items: Seq<ItemView>,
    pub trace: Seq<Seq<char>>,
}

/// The table of all items that can be requested, and the trace: the labels
/// of the items requested, in order.
#[derive(Debug)]
pub struct TraceInfo {
    items: Vec<Item>,
    trace: Vec<String>,
}

impl View for TraceInfo {
    type V = TraceInfoView;

    closed spec fn view(&self) -> TraceInfoView {
        TraceInfoView {
            items: self.items@.map_values(|item: Item| item@),
            trace: self.trace@.map_values(|label: String| label@),
        }
    }
}

/// The labels of the items of a table, in order.
pub open spec fn labels_of_items(items: Seq<ItemView>) -> Seq<Seq<char>> {
    items.map_values(|item: ItemView| item.label)
}

/// Whether exactly one of the labels is `label`.
pub open spec fn names_one(labels: Seq<Seq<char>>, label: Seq<char>) -> bool {
    &&& position(labels, label) < labels.len()
    &&& forall|j: int| position(labels, label) < j < labels.len() ==> #[trigger] labels[j] != label
}

/// Whether every label of the trace names exactly one item of the table.
pub open spec fn resolvable(info: TraceInfoView) -> bool {
    forall|i: int|
        0 <= i < info.trace.len() ==> names_one(labels_of_items(info.items), #[trigger] info.trace[i])
}

/// The item of the table that the label names.
pub open spec fn named_item(items: Seq<ItemView>, label: Seq<char>) -> ItemView {
    items[position(labels_of_items(items), label)]
}

/// The trace as items: each label replaced by the item that it names.
pub open spec fn resolved(info: TraceInfoView) -> Seq<ItemView> {
    info.trace.map_values(|label: Seq<char>| named_item(info.items, label))
}

/// The least index at or after `from` of an item that does not fit a cache
/// of the given capacity, or the length of the table if all fit.
pub open spec fn misfit_from(items: Seq<ItemView>, capacity: u32, from: int) -> int
    decreases items.len() - from,
{
    if from < 0 || from >= items.len() {
        items.len() as int
    } else if !items[from].fits(capacity) {
        from
    } else {
        misfit_from(items, capacity, from + 1)
    }
}

/// The first item of the table that does not fit, or the length of the table.
pub open spec fn first_misfit(items: Seq<ItemView>, capacity: u32) -> int {
    misfit_from(items, capacity, 0)
}

/// `misfit_from` finds the first item at or after `from` that does not fit.
pub proof fn lemma_misfit_from(items: Seq<ItemView>, capacity: u32, from: int)
    requires
        0 <= from <= items.len(),
    ensures
        from <= misfit_from(items, capacity, from) <= items.len(),
        misfit_from(items, capacity, from) < items.len() ==> !items[misfit_from(
            items,
            capacity,
            from,
        )].fits(capacity),
        forall|j: int| from <= j < misfit_from(items, capacity, from) ==> (#[trigger] items[j]).fits(capacity),
    decreases items.len() - from,
{
    if from < items.len() && items[from].fits(capacity) {
        lemma_misfit_from(items, capacity, from + 1);
    }
}

impl TraceInfo {
    /// The input of a run: the table of items and the labels requested.
    pub fn new(items: Vec<Item>, trace: Vec<String>) -> (info: TraceInfo)
        ensures
            info@.items == items@.map_values(|item: Item| item@),
            info@.trace == trace@.map_values(|label: String| label@),
    {
        TraceInfo { items, trace }
    }

    /// The table of items.
    pub fn items(&self) -> (items: &Vec<Item>)
        ensures
            items@.map_values(|item: Item| item@) == self@.items,
    {
        &self.items
    }

    /// The labels requested, in order.
    pub fn trace(&self) -> (trace: &Vec<String>)
        ensures
            trace@.map_values(|label: String| label@) == self@.trace,
    {
        &self.trace
    }

    /// The index of the first item of the table that does not fit a cache of
    /// the given capacity: one that takes no room, or more than the cache has.
    pub fn find_misfit(&self, capacity: u32) -> (found: Option<usize>)
        ensures
            found is None <==> first_misfit(self@.items, capacity) == self@.items.len(),
            found matches Some(i) ==> i == first_misfit(self@.items, capacity),
    {
        let ghost items = self@.items;
        let mut i: usize = 0;
        while i < self.items.len()
            invariant
                i <= self.items.len(),
                items == self@.items,
                items.len() == self.items.len(),
                first_misfit(items, capacity) == misfit_from(items, capacity, i as int),
            decreases self.items.len() - i,
        {
            assert(items[i as int] == self.items[i as int]@);
            let size: u32 = self.items[i].get_size();
            if size == 0 || size > capacity {
                return Some(i);
            }
            i += 1;
        }
        None
    }

    /// The index of the one item of the table that has this label.
    fn find_only(&self, label: &String) -> (found: Option<usize>)
        ensures
            found is Some <==> names_one(labels_of_items(self@.items), label@),
            found matches Some(i) ==> i == position(labels_of_items(self@.items), label@) && i
                < self.items.len(),
    {
        let ghost labels = labels_of_items(self@.items);
        let mut found: Option<usize> = None;
        let mut i: usize = 0;
        while i < self.items.len()
            invariant
                i <= self.items.len(),
                labels == labels_of_items(self@.items),
                labels.len() == self.items.len(),
                found is None ==> forall|j: int| 0 <= j < i ==> #[trigger] labels[j] != label@,
                found matches Some(p) ==> {
                    &&& p < i
                    &&& labels[p as int] == label@
                    &&& forall|j: int| 0 <= j < i && j != p ==> #[trigger] labels[j] != label@
                },
            decreases self.items.len() - i,
        {
            assert(labels[i as int] == self.items[i as int]@.label);
            if *self.items[i].get_label() == *label {
                if found.is_some() {
                    proof {
                        lemma_position(labels, label@);
                    }
                    return None;
                }
                found = Some(i);
            }
            i += 1;
        }
        proof {
            lemma_position(labels, label@);
        }
        found
    }
}

/// Turns the trace of labels into a trace of items. Succeeds exactly when
/// every label of the trace names one item of the table, and one only.
pub fn strings_to_items(trace: &TraceInfo) -> (requests: Option<Vec<&Item>>)
    ensures
        requests is Some <==> resolvable(trace@),
        requests matches Some(r) ==> items_of(r@) == resolved(trace@),
{
    let ghost info = trace@;
    let mut requests: Vec<&Item> = Vec::new();
    let mut i: usize = 0;
    while i < trace.trace.len()
        invariant
            i <= trace.trace.len(),
            info == trace@,
            info.trace.len() == trace.trace.len(),
            info.items.len() == trace.items.len(),
            requests.len() == i,
            forall|j: int| 0 <= j < i ==> names_one(labels_of_items(info.items), #[trigger] info.trace[j]),
            forall|j: int| 0 <= j < i ==> (#[trigger] requests[j])@ == named_item(info.items, info.trace[j]),
        decreases trace.trace.len() - i,
    {
        assert(info.trace[i as int] == trace.trace[i as int]@);
        match trace.find_only(&trace.trace[i]) {
            Some(p) => {
                assert(info.items[p as int] == trace.items[p as int]@);
                requests.push(&trace.items[p]);
            },
            None => {
                return None;
            },
        }
        i += 1;
    }
    assert(items_of(requests@) =~= resolved(info));
    Some(requests)
}

/// The settings of a run.
#[derive(Debug)]
pub struct Args {
    in_path: String,
    out_path: String,
    size: u32,
    div: u32,
    policies: Vec<String>,
}

/// What [`Args`] stand for in contracts.
pub struct ArgsView {
    pub in_path: Seq<char>,
    pub out_path: Seq<char>,
    pub size: u32,
    pub div: u32,
    pub policies: Seq<Seq<char>>,
}

impl View for Args {
    type V = ArgsView;

    closed spec fn view(&self) -> ArgsView {
        ArgsView {
            in_path: self.in_path@,
            out_path: self.out_path@,
            size: self.size,
            div: self.div,
            policies: self.policies@.map_values(|name: String| name@),
        }
    }
}

impl Args {
    /// Settings of a run: where the input is read and the report written,
    /// the capacity of the caches, the position at which the suffix starts,
    /// and the names of the hit policy and of the tiebreaking policy.
    pub fn new(in_path: String, out_path: String, size: u32, div: u32, policies: Vec<String>) -> (args:
        Args)
        ensures
            args@ == (ArgsView {
                in_path: in_path@,
                out_path: out_path@,
                size,
                div,
                policies: policies@.map_values(|name: String| name@),
            }),
    {
        Args { in_path, out_path, size, div, policies }
    }

    /// Where the input is read.
    pub fn in_path(&self) -> (path: &String)
        ensures
            path@ == self@.in_path,
    {
        &self.in_path
    }

    /// Where the report is written.
    pub fn out_path(&self) -> (path: &String)
        ensures
            path@ == self@.out_path,
    {
        &self.out_path
    }

    /// The names of the hit policy and of the tiebreaking policy.
    pub fn policies(&self) -> (policies: &Vec<String>)
        ensures
            policies@.map_values(|name: String| name@) == self@.policies,
    {
        &self.policies
    }

    /// The capacity of the caches.
    pub fn size(&self) -> (size: u32)
        ensures
            size == self@.size,
    {
        self.size
    }

    /// The position of the trace at which the suffix starts.
    pub fn div(&self) -> (div: u32)
        ensures
            div == self@.div,
    {
        self.div
    }
}

/// Why a run does not start.
#[derive(Clone, Copy, Debug, PartialEq, Eq, Structural)]
pub enum RunError {
    /// The item at this index of the table takes more room than the cache has.
    ItemTooLarge(usize),
    /// The item at this index of the table takes no room.
    ItemWithoutSize(usize),
    /// A label of the trace names no item of the table, or more than one.
    InvalidTrace,
    /// The settings do not name two policies.
    PolicyInput,
    /// The first policy named is no hit policy.
    InvalidHitPolicy,
    /// The second policy named is no tiebreaking policy.
    InvalidTiebreakingPolicy,
    /// The trace is longer than positions can be numbered.
    TraceTooLong,
}

/// The first reason for which a run with these settings and this input does
/// not start, if there is one. The table is checked first, item by item; then
/// the trace; then the policies, the hit policy before the tiebreaking policy.
pub open spec fn refusal(args: ArgsView, info: TraceInfoView) -> Option<RunError> {
    let misfit = first_misfit(info.items, args.size);
    if misfit < info.items.len() {
        if info.items[misfit].size > args.size {
            Some(RunError::ItemTooLarge(misfit as usize))
        } else {
            Some(RunError::ItemWithoutSize(misfit as usize))
        }
    } else if !resolvable(info) {
        Some(RunError::InvalidTrace)
    } else if args.policies.len() != 2 {
        Some(RunError::PolicyInput)
    } else if hit_policy_named(args.policies[0]) is None {
        Some(RunError::InvalidHitPolicy)
    } else if tiebreaking_policy_named(args.policies[1]) is None {
        Some(RunError::InvalidTiebreakingPolicy)
    } else if info.trace.len() > u32::MAX {
        Some(RunError::TraceTooLong)
    } else {
        None
    }
}

/// An engine that has served nothing yet.
pub open spec fn empty_engine(
    capacity: u32,
    tiebreak: TiebreakingPolicy,
    hit: HitPolicy,
    seed: u64,
) -> LandlordView {
    LandlordView { capacity, slots: Seq::empty(), order: Seq::empty(), tiebreak, hit, rng: seed }
}

/// The summary of a tracker.
pub open spec fn report(t: TrackerView) -> PrettyTrackerView {
    PrettyTrackerView {
        full_costs: t.full_cost,
        suff_costs: t.suff_cost,
        full_pres: t.full_pres,
        suff_pres: t.suff_pres,
        ind_scr: summary(t.items),
    }
}

/// The start of the run that the settings and the input describe: two empty
/// caches of the given size under the given policies, both with a generator
/// started at `seed`, and an empty tracker.
pub open spec fn initial_run(args: ArgsView, info: TraceInfoView, seed: u64) -> RunView {
    let hit = hit_policy_named(args.policies[0])->Some_0;
    let tiebreak = tiebreaking_policy_named(args.policies[1])->Some_0;
    let engine = empty_engine(args.size, tiebreak, hit, seed);
    RunView { full: engine, suffix: engine, tracker: empty_tracker(labels_of_items(resolved(info))) }
}

/// The tracker at the end of the run that the settings and the input
/// describe: the whole trace is served, by the suffix cache from position
/// `div` on.
pub open spec fn outcome_of_run(args: ArgsView, info: TraceInfoView, seed: u64) -> TrackerView {
    driven(initial_run(args, info, seed), resolved(info), args.div as nat, info.trace.len()).tracker
}

/// A run that is not refused starts well formed, with an empty tracker, and
/// within the limits of the tracker: so all that holds of well-formed runs
/// holds of it, at every position of its trace.
pub proof fn lemma_accepted_run(args: ArgsView, info: TraceInfoView, seed: u64)
    requires
        refusal(args, info) is None,
    ensures
        run_wf(initial_run(args, info, seed), resolved(info)),
        initial_run(args, info, seed).tracker.full_cost.len() == 0,
        initial_run(args, info, seed).tracker.suff_cost.len() == 0,
        initial_run(args, info, seed).tracker.full_pres.len() == 0,
        initial_run(args, info, seed).tracker.suff_pres.len() == 0,
        resolved(info).len() == info.trace.len(),
        info.trace.len() <= u32::MAX,
{
    let run = initial_run(args, info, seed);
    let trace = resolved(info);
    let labels = labels_of_items(trace);
    lemma_misfit_from(info.items, args.size, 0);
    lemma_first_seen(labels);
    assert(run.full.order.to_set() =~= labels_of(run.full.slots).to_set());
    assert(labels_of_costs(run.tracker.items) =~= first_seen(labels));
    assert forall|k: int| 0 <= k < trace.len() implies (#[trigger] trace[k]).fits(args.size)
        && labels_of_costs(run.tracker.items).contains(trace[k].label) by {
        let label = info.trace[k];
        lemma_position(labels_of_items(info.items), label);
        assert(names_one(labels_of_items(info.items), label));
        assert(trace[k] == named_item(info.items, label));
        assert(labels[k] == trace[k].label);
        assert(labels.contains(trace[k].label));
    }
}

/// Checks the settings and the input and, if nothing is wrong with them,
/// runs the trace and returns the summary of the run.
pub fn simulate(args: &Args, info: &TraceInfo, seed: u64) -> (result: Result<PrettyTracker, RunError>)
    ensures
        result is Ok <==> refusal(args@, info@) is None,
        result matches Err(e) ==> refusal(args@, info@) == Some(e),
        result matches Ok(pretty) ==> pretty@ == report(outcome_of_run(args@, info@, seed)),
{
    proof {
        lemma_misfit_from(info@.items, args@.size, 0);
    }
    match info.find_misfit(args.size) {
        Some(i) => {
            assert(info@.items[i as int] == info.items[i as int]@);
            if info.items[i].get_size() > args.size {
                return Err(RunError::ItemTooLarge(i));
            } else {
                return Err(RunError::ItemWithoutSize(i));
            }
        },
        None => {},
    }
    let requests: Vec<&Item> = match strings_to_items(info) {
        Some(requests) => requests,
        None => {
            return Err(RunError::InvalidTrace);
        },
    };
    if args.policies.len() != 2 {
        return Err(RunError::PolicyInput);
    }
    assert(args@.policies[0] == args.policies[0]@);
    assert(args@.policies[1] == args.policies[1]@);
    let hit: HitPolicy = match HitPolicy::parse(args.policies[0].as_str()) {
        Some(policy) => policy,
        None => {
            return Err(RunError::InvalidHitPolicy);
        },
    };
    let tiebreak: TiebreakingPolicy = match TiebreakingPolicy::parse(args.policies[1].as_str()) {
        Some(policy) => policy,
        None => {
            return Err(RunError::InvalidTiebreakingPolicy);
        },
    };
    assert(requests.len() == info@.trace.len()) by {
        assert(items_of(requests@).len() == requests.len());
        assert(resolved(info@).len() == info@.trace.len());
    }
    if requests.len() > u32::MAX as usize {
        return Err(RunError::TraceTooLong);
    }
    let s = Landlord::with_seed(args.size, tiebreak, hit, seed);
    let f = Landlord::with_seed(args.size, tiebreak, hit, seed);
    let mut tracker = Tracker::new(&requests);
    proof {
        assert(requested(requests@) =~= labels_of_items(resolved(info@)));
        lemma_accepted_run(args@, info@, seed);
        assert((RunView { full: f@, suffix: s@, tracker: tracker@ }) == initial_run(args@, info@, seed));
    }
    Landlord::run(&requests, args.div, s, f, &mut tracker);
    Ok(PrettyTracker::new(tracker))
}

} // verus!
