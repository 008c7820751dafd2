//! The cost ledger: what each request has cost the full cache and the suffix
//! cache, in all and item by item.

use vstd::prelude::*;
use crate::item::Item;
use crate::labels::{distinct, position, lemma_position};

verus! {

/// Which cache served a request, and whether the request hit (`true`) or
/// faulted (`false`).
#[derive(Clone, Copy, Debug, PartialEq, Eq, Structural)]
pub enum RequestFullOrSuffix {
    Full(bool),
    Suff(bool),
}

/// A ratio of two sums of costs. The ratio over an empty or all-zero
/// denominator is zero, written `0 / 1`.
#[derive(Clone, Copy, Debug, PartialEq, Eq, Structural)]
pub struct Ratio {
    pub num: u64,
    pub den: u64,
}

/// What a request is charged: nothing on a hit, the item's cost on a fault.
pub open spec fn charged(cost: u32, is_hit: bool) -> u32 {
    if is_hit {
        0
    } else {
        cost
    }
}

/// The sum of the first `k` entries.
pub open spec fn prefix_sum(costs: Seq<u32>, k: nat) -> nat
    decreases k,
{
    if k == 0 {
        0
    } else {
        prefix_sum(costs, (k - 1) as nat) + costs[k - 1] as nat
    }
}

/// The ratio of a suffix sum to a full sum, zero where the full sum is zero.
pub open spec fn ratio(suff: nat, full: nat) -> Ratio {
    if full == 0 {
        Ratio { num: 0, den: 1 }
    } else {
        Ratio { num: suff as u64, den: full as u64 }
    }
}

/// The costs charged for one item, request of that item by request.
pub struct ItemCosts {
    pub label: Seq<char>,
    pub full: Seq<u32>,
    pub suff: Seq<u32>,
}

/// The labels of the rows, in order.
pub open spec fn labels_of_costs(rows: Seq<ItemCosts>) -> Seq<Seq<char>> {
    rows.map_values(|r: ItemCosts| r.label)
}

/// The row of the item with the given label.
pub open spec fn row_of(rows: Seq<ItemCosts>, label: Seq<char>) -> ItemCosts {
    rows[position(labels_of_costs(rows), label)]
}

/// The rows after `amount` has been entered for `label` on the channel of `tag`.
pub open spec fn entered(
    rows: Seq<ItemCosts>,
    label: Seq<char>,
    tag: RequestFullOrSuffix,
    amount: u32,
) -> Seq<ItemCosts> {
    let i = position(labels_of_costs(rows), label);
    match tag {
        RequestFullOrSuffix::Full(_) => rows.update(
            i,
            ItemCosts { full: rows[i].full.push(amount), ..rows[i] },
        ),
        RequestFullOrSuffix::Suff(_) => rows.update(
            i,
            ItemCosts { suff: rows[i].suff.push(amount), ..rows[i] },
        ),
    }
}

/// Entering an amount lengthens one channel of one row by that amount and
/// changes nothing else.
pub proof fn lemma_entered(rows: Seq<ItemCosts>, label: Seq<char>, tag: RequestFullOrSuffix, amount: u32)
    requires
        labels_of_costs(rows).contains(label),
    ensures
        entered(rows, label, tag, amount).len() == rows.len(),
        labels_of_costs(entered(rows, label, tag, amount)) == labels_of_costs(rows),
        forall|other: Seq<char>|
            other != label && labels_of_costs(rows).contains(other) ==> #[trigger] row_of(
                entered(rows, label, tag, amount),
                other,
            ) == row_of(rows, other),
        row_of(entered(rows, label, tag, amount), label) == match tag {
            RequestFullOrSuffix::Full(_) => ItemCosts {
                full: row_of(rows, label).full.push(amount),
                ..row_of(rows, label)
            },
            RequestFullOrSuffix::Suff(_) => ItemCosts {
                suff: row_of(rows, label).suff.push(amount),
                ..row_of(rows, label)
            },
        },
{
    let labels = labels_of_costs(rows);
    let after = entered(rows, label, tag, amount);
    lemma_position(labels, label);
    assert(labels_of_costs(after) =~= labels);
    assert forall|other: Seq<char>| other != label && labels.contains(other) implies #[trigger] row_of(
        after,
        other,
    ) == row_of(rows, other) by {
        lemma_position(labels, other);
    }
}

/// The distinct labels of a trace, in the order in which they first occur.
pub open spec fn first_seen(labels: Seq<Seq<char>>) -> Seq<Seq<char>>
    decreases labels.len(),
{
    if labels.len() == 0 {
        Seq::empty()
    } else {
        let before = first_seen(labels.drop_last());
        if before.contains(labels.last()) {
            before
        } else {
            before.push(labels.last())
        }
    }
}

/// The labels of the items of a trace, request by request.
pub open spec fn requested(trace: Seq<&Item>) -> Seq<Seq<char>> {
    trace.map_values(|item: &Item| item@.label)
}

/// One empty row for each distinct label, in the order in which the labels
/// first occur.
pub open spec fn empty_rows(labels: Seq<Seq<char>>) -> Seq<ItemCosts> {
    first_seen(labels).map_values(
        |label: Seq<char>| ItemCosts { label, full: Seq::empty(), suff: Seq::empty() },
    )
}

/// `first_seen` holds every label of the trace, once.
pub proof fn lemma_first_seen(labels: Seq<Seq<char>>)
    ensures
        distinct(first_seen(labels)),
        forall|l: Seq<char>| #[trigger] first_seen(labels).contains(l) <==> labels.contains(l),
        first_seen(labels).len() <= labels.len(),
    decreases labels.len(),
{
    if labels.len() > 0 {
        let front = labels.drop_last();
        let before = first_seen(front);
        lemma_first_seen(front);
        let now = first_seen(labels);
        assert forall|l: Seq<char>| #[trigger] now.contains(l) <==> labels.contains(l) by {
            assert(before.contains(l) <==> front.contains(l));
            if now.contains(l) {
                let k = choose|k: int| 0 <= k < now.len() && now[k] == l;
                if k < before.len() {
                    assert(before[k] == l);
                    assert(before.contains(l));
                    let j = choose|j: int| 0 <= j < front.len() && front[j] == l;
                    assert(labels[j] == l);
                } else {
                    assert(labels[labels.len() - 1] == l);
                }
            }
            if labels.contains(l) {
                let j = choose|j: int| 0 <= j < labels.len() && labels[j] == l;
                if j < front.len() {
                    assert(front[j] == l);
                    assert(before.contains(l));
                    let k = choose|k: int| 0 <= k < before.len() && before[k] == l;
                    assert(now[k] == l);
                } else if before.contains(l) {
                } else {
                    assert(now[before.len() as int] == l);
                }
            }
        }
    }
}

/// A prefix sum of `k` costs is at most `k` times the greatest cost.
pub proof fn lemma_prefix_sum_bound(costs: Seq<u32>, k: nat)
    requires
        k <= costs.len(),
    ensures
        prefix_sum(costs, k) <= k * 0xffff_ffff,
    decreases k,
{
    if k > 0 {
        lemma_prefix_sum_bound(costs, (k - 1) as nat);
    }
}

/// The sum of the first `k` entries.
pub fn sum_first(costs: &Vec<u32>, k: u32) -> (sum: u64)
    requires
        k <= costs.len(),
    ensures
        sum == prefix_sum(costs@, k as nat),
{
    let mut sum: u64 = 0;
    let mut i: u32 = 0;
    while i < k
        invariant
            i <= k,
            k <= costs.len(),
            sum == prefix_sum(costs@, i as nat),
            sum <= i * 0xffff_ffff,
        decreases k - i,
    {
        assert((i + 1) * 0xffff_ffff <= 0xffff_ffff * 0xffff_ffff) by (nonlinear_arith)
            requires
                i + 1 <= 0xffff_ffff,
        ;
        sum = sum + costs[i as usize] as u64;
        i += 1;
    }
    sum
}

/// The ratio of two sums, zero where the full sum is zero.
pub fn ratio_of(suff: u64, full: u64) -> (r: Ratio)
    ensures
        r == ratio(suff as nat, full as nat),
{
    if full == 0 {
        Ratio { num: 0, den: 1 }
    } else {
        Ratio { num: suff, den: full }
    }
}

#[derive(Debug)]
struct Row {
    label: String,
    full: Vec<u32>,
    suff: Vec<u32>,
}

/// The costs of each item of a trace, for the individual suffix competitive
/// ratios. Every item of the trace has a row, in the order in which the
/// items first occur in the trace.
#[derive(Debug)]
pub struct IndScr {
    rows: Vec<Row>,
}

spec fn row_views(rows: Seq<Row>) -> Seq<ItemCosts> {
    rows.map_values(|r: Row| ItemCosts { label: r.label@, full: r.full@, suff: r.suff@ })
}

impl View for IndScr {
    type V = Seq<ItemCosts>;

    closed spec fn view(&self) -> Seq<ItemCosts> {
        row_views(self.rows@)
    }
}

impl IndScr {
    /// Every item has one row, and no row is longer than positions can number.
    pub open spec fn wf(&self) -> bool {
        &&& distinct(labels_of_costs(self@))
        &&& forall|i: int|
            0 <= i < self@.len() ==> (#[trigger] self@[i]).full.len() <= u32::MAX && self@[i].suff.len()
                <= u32::MAX
    }

    /// The length of the channel of `tag` in the row of the item with this label.
    pub open spec fn entries(&self, label: Seq<char>, tag: RequestFullOrSuffix) -> nat {
        match tag {
            RequestFullOrSuffix::Full(_) => self.row(label).full.len(),
            RequestFullOrSuffix::Suff(_) => self.row(label).suff.len(),
        }
    }

    /// Whether the item with this label has a row.
    pub open spec fn tracks(&self, label: Seq<char>) -> bool {
        labels_of_costs(self@).contains(label)
    }

    /// The row of the item with this label.
    pub open spec fn row(&self, label: Seq<char>) -> ItemCosts {
        row_of(self@, label)
    }

    /// One empty row for each item of the trace.
    pub fn new(trace: &Vec<&Item>) -> (ind_scr: IndScr)
        ensures
            ind_scr.wf(),
            ind_scr@ == empty_rows(requested(trace@)),
            forall|i: int| 0 <= i < trace.len() ==> ind_scr.tracks(#[trigger] trace[i]@.label),
    {
        let ghost labels = requested(trace@);
        let mut ind_scr = IndScr { rows: Vec::new() };
        let mut i: usize = 0;
        assert(labels.take(0) =~= Seq::<Seq<char>>::empty());
        assert(labels_of_costs(ind_scr@) =~= first_seen(labels.take(0)));
        while i < trace.len()
            invariant
                i <= trace.len(),
                labels == requested(trace@),
                labels_of_costs(ind_scr@) == first_seen(labels.take(i as int)),
                forall|j: int|
                    0 <= j < ind_scr@.len() ==> (#[trigger] ind_scr@[j]).full.len() == 0
                        && ind_scr@[j].suff.len() == 0,
            decreases trace.len() - i,
        {
            let ghost before = ind_scr@;
            assert(labels.take(i + 1).drop_last() =~= labels.take(i as int));
            assert(labels.take(i + 1).last() == trace[i as int]@.label);
            if ind_scr.find(trace[i].get_label()).is_none() {
                ind_scr.rows.push(
                    Row { label: trace[i].get_label().clone(), full: Vec::new(), suff: Vec::new() },
                );
                assert(ind_scr@ =~= before.push(
                    ItemCosts { label: trace[i as int]@.label, full: Seq::empty(), suff: Seq::empty() },
                ));
                assert(labels_of_costs(ind_scr@) =~= labels_of_costs(before).push(trace[i as int]@.label));
            }
            i += 1;
        }
        proof {
            assert(labels.take(trace.len() as int) =~= labels);
            lemma_first_seen(labels);
            assert forall|i: int| 0 <= i < trace.len() implies ind_scr.tracks(#[trigger] trace[i]@.label) by {
                assert(labels[i] == trace[i]@.label);
                assert(labels.contains(trace[i]@.label));
            }
            assert(ind_scr@ =~= empty_rows(labels)) by {
                assert forall|k: int| 0 <= k < ind_scr@.len() implies #[trigger] ind_scr@[k] == empty_rows(
                    labels,
                )[k] by {
                    assert(labels_of_costs(ind_scr@)[k] == ind_scr@[k].label);
                    assert(ind_scr@[k].full =~= Seq::<u32>::empty());
                    assert(ind_scr@[k].suff =~= Seq::<u32>::empty());
                }
            }
        }
        ind_scr
    }

    fn find(&self, label: &String) -> (found: Option<usize>)
        ensures
            found is Some <==> self.tracks(label@),
            found matches Some(i) ==> i == position(labels_of_costs(self@), label@) && i < self@.len(),
    {
        let ghost labels = labels_of_costs(self@);
        let mut i: usize = 0;
        while i < self.rows.len()
            invariant
                i <= self.rows.len(),
                labels == labels_of_costs(self@),
                labels.len() == self.rows.len(),
                forall|j: int| 0 <= j < i ==> #[trigger] labels[j] != label@,
            decreases self.rows.len() - i,
        {
            if self.rows[i].label == *label {
                proof {
                    lemma_position(labels, label@);
                    assert(labels[i as int] == label@);
                }
                return Some(i);
            }
            i += 1;
        }
        None
    }

    /// The number of items that have a row.
    pub fn len(&self) -> (len: usize)
        ensures
            len == self@.len(),
    {
        self.rows.len()
    }

    /// The label of the `i`-th row.
    pub fn label_at(&self, i: usize) -> (label: &String)
        requires
            i < self@.len(),
        ensures
            label@ == self@[i as int].label,
    {
        &self.rows[i].label
    }

    /// Whether the item with this label has a row.
    pub fn contains(&self, label: &String) -> (known: bool)
        ensures
            known == self.tracks(label@),
    {
        self.find(label).is_some()
    }

    /// Enters `amount` for the item with this label on the channel of `tag`.
    pub fn enter(&mut self, label: &String, tag: RequestFullOrSuffix, amount: u32)
        requires
            old(self).wf(),
            old(self).tracks(label@),
            old(self).entries(label@, tag) < u32::MAX,
        ensures
            final(self).wf(),
            final(self)@ == entered(old(self)@, label@, tag, amount),
            labels_of_costs(final(self)@) == labels_of_costs(old(self)@),
    {
        proof {
            lemma_position(labels_of_costs(self@), label@);
        }
        let found = self.find(label);
        let i: usize = found.unwrap();
        match tag {
            RequestFullOrSuffix::Full(_) => {
                self.rows[i].full.push(amount);
            },
            RequestFullOrSuffix::Suff(_) => {
                self.rows[i].suff.push(amount);
            },
        }
        assert(self@ =~= entered(old(self)@, label@, tag, amount));
        assert(labels_of_costs(self@) =~= labels_of_costs(old(self)@));
    }

    /// The ratio of what the first `index` requests of the item cost the
    /// suffix cache to what they cost the full cache.
    pub fn scr(&self, index: u32, label: &String) -> (r: Ratio)
        requires
            self.tracks(label@),
            index <= self.row(label@).full.len(),
            index <= self.row(label@).suff.len(),
        ensures
            r == ratio(
                prefix_sum(self.row(label@).suff, index as nat),
                prefix_sum(self.row(label@).full, index as nat),
            ),
    {
        let found = self.find(label);
        let i: usize = found.unwrap();
        let suff: u64 = sum_first(&self.rows[i].suff, index);
        let full: u64 = sum_first(&self.rows[i].full, index);
        ratio_of(suff, full)
    }

    /// The ratio of all that the item of the `i`-th row has cost the suffix
    /// cache to all that it has cost the full cache.
    pub fn scr_of_row(&self, i: usize) -> (r: Ratio)
        requires
            self.wf(),
            i < self@.len(),
        ensures
            r == ratio(
                prefix_sum(self@[i as int].suff, self@[i as int].suff.len()),
                prefix_sum(self@[i as int].full, self@[i as int].full.len()),
            ),
    {
        assert(self@[i as int].full.len() <= u32::MAX);
        let suff: u64 = sum_first(&self.rows[i].suff, self.rows[i].suff.len() as u32);
        let full: u64 = sum_first(&self.rows[i].full, self.rows[i].full.len() as u32);
        ratio_of(suff, full)
    }
}

/// What a [`CostTracker`] stands for in contracts.
pub struct CostTrackerView {
    pub full_cost: Seq<u32>,
    pub suff_cost: Seq<u32>,
    pub items: Seq<ItemCosts>,
}

/// The ledger after a request for an item of the given label and cost has
/// been logged: the charge is appended to the channel of `tag`, in all and in
/// the item's own row.
pub open spec fn logged(
    v: CostTrackerView,
    label: Seq<char>,
    cost: u32,
    tag: RequestFullOrSuffix,
) -> CostTrackerView {
    match tag {
        RequestFullOrSuffix::Full(is_hit) => CostTrackerView {
            full_cost: v.full_cost.push(charged(cost, is_hit)),
            items: entered(v.items, label, tag, charged(cost, is_hit)),
            ..v
        },
        RequestFullOrSuffix::Suff(is_hit) => CostTrackerView {
            suff_cost: v.suff_cost.push(charged(cost, is_hit)),
            items: entered(v.items, label, tag, charged(cost, is_hit)),
            ..v
        },
    }
}

/// The suffix competitive ratio of the first `index` requests.
pub open spec fn scr_at(v: CostTrackerView, index: nat) -> Ratio {
    if v.full_cost.len() == 0 {
        Ratio { num: 0, den: 1 }
    } else {
        ratio(prefix_sum(v.suff_cost, index), prefix_sum(v.full_cost, index))
    }
}

/// What holds of a cost ledger: every item has one row, positions can be
/// numbered, and no row is longer than the ledger.
pub open spec fn costs_wf(v: CostTrackerView) -> bool {
    &&& distinct(labels_of_costs(v.items))
    &&& v.full_cost.len() <= u32::MAX
    &&& v.suff_cost.len() <= u32::MAX
    &&& forall|i: int|
        0 <= i < v.items.len() ==> (#[trigger] v.items[i]).full.len() <= v.full_cost.len()
            && v.items[i].suff.len() <= v.suff_cost.len()
}

/// The length of the channel of `tag`.
pub open spec fn channel_len(v: CostTrackerView, tag: RequestFullOrSuffix) -> nat {
    match tag {
        RequestFullOrSuffix::Full(_) => v.full_cost.len(),
        RequestFullOrSuffix::Suff(_) => v.suff_cost.len(),
    }
}

/// Logging a request keeps the ledger well formed.
pub proof fn lemma_logged(v: CostTrackerView, label: Seq<char>, cost: u32, tag: RequestFullOrSuffix)
    requires
        costs_wf(v),
        labels_of_costs(v.items).contains(label),
        channel_len(v, tag) < u32::MAX,
    ensures
        costs_wf(logged(v, label, cost, tag)),
        labels_of_costs(logged(v, label, cost, tag).items) == labels_of_costs(v.items),
{
    lemma_position(labels_of_costs(v.items), label);
    assert(labels_of_costs(logged(v, label, cost, tag).items) =~= labels_of_costs(v.items));
}

/// The cost ledger of a run: what each request has cost the full cache and
/// the suffix cache, and the same item by item.
#[derive(Debug)]
pub struct CostTracker {
    full_cost: Vec<u32>,
    suff_cost: Vec<u32>,
    ind_scr: IndScr,
}

impl View for CostTracker {
    type V = CostTrackerView;

    closed spec fn view(&self) -> CostTrackerView {
        CostTrackerView { full_cost: self.full_cost@, suff_cost: self.suff_cost@, items: self.ind_scr@ }
    }
}

impl CostTracker {
    /// The ledger's invariant: see [`costs_wf`].
    pub open spec fn wf(&self) -> bool {
        costs_wf(self@)
    }

    /// Whether the item with this label has a row of its own.
    pub open spec fn tracks(&self, label: Seq<char>) -> bool {
        labels_of_costs(self@.items).contains(label)
    }

    /// The row of the item with this label.
    pub open spec fn row(&self, label: Seq<char>) -> ItemCosts {
        row_of(self@.items, label)
    }

    /// An empty ledger that follows no item.
    pub fn new() -> (tracker: CostTracker)
        ensures
            tracker.wf(),
            tracker@ == (CostTrackerView {
                full_cost: Seq::empty(),
                suff_cost: Seq::empty(),
                items: Seq::empty(),
            }),
    {
        let trace: Vec<&Item> = Vec::new();
        let tracker = CostTracker { full_cost: Vec::new(), suff_cost: Vec::new(), ind_scr: IndScr::new(&trace) };
        proof {
            assert(requested(trace@) =~= Seq::<Seq<char>>::empty());
            assert(tracker@.items =~= Seq::<ItemCosts>::empty());
            assert(tracker@.full_cost =~= Seq::<u32>::empty());
            assert(tracker@.suff_cost =~= Seq::<u32>::empty());
        }
        tracker
    }

    /// An empty ledger that follows the items of the trace.
    pub fn for_trace(trace: &Vec<&Item>) -> (tracker: CostTracker)
        ensures
            tracker.wf(),
            tracker@ == (CostTrackerView {
                full_cost: Seq::empty(),
                suff_cost: Seq::empty(),
                items: empty_rows(requested(trace@)),
            }),
            forall|i: int| 0 <= i < trace.len() ==> tracker.tracks(#[trigger] trace[i]@.label),
    {
        let tracker = CostTracker {
            full_cost: Vec::new(),
            suff_cost: Vec::new(),
            ind_scr: IndScr::new(trace),
        };
        proof {
            assert(tracker@.full_cost =~= Seq::<u32>::empty());
            assert(tracker@.suff_cost =~= Seq::<u32>::empty());
        }
        tracker
    }

    /// What the request at position `index` cost the full cache.
    pub fn get_full_cost(&self, index: u32) -> (cost: u32)
        requires
            index < self@.full_cost.len(),
        ensures
            cost == self@.full_cost[index as int],
    {
        self.full_cost[index as usize]
    }

    /// What the requests before position `index` cost the full cache.
    pub fn get_full_cost_range(&self, index: u32) -> (sum: u64)
        requires
            index <= self@.full_cost.len(),
        ensures
            sum == prefix_sum(self@.full_cost, index as nat),
    {
        sum_first(&self.full_cost, index)
    }

    /// What the requests before position `index` cost the suffix cache.
    pub fn get_suff_cost_range(&self, index: u32) -> (sum: u64)
        requires
            index <= self@.suff_cost.len(),
        ensures
            sum == prefix_sum(self@.suff_cost, index as nat),
    {
        sum_first(&self.suff_cost, index)
    }

    /// What the request at position `index` cost the suffix cache.
    pub fn get_suff_cost(&self, index: u32) -> (cost: u32)
        requires
            index < self@.suff_cost.len(),
        ensures
            cost == self@.suff_cost[index as int],
    {
        self.suff_cost[index as usize]
    }

    /// The suffix competitive ratio of the requests before position `index`:
    /// what they cost the suffix cache over what they cost the full cache,
    /// and zero where nothing has been logged or the full cache paid nothing.
    pub fn get_scr(&self, index: u32) -> (r: Ratio)
        requires
            self@.full_cost.len() > 0 ==> index <= self@.full_cost.len() && index
                <= self@.suff_cost.len(),
        ensures
            r == scr_at(self@, index as nat),
    {
        if self.full_cost.len() == 0 {
            Ratio { num: 0, den: 1 }
        } else {
            let suff: u64 = sum_first(&self.suff_cost, index);
            let full: u64 = sum_first(&self.full_cost, index);
            ratio_of(suff, full)
        }
    }

    /// The suffix competitive ratio of one item over its own first `index`
    /// requests.
    pub fn get_ind_scr(&self, index: u32, item: &Item) -> (r: Ratio)
        requires
            self.tracks(item@.label),
            index <= self.row(item@.label).full.len(),
            index <= self.row(item@.label).suff.len(),
        ensures
            r == ratio(
                prefix_sum(self.row(item@.label).suff, index as nat),
                prefix_sum(self.row(item@.label).full, index as nat),
            ),
    {
        self.ind_scr.scr(index, item.get_label())
    }

    /// Logs what a request for `item` has cost: nothing on a hit, the item's
    /// cost on a fault.
    pub fn log(&mut self, item: &Item, request_type: RequestFullOrSuffix)
        requires
            old(self).wf(),
            old(self).tracks(item@.label),
            channel_len(old(self)@, request_type) < u32::MAX,
        ensures
            final(self).wf(),
            final(self)@ == logged(old(self)@, item@.label, item@.cost, request_type),
            labels_of_costs(final(self)@.items) == labels_of_costs(old(self)@.items),
            forall|other: Seq<char>|
                other != item@.label && old(self).tracks(other) ==> #[trigger] row_of(
                    final(self)@.items,
                    other,
                ) == row_of(old(self)@.items, other),
            request_type matches RequestFullOrSuffix::Full(is_hit) ==> {
                &&& final(self)@.full_cost == old(self)@.full_cost.push(charged(item@.cost, is_hit))
                &&& final(self)@.suff_cost == old(self)@.suff_cost
                &&& final(self).row(item@.label).full == old(self).row(item@.label).full.push(
                    charged(item@.cost, is_hit),
                )
                &&& final(self).row(item@.label).suff == old(self).row(item@.label).suff
            },
            request_type matches RequestFullOrSuffix::Suff(is_hit) ==> {
                &&& final(self)@.suff_cost == old(self)@.suff_cost.push(charged(item@.cost, is_hit))
                &&& final(self)@.full_cost == old(self)@.full_cost
                &&& final(self).row(item@.label).suff == old(self).row(item@.label).suff.push(
                    charged(item@.cost, is_hit),
                )
                &&& final(self).row(item@.label).full == old(self).row(item@.label).full
            },
    {
        proof {
            lemma_logged(self@, item@.label, item@.cost, request_type);
            match request_type {
                RequestFullOrSuffix::Full(is_hit) => {
                    lemma_entered(self@.items, item@.label, request_type, charged(item@.cost, is_hit));
                },
                RequestFullOrSuffix::Suff(is_hit) => {
                    lemma_entered(self@.items, item@.label, request_type, charged(item@.cost, is_hit));
                },
            }
            lemma_position(labels_of_costs(self@.items), item@.label);
        }
        let cost: u32 = item.get_cost();
        match request_type {
            RequestFullOrSuffix::Full(is_hit) => {
                let amount: u32 = if is_hit { 0 } else { cost };
                self.full_cost.push(amount);
                self.ind_scr.enter(item.get_label(), request_type, amount);
            },
            RequestFullOrSuffix::Suff(is_hit) => {
                let amount: u32 = if is_hit { 0 } else { cost };
                self.suff_cost.push(amount);
                self.ind_scr.enter(item.get_label(), request_type, amount);
            },
        }
    }

    /// The costs to the full cache, request by request.
    pub fn full_costs(&self) -> (costs: &Vec<u32>)
        ensures
            costs@ == self@.full_cost,
    {
        &self.full_cost
    }

    /// The costs to the suffix cache, request by request.
    pub fn suff_costs(&self) -> (costs: &Vec<u32>)
        ensures
            costs@ == self@.suff_cost,
    {
        &self.suff_cost
    }

    /// The costs item by item.
    pub fn ind_scr(&self) -> (ind_scr: &IndScr)
        ensures
            ind_scr@ == self@.items,
    {
        &self.ind_scr
    }

    /// Takes the ledger apart.
    pub fn into_parts(self) -> (parts: (Vec<u32>, Vec<u32>, IndScr))
        ensures
            parts.0@ == self@.full_cost,
            parts.1@ == self@.suff_cost,
            parts.2@ == self@.items,
    {
        (self.full_cost, self.suff_cost, self.ind_scr)
    }
}

} // verus!
