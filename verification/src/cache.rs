//! The cache: which items are held, with how much credit, within a capacity.

use vstd::prelude::*;
use crate::credit::{charge, charge_for, full_credit, rate_is_below};
use crate::item::Item;
use crate::labels::{position, lemma_position, spelled};
use crate::slots::{
    Slot, cheaper, credit_of, decay, labels_of, lowest, lowest_in, lowest_rate, pay, slots_bounded,
    slots_wf, total_size, with_credit, without, zero_labels, lemma_decay, lemma_lowest,
    lemma_lowest_in, lemma_push, lemma_with_credit, lemma_without, lemma_size_within_total,
};

verus! {

struct CacheEntry {
    item: Item,
    credit: u64,
}

/// What a [`Cache`] stands for in contracts: its capacity and its slots, in
/// the order in which the items came in.
pub struct CacheView {
    pub capacity: u32,
    pub slots: Seq<Slot>,
}

/// A mapping from cached items to their credit, with the room they take.
pub struct Cache {
    capacity: u32,
    occupied: u32,
    entries: Vec<CacheEntry>,
}

spec fn slots_of(entries: Seq<CacheEntry>) -> Seq<Slot> {
    entries.map_values(
        |e: CacheEntry|
            Slot { label: e.item@.label, cost: e.item@.cost, size: e.item@.size, credit: e.credit as nat },
    )
}

impl View for Cache {
    type V = CacheView;

    closed spec fn view(&self) -> CacheView {
        CacheView { capacity: self.capacity, slots: slots_of(self.entries@) }
    }
}

impl Cache {
    /// The running sum of sizes agrees with the slots.
    pub closed spec fn accounted(&self) -> bool {
        self.occupied as nat == total_size(slots_of(self.entries@))
    }

    /// The cache's invariant: see [`slots_wf`].
    pub open spec fn wf(&self) -> bool {
        &&& self.accounted()
        &&& slots_wf(self@.slots, self@.capacity)
    }

    /// Whether an item with this label is cached.
    pub open spec fn holds(&self, label: Seq<char>) -> bool {
        labels_of(self@.slots).contains(label)
    }

    /// An empty cache of the given capacity.
    pub fn new(capacity: u32) -> (cache: Cache)
        ensures
            cache.wf(),
            cache@.capacity == capacity,
            cache@.slots == Seq::<Slot>::empty(),
    {
        let cache = Cache { capacity, occupied: 0, entries: Vec::new() };
        assert(cache@.slots =~= Seq::<Slot>::empty());
        cache
    }

    pub fn capacity(&self) -> (capacity: u32)
        ensures
            capacity == self@.capacity,
    {
        self.capacity
    }

    /// The room taken by the cached items.
    pub fn occupied(&self) -> (occupied: u32)
        requires
            self.wf(),
        ensures
            occupied == total_size(self@.slots),
            occupied <= self@.capacity,
    {
        self.occupied
    }

    /// The number of cached items.
    pub fn len(&self) -> (len: usize)
        ensures
            len == self@.slots.len(),
    {
        self.entries.len()
    }

    fn find(&self, label: &String) -> (found: Option<usize>)
        ensures
            found is Some <==> self.holds(label@),
            found matches Some(i) ==> i == position(labels_of(self@.slots), label@) && i
                < self@.slots.len(),
    {
        let ghost labels = labels_of(self@.slots);
        let mut i: usize = 0;
        while i < self.entries.len()
            invariant
                i <= self.entries.len(),
                labels == labels_of(self@.slots),
                labels.len() == self.entries.len(),
                forall|j: int| 0 <= j < i ==> #[trigger] labels[j] != label@,
            decreases self.entries.len() - i,
        {
            if *self.entries[i].item.get_label() == *label {
                proof {
                    lemma_position(labels, label@);
                    assert(labels[i as int] == label@);
                }
                return Some(i);
            }
            i += 1;
        }
        None
    }

    /// Whether an item with this label is cached.
    pub fn contains(&self, label: &String) -> (held: bool)
        ensures
            held == self.holds(label@),
    {
        self.find(label).is_some()
    }

    /// The credit that the item with this label has left.
    pub fn get_credit(&self, label: &String) -> (credit: u64)
        requires
            self.holds(label@),
        ensures
            credit == credit_of(self@.slots, label@),
    {
        let found = self.find(label);
        self.entries[found.unwrap()].credit
    }

    /// Takes a new item in, with the given credit.
    pub fn insert(&mut self, item: &Item, credit: u64)
        requires
            old(self).wf(),
            !old(self).holds(item@.label),
            item@.size >= 1,
            total_size(old(self)@.slots) + item@.size <= old(self)@.capacity,
            credit <= full_credit(item@.cost),
        ensures
            final(self).wf(),
            final(self)@.capacity == old(self)@.capacity,
            final(self)@.slots == old(self)@.slots.push(
                Slot { label: item@.label, cost: item@.cost, size: item@.size, credit: credit as nat },
            ),
    {
        let ghost slot = Slot {
            label: item@.label,
            cost: item@.cost,
            size: item@.size,
            credit: credit as nat,
        };
        proof {
            lemma_push(self@.slots, self@.capacity, slot);
        }
        self.occupied = self.occupied + item.get_size();
        self.entries.push(CacheEntry { item: item.duplicate(), credit });
        assert(self@.slots =~= old(self)@.slots.push(slot));
    }

    /// Drops the item with this label, and frees its room.
    pub fn remove(&mut self, label: &String)
        requires
            old(self).wf(),
            old(self).holds(label@),
        ensures
            final(self).wf(),
            final(self)@.capacity == old(self)@.capacity,
            final(self)@.slots == without(old(self)@.slots, label@),
    {
        let found = self.find(label);
        let i: usize = found.unwrap();
        proof {
            lemma_without(self@.slots, self@.capacity, label@);
            lemma_size_within_total(self@.slots, i as int);
        }
        let gone = self.entries.remove(i);
        self.occupied = self.occupied - gone.item.get_size();
        assert(self@.slots =~= without(old(self)@.slots, label@));
    }

    /// Sets the credit of the item with this label.
    pub fn set_credit(&mut self, label: &String, credit: u64)
        requires
            old(self).wf(),
            old(self).holds(label@),
            credit <= full_credit(
                old(self)@.slots[position(labels_of(old(self)@.slots), label@)].cost,
            ),
        ensures
            final(self).wf(),
            final(self)@.capacity == old(self)@.capacity,
            final(self)@.slots == with_credit(old(self)@.slots, label@, credit as nat),
    {
        let found = self.find(label);
        let i: usize = found.unwrap();
        proof {
            lemma_with_credit(self@.slots, self@.capacity, label@, credit as nat);
        }
        self.entries[i].credit = credit;
        assert(self@.slots =~= with_credit(old(self)@.slots, label@, credit as nat));
    }

    /// The cost of the cached item with this label.
    pub fn get_cost(&self, label: &String) -> (cost: u32)
        requires
            self.holds(label@),
        ensures
            cost == self@.slots[position(labels_of(self@.slots), label@)].cost,
    {
        let found = self.find(label);
        self.entries[found.unwrap()].item.get_cost()
    }

    fn lowest_index(&self) -> (m: usize)
        requires
            self.wf(),
            self@.slots.len() > 0,
        ensures
            m == lowest(self@.slots),
            m < self@.slots.len(),
    {
        let ghost slots = self@.slots;
        let mut m: usize = 0;
        let mut i: usize = 1;
        while i < self.entries.len()
            invariant
                1 <= i <= self.entries.len(),
                slots == self@.slots,
                slots.len() == self.entries.len(),
                slots_bounded(slots),
                m == lowest_in(slots, i as nat),
                m < i,
            decreases self.entries.len() - i,
        {
            proof {
                lemma_lowest_in(slots, (i + 1) as nat);
            }
            let here = &self.entries[i];
            let best = &self.entries[m];
            if rate_is_below(here.credit, here.item.get_size(), best.credit, best.item.get_size()) {
                m = i;
            }
            i += 1;
        }
        m
    }

    /// The label of the cached item with the least credit per unit of room,
    /// and that credit per unit of room, rounded down.
    pub fn min_normalized(&self) -> (found: (&String, u64))
        requires
            self.wf(),
            self@.slots.len() > 0,
        ensures
            found.0@ == self@.slots[lowest(self@.slots)].label,
            found.1 == lowest_rate(self@.slots),
            self.holds(found.0@),
            forall|j: int|
                0 <= j < self@.slots.len() ==> !cheaper(
                    #[trigger] self@.slots[j],
                    self@.slots[lowest(self@.slots)],
                ),
    {
        proof {
            lemma_lowest(self@.slots);
        }
        let m = self.lowest_index();
        assert(labels_of(self@.slots)[m as int] == self@.slots[m as int].label);
        let entry = &self.entries[m];
        (entry.item.get_label(), entry.credit / (entry.item.get_size() as u64))
    }

    /// One round of decay: every cached item pays, for each unit of its room,
    /// the least credit per unit of room found in the cache, so that the
    /// items with that least rate are left without credit. What an item pays
    /// is rounded down to a whole credit unit.
    pub fn decay(&mut self)
        requires
            old(self).wf(),
            old(self)@.slots.len() > 0,
        ensures
            final(self).wf(),
            final(self)@.capacity == old(self)@.capacity,
            final(self)@.slots == decay(old(self)@.slots),
            final(self)@.slots.len() == old(self)@.slots.len(),
            forall|j: int|
                0 <= j < old(self)@.slots.len() ==> (#[trigger] final(self)@.slots[j]).credit + charge(
                    old(self)@.slots[lowest(old(self)@.slots)].credit,
                    old(self)@.slots[lowest(old(self)@.slots)].size as nat,
                    old(self)@.slots[j].size as nat,
                ) == old(self)@.slots[j].credit,
            final(self)@.slots[lowest(old(self)@.slots)].credit == 0,
    {
        let m = self.lowest_index();
        let credit: u64 = self.entries[m].credit;
        let per: u32 = self.entries[m].item.get_size();
        let ghost before = self@.slots;
        let ghost at = before[m as int];
        proof {
            lemma_lowest(before);
            lemma_decay(before);
        }
        let n: usize = self.entries.len();
        let mut i: usize = 0;
        while i < n
            invariant
                i <= n,
                n == before.len(),
                self@.slots.len() == n,
                self.capacity == old(self).capacity,
                self.occupied == old(self).occupied,
                at == before[lowest(before)],
                at.credit == credit,
                at.size == per,
                per >= 1,
                forall|j: int| 0 <= j < n ==> !cheaper(#[trigger] before[j], at),
                forall|j: int| 0 <= j < i ==> #[trigger] self@.slots[j] == pay(before[j], at),
                forall|j: int| i <= j < n ==> #[trigger] self@.slots[j] == before[j],
            decreases n - i,
        {
            let size: u32 = self.entries[i].item.get_size();
            let budget: u64 = self.entries[i].credit;
            assert(self@.slots[i as int] == before[i as int]);
            assert(!cheaper(before[i as int], at));
            let owed = charge_for(credit, per, size, budget);
            let ghost mid = self@.slots;
            self.entries[i].credit = budget - owed;
            assert forall|j: int| 0 <= j < n implies #[trigger] self@.slots[j] == (if j == i {
                pay(before[j], at)
            } else {
                mid[j]
            }) by {}
            i += 1;
        }
        assert(self@.slots =~= decay(before));
    }

    /// The labels of the cached items whose credit has run out.
    pub fn zeros(&self) -> (labels: Vec<String>)
        ensures
            spelled(labels@).to_set() == zero_labels(self@.slots),
    {
        let ghost slots = self@.slots;
        let mut labels: Vec<String> = Vec::new();
        let mut i: usize = 0;
        while i < self.entries.len()
            invariant
                i <= self.entries.len(),
                slots == self@.slots,
                slots.len() == self.entries.len(),
                forall|l: Seq<char>|
                    spelled(labels@).contains(l) <==> exists|j: int|
                        0 <= j < i && (#[trigger] slots[j]).label == l && slots[j].credit == 0,
            decreases self.entries.len() - i,
        {
            let ghost before = spelled(labels@);
            if self.entries[i].credit == 0 {
                let label = self.entries[i].item.get_label().clone();
                labels.push(label);
                assert(spelled(labels@) =~= before.push(slots[i as int].label));
                assert forall|l: Seq<char>| spelled(labels@).contains(l) <==> exists|j: int|
                    0 <= j < i + 1 && (#[trigger] slots[j]).label == l && slots[j].credit == 0 by {
                    if spelled(labels@).contains(l) {
                        let k = choose|k: int| 0 <= k < spelled(labels@).len() && spelled(labels@)[k] == l;
                        if k < before.len() {
                            assert(before[k] == l);
                            assert(before.contains(l));
                        } else {
                            assert(slots[i as int].label == l);
                        }
                    }
                    if exists|j: int| 0 <= j < i + 1 && (#[trigger] slots[j]).label == l && slots[j].credit == 0 {
                        let j = choose|j: int| 0 <= j < i + 1 && (#[trigger] slots[j]).label == l && slots[j].credit == 0;
                        if j < i {
                            assert(before.contains(l));
                            let k = choose|k: int| 0 <= k < before.len() && before[k] == l;
                            assert(spelled(labels@)[k] == l);
                        } else {
                            assert(spelled(labels@)[before.len() as int] == l);
                        }
                    }
                }
            }
            i += 1;
        }
        assert(spelled(labels@).to_set() =~= zero_labels(slots));
        labels
    }

    /// The cached items with their credits, in the order in which they came in.
    pub fn entries(&self) -> (pairs: Vec<(Item, u64)>)
        ensures
            pairs.len() == self@.slots.len(),
            forall|i: int|
                0 <= i < pairs.len() ==> {
                    &&& (#[trigger] pairs[i]).0@.label == self@.slots[i].label
                    &&& pairs[i].0@.cost == self@.slots[i].cost
                    &&& pairs[i].0@.size == self@.slots[i].size
                    &&& pairs[i].1 == self@.slots[i].credit
                },
    {
        let mut pairs: Vec<(Item, u64)> = Vec::new();
        let mut i: usize = 0;
        while i < self.entries.len()
            invariant
                i <= self.entries.len(),
                pairs.len() == i,
                self@.slots.len() == self.entries.len(),
                forall|j: int|
                    0 <= j < i ==> {
                        &&& (#[trigger] pairs[j]).0@.label == self@.slots[j].label
                        &&& pairs[j].0@.cost == self@.slots[j].cost
                        &&& pairs[j].0@.size == self@.slots[j].size
                        &&& pairs[j].1 == self@.slots[j].credit
                    },
            decreases self.entries.len() - i,
        {
            pairs.push((self.entries[i].item.duplicate(), self.entries[i].credit));
            i += 1;
        }
        pairs
    }
}

} // verus!
