//! Requestable objects.

use std::cmp::Ordering;
use vstd::prelude::*;
use vstd::string::StrSliceExecFns;

verus! {

/// Whether `a` comes before `b` in the order of the dictionary, given that
/// the two agree before index `from`.
pub open spec fn before_from(a: Seq<char>, b: Seq<char>, from: int) -> bool
    decreases a.len() - from,
{
    if from < 0 || from >= a.len() {
        from < b.len()
    } else if from >= b.len() {
        false
    } else if a[from] != b[from] {
        a[from] < b[from]
    } else {
        before_from(a, b, from + 1)
    }
}

/// Whether the label `a` comes before the label `b`: character by character,
/// the shorter first where one is the start of the other.
pub open spec fn label_before(a: Seq<char>, b: Seq<char>) -> bool {
    before_from(a, b, 0)
}

/// How two labels stand to each other.
pub open spec fn label_order(a: Seq<char>, b: Seq<char>) -> Ordering {
    if a == b {
        Ordering::Equal
    } else if label_before(a, b) {
        Ordering::Less
    } else {
        Ordering::Greater
    }
}

proof fn lemma_before_from(a: Seq<char>, b: Seq<char>, k: usize)
    requires
        k <= a.len(),
        k <= b.len(),
        forall|j: int| 0 <= j < k ==> a[j] == b[j],
    ensures
        label_before(a, b) == before_from(a, b, k as int),
    decreases k,
{
    if k > 0 {
        lemma_before_from(a, b, (k - 1) as usize);
    }
}

fn order_of_labels(a: &str, b: &str) -> (order: Ordering)
    ensures
        order == label_order(a@, b@),
{
    let a_len: usize = a.unicode_len();
    let b_len: usize = b.unicode_len();
    let mut k: usize = 0;
    while k < a_len && k < b_len
        invariant
            k <= a_len,
            k <= b_len,
            a_len == a@.len(),
            b_len == b@.len(),
            forall|j: int| 0 <= j < k ==> a@[j] == b@[j],
        decreases a_len - k,
    {
        let x: char = a.get_char(k);
        let y: char = b.get_char(k);
        if x != y {
            proof {
                lemma_before_from(a@, b@, k);
            }
            if x < y {
                return Ordering::Less;
            } else {
                return Ordering::Greater;
            }
        }
        k += 1;
    }
    proof {
        lemma_before_from(a@, b@, k);
    }
    if a_len == b_len {
        assert(a@ =~= b@);
        Ordering::Equal
    } else if a_len < b_len {
        Ordering::Less
    } else {
        Ordering::Greater
    }
}

/// What an [`Item`] stands for in contracts.
pub struct ItemView {
    pub label: Seq<char>,
    pub cost: u32,
    pub size: u32,
}

/// A requestable object: a label that identifies it, the cost of fetching it
/// and the room it takes in a cache. Two items with the same label are the
/// same logical item.
#[derive(Clone, Debug)]
pub struct Item {
    label: String,
    cost: u32,
    size: u32,
}

impl View for Item {
    type V = ItemView;

    closed spec fn view(&self) -> ItemView {
        ItemView { label: self.label@, cost: self.cost, size: self.size }
    }
}

impl ItemView {
    /// An item fits a cache of the given capacity when it takes some room,
    /// and no more than the whole cache.
    pub open spec fn fits(self, capacity: u32) -> bool {
        1 <= self.size <= capacity
    }
}

impl PartialEq for Item {
    /// Items are equal when their labels are.
    fn eq(&self, other: &Item) -> (equal: bool) {
        self.label == other.label
    }
}

impl vstd::std_specs::cmp::PartialEqSpecImpl for Item {
    open spec fn obeys_eq_spec() -> bool {
        true
    }

    open spec fn eq_spec(&self, other: &Item) -> bool {
        self@.label == other@.label
    }
}

impl PartialOrd for Item {
    /// Items are ordered as their labels are.
    fn partial_cmp(&self, other: &Item) -> (order: Option<Ordering>) {
        Some(order_of_labels(self.label.as_str(), other.label.as_str()))
    }
}

impl vstd::std_specs::cmp::PartialOrdSpecImpl for Item {
    open spec fn obeys_partial_cmp_spec() -> bool {
        true
    }

    open spec fn partial_cmp_spec(&self, other: &Item) -> Option<Ordering> {
        Some(label_order(self@.label, other@.label))
    }
}

impl Item {
    /// An item with the given label, cost and size.
    pub fn new(label: String, cost: u32, size: u32) -> (item: Item)
        ensures
            item@ == (ItemView { label: label@, cost, size }),
    {
        Item { label, cost, size }
    }

    pub fn get_label(&self) -> (label: &String)
        ensures
            label@ == self@.label,
    {
        &self.label
    }

    pub fn get_cost(&self) -> (cost: u32)
        ensures
            cost == self@.cost,
    {
        self.cost
    }

    pub fn get_size(&self) -> (size: u32)
        ensures
            size == self@.size,
    {
        self.size
    }

    /// Whether two items are the same logical item, that is, carry the same label.
    pub fn same_as(&self, other: &Item) -> (same: bool)
        ensures
            same == (self@.label == other@.label),
    {
        self.label == other.label
    }

    /// A copy of the item.
    pub fn duplicate(&self) -> (copy: Item)
        ensures
            copy@ == self@,
    {
        Item { label: self.label.clone(), cost: self.cost, size: self.size }
    }
}

} // verus!
