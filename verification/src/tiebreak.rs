//! The tiebreak order: the cached items in the order in which they would be
//! given up when several run out of credit at once.

use vstd::prelude::*;
use crate::labels::{distinct, first_in, position, spelled, lemma_first_in, lemma_first_in_is, lemma_position};
use crate::policy::TiebreakingPolicy;
use crate::prng::{Prng, after_draw, drawn};

verus! {

/// The order after a newly fetched item has been put in: at the back, or for
/// the random policy at an index drawn from `0 ..= order.len()`.
pub open spec fn placed(
    order: Seq<Seq<char>>,
    label: Seq<char>,
    policy: TiebreakingPolicy,
    rng: u64,
) -> Seq<Seq<char>> {
    match policy {
        TiebreakingPolicy::Lru | TiebreakingPolicy::Fifo => order.push(label),
        TiebreakingPolicy::Rand => order.insert((drawn(rng) as nat % (order.len() + 1)) as int, label),
    }
}

/// The order after a request has hit `label`: moved to the back for LRU, left
/// in place for FIFO, taken out and put in again at a random index for the
/// random policy.
pub open spec fn touched(
    order: Seq<Seq<char>>,
    label: Seq<char>,
    policy: TiebreakingPolicy,
    rng: u64,
) -> Seq<Seq<char>> {
    match policy {
        TiebreakingPolicy::Lru => order.remove(position(order, label)).push(label),
        TiebreakingPolicy::Fifo => order,
        TiebreakingPolicy::Rand => placed(order.remove(position(order, label)), label, policy, rng),
    }
}

/// The generator after the order has been updated once under `policy`: only
/// the random policy draws, and it draws once.
pub open spec fn rng_after_update(policy: TiebreakingPolicy, rng: u64) -> u64 {
    match policy {
        TiebreakingPolicy::Rand => after_draw(rng),
        _ => rng,
    }
}

/// The label that is given up: the first in the order among `zeros`.
pub open spec fn picked(order: Seq<Seq<char>>, zeros: Set<Seq<char>>) -> Seq<char> {
    order[first_in(order, zeros)]
}

/// Inserting a label that is not there keeps the labels distinct.
pub proof fn lemma_distinct_insert(order: Seq<Seq<char>>, i: int, label: Seq<char>)
    requires
        distinct(order),
        !order.contains(label),
        0 <= i <= order.len(),
    ensures
        distinct(order.insert(i, label)),
        order.insert(i, label).to_set() == order.to_set().insert(label),
{
    let after = order.insert(i, label);
    assert forall|a: int, b: int| 0 <= a < b < after.len() implies after[a] != after[b] by {
        if a == i {
            assert(after[b] == order[b - 1]);
        } else if b == i {
            assert(after[a] == order[a]);
        } else {
            let a0 = if a < i { a } else { a - 1 };
            let b0 = if b < i { b } else { b - 1 };
            assert(after[a] == order[a0] && after[b] == order[b0]);
        }
    }
    assert forall|l: Seq<char>| after.to_set().contains(l) <==> order.to_set().insert(label).contains(l) by {
        if after.contains(l) {
            let k = choose|k: int| 0 <= k < after.len() && after[k] == l;
            if k < i {
                assert(order[k] == l);
            } else if k > i {
                assert(order[k - 1] == l);
            }
        }
        if order.contains(l) {
            let k = choose|k: int| 0 <= k < order.len() && order[k] == l;
            if k < i {
                assert(after[k] == l);
            } else {
                assert(after[k + 1] == l);
            }
        }
        if l == label {
            assert(after[i] == l);
        }
    }
    assert(after.to_set() =~= order.to_set().insert(label));
}

/// Removing a label keeps the others, and keeps them distinct.
pub proof fn lemma_distinct_remove(order: Seq<Seq<char>>, label: Seq<char>)
    requires
        distinct(order),
        order.contains(label),
    ensures
        distinct(order.remove(position(order, label))),
        !order.remove(position(order, label)).contains(label),
        order.remove(position(order, label)).to_set() == order.to_set().remove(label),
        order.remove(position(order, label)).len() + 1 == order.len(),
{
    lemma_position(order, label);
    let p = position(order, label);
    let after = order.remove(p);
    assert forall|a: int| 0 <= a < after.len() implies #[trigger] after[a] == order[if a < p { a } else { a + 1 }] by {}
    assert forall|a: int, b: int| 0 <= a < b < after.len() implies after[a] != after[b] by {
        assert(after[a] == order[if a < p { a } else { a + 1 }]);
        assert(after[b] == order[if b < p { b } else { b + 1 }]);
    }
    assert forall|a: int| 0 <= a < after.len() implies #[trigger] after[a] != label by {
        assert(after[a] == order[if a < p { a } else { a + 1 }]);
    }
    assert forall|l: Seq<char>| after.to_set().contains(l) <==> order.to_set().remove(label).contains(l) by {
        if after.contains(l) {
            let k = choose|k: int| 0 <= k < after.len() && after[k] == l;
            assert(after[k] == order[if k < p { k } else { k + 1 }]);
        }
        if order.contains(l) && l != label {
            let k = choose|k: int| 0 <= k < order.len() && order[k] == l;
            if k < p {
                assert(after[k] == l);
            } else {
                assert(after[k - 1] == l);
            }
        }
    }
    assert(after.to_set() =~= order.to_set().remove(label));
}

/// Putting a new label in keeps the labels distinct and adds it to their set.
pub proof fn lemma_placed(order: Seq<Seq<char>>, label: Seq<char>, policy: TiebreakingPolicy, rng: u64)
    requires
        distinct(order),
        !order.contains(label),
    ensures
        distinct(placed(order, label, policy, rng)),
        placed(order, label, policy, rng).to_set() == order.to_set().insert(label),
        placed(order, label, policy, rng).len() == order.len() + 1,
{
    match policy {
        TiebreakingPolicy::Rand => {
            lemma_distinct_insert(order, (drawn(rng) as nat % (order.len() + 1)) as int, label);
        },
        _ => {
            assert(order.push(label) =~= order.insert(order.len() as int, label));
            lemma_distinct_insert(order, order.len() as int, label);
        },
    }
}

/// Touching a label keeps the labels distinct and their set as it was.
pub proof fn lemma_touched(order: Seq<Seq<char>>, label: Seq<char>, policy: TiebreakingPolicy, rng: u64)
    requires
        distinct(order),
        order.contains(label),
    ensures
        distinct(touched(order, label, policy, rng)),
        touched(order, label, policy, rng).to_set() == order.to_set(),
        touched(order, label, policy, rng).len() == order.len(),
{
    lemma_distinct_remove(order, label);
    let rest = order.remove(position(order, label));
    match policy {
        TiebreakingPolicy::Fifo => {},
        TiebreakingPolicy::Lru => {
            lemma_placed(rest, label, TiebreakingPolicy::Lru, rng);
            assert(order.to_set().remove(label).insert(label) =~= order.to_set());
        },
        TiebreakingPolicy::Rand => {
            lemma_placed(rest, label, TiebreakingPolicy::Rand, rng);
            assert(order.to_set().remove(label).insert(label) =~= order.to_set());
        },
    }
}

/// The cached items in tiebreak order, by label.
pub struct TiebreakOrder {
    order: Vec<String>,
}

impl View for TiebreakOrder {
    type V = Seq<Seq<char>>;

    closed spec fn view(&self) -> Seq<Seq<char>> {
        spelled(self.order@)
    }
}

fn among(list: &Vec<String>, label: &String) -> (found: bool)
    ensures
        found == spelled(list@).contains(label@),
{
    let mut i: usize = 0;
    while i < list.len()
        invariant
            i <= list.len(),
            forall|j: int| 0 <= j < i ==> #[trigger] spelled(list@)[j] != label@,
        decreases list.len() - i,
    {
        if list[i] == *label {
            assert(spelled(list@)[i as int] == label@);
            return true;
        }
        i += 1;
    }
    false
}

impl TiebreakOrder {
    /// No item stands in the order twice.
    pub open spec fn wf(&self) -> bool {
        distinct(self@)
    }

    /// An empty order.
    pub fn new() -> (order: TiebreakOrder)
        ensures
            order.wf(),
            order@ == Seq::<Seq<char>>::empty(),
    {
        let order = TiebreakOrder { order: Vec::new() };
        assert(order@ =~= Seq::<Seq<char>>::empty());
        order
    }

    /// The number of items in the order.
    pub fn len(&self) -> (len: usize)
        ensures
            len == self@.len(),
    {
        self.order.len()
    }

    fn find(&self, label: &String) -> (found: Option<usize>)
        ensures
            found is Some <==> self@.contains(label@),
            found matches Some(i) ==> i == position(self@, label@) && i < self@.len(),
    {
        let mut i: usize = 0;
        while i < self.order.len()
            invariant
                i <= self.order.len(),
                self@.len() == self.order.len(),
                forall|j: int| 0 <= j < i ==> #[trigger] self@[j] != label@,
            decreases self.order.len() - i,
        {
            if self.order[i] == *label {
                proof {
                    lemma_position(self@, label@);
                    assert(self@[i as int] == label@);
                }
                return Some(i);
            }
            i += 1;
        }
        None
    }

    /// Whether the item with this label stands in the order.
    pub fn contains(&self, label: &String) -> (held: bool)
        ensures
            held == self@.contains(label@),
    {
        self.find(label).is_some()
    }

    /// The labels in tiebreak order: the first is the first to be given up.
    pub fn labels(&self) -> (labels: Vec<String>)
        ensures
            spelled(labels@) == self@,
    {
        let mut labels: Vec<String> = Vec::new();
        let mut i: usize = 0;
        while i < self.order.len()
            invariant
                i <= self.order.len(),
                labels.len() == i,
                forall|j: int| 0 <= j < i ==> #[trigger] spelled(labels@)[j] == self@[j],
            decreases self.order.len() - i,
        {
            let ghost before = spelled(labels@);
            labels.push(self.order[i].clone());
            assert(spelled(labels@) =~= before.push(self@[i as int]));
            i += 1;
        }
        assert(spelled(labels@) =~= self@);
        labels
    }

    /// Puts a newly fetched item into the order.
    pub fn insert_on_fault(&mut self, label: &String, policy: TiebreakingPolicy, rng: &mut Prng)
        requires
            old(self).wf(),
            !old(self)@.contains(label@),
            old(self)@.len() < usize::MAX,
        ensures
            final(self).wf(),
            final(self)@ == placed(old(self)@, label@, policy, old(rng)@),
            final(rng)@ == rng_after_update(policy, old(rng)@),
    {
        proof {
            lemma_placed(self@, label@, policy, rng@);
        }
        match policy {
            TiebreakingPolicy::Lru | TiebreakingPolicy::Fifo => {
                self.order.push(label.clone());
                assert(self@ =~= old(self)@.push(label@));
            },
            TiebreakingPolicy::Rand => {
                let i: u64 = rng.below((self.order.len() + 1) as u64);
                self.order.insert(i as usize, label.clone());
                assert(self@ =~= old(self)@.insert(i as int, label@));
            },
        }
    }

    /// Records that a request has hit a cached item.
    pub fn touch_on_hit(&mut self, label: &String, policy: TiebreakingPolicy, rng: &mut Prng)
        requires
            old(self).wf(),
            old(self)@.contains(label@),
        ensures
            final(self).wf(),
            final(self)@ == touched(old(self)@, label@, policy, old(rng)@),
            final(rng)@ == rng_after_update(policy, old(rng)@),
    {
        proof {
            lemma_touched(self@, label@, policy, rng@);
            lemma_distinct_remove(self@, label@);
        }
        match policy {
            TiebreakingPolicy::Fifo => {},
            TiebreakingPolicy::Lru | TiebreakingPolicy::Rand => {
                let ghost before: usize = self.order.len();
                assert(self@.len() == before);
                self.remove(label);
                self.insert_on_fault(label, policy, rng);
            },
        }
    }

    /// Drops a label from the order.
    pub fn remove(&mut self, label: &String)
        requires
            old(self).wf(),
            old(self)@.contains(label@),
        ensures
            final(self).wf(),
            final(self)@ == old(self)@.remove(position(old(self)@, label@)),
    {
        let found = self.find(label);
        let i: usize = found.unwrap();
        proof {
            lemma_distinct_remove(self@, label@);
        }
        self.order.remove(i);
        assert(self@ =~= old(self)@.remove(i as int));
    }

    /// Of the items whose credit has run out, the one that is given up: the
    /// first of them in the order.
    pub fn pick(&self, zeros: &Vec<String>) -> (victim: String)
        requires
            zeros.len() > 0,
            spelled(zeros@).to_set().subset_of(self@.to_set()),
        ensures
            victim@ == picked(self@, spelled(zeros@).to_set()),
            spelled(zeros@).contains(victim@),
            self@.contains(victim@),
            forall|j: int|
                0 <= j < first_in(self@, spelled(zeros@).to_set()) ==> !spelled(zeros@).contains(
                    #[trigger] self@[j],
                ),
    {
        let ghost among_zeros = spelled(zeros@).to_set();
        proof {
            lemma_first_in(self@, among_zeros);
            assert(among_zeros.contains(spelled(zeros@)[0]));
            assert(self@.to_set().contains(spelled(zeros@)[0]));
        }
        if zeros.len() == 1 {
            // The only candidate is the first of the candidates.
            proof {
                let first = self@[first_in(self@, among_zeros)];
                assert(spelled(zeros@).contains(first));
                let i = choose|i: int| 0 <= i < spelled(zeros@).len() && spelled(zeros@)[i] == first;
                assert(i == 0);
            }
            return zeros[0].clone();
        }
        let mut k: usize = 0;
        while k < self.order.len()
            invariant
                k <= self.order.len(),
                self@.len() == self.order.len(),
                among_zeros == spelled(zeros@).to_set(),
                forall|j: int| 0 <= j < k ==> !among_zeros.contains(#[trigger] self@[j]),
                first_in(self@, among_zeros) < self@.len(),
            decreases self.order.len() - k,
        {
            if among(zeros, &self.order[k]) {
                proof {
                    assert(self@[k as int] == self.order[k as int]@);
                    lemma_first_in_is(self@, among_zeros, k as int);
                }
                return self.order[k].clone();
            }
            k += 1;
        }
        proof {
            lemma_first_in(self@, among_zeros);
        }
        zeros[0].clone()
    }
}

} // verus!
