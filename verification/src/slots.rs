//! The contents of a cache as a sequence of slots, and the arithmetic of one
//! round of credit decay.

use vstd::prelude::*;
use crate::credit::{charge, full_credit, rate_below, lemma_charge_takes_all, lemma_charge_within};
use crate::labels::{distinct, position, lemma_position};

verus! {

/// One cached item and the credit it has left.
pub struct Slot {
    pub label: Seq<char>,
    pub cost: u32,
    pub size: u32,
    pub credit: nat,
}

/// The labels of the slots, in order.
pub open spec fn labels_of(slots: Seq<Slot>) -> Seq<Seq<char>> {
    slots.map_values(|s: Slot| s.label)
}

/// The room that the slots take together.
pub open spec fn total_size(slots: Seq<Slot>) -> nat
    decreases slots.len(),
{
    if slots.len() == 0 {
        0
    } else {
        total_size(slots.drop_last()) + slots.last().size as nat
    }
}

/// Every slot takes some room and holds no more credit than its item costs.
pub open spec fn slots_bounded(slots: Seq<Slot>) -> bool {
    forall|i: int|
        0 <= i < slots.len() ==> 1 <= (#[trigger] slots[i]).size && slots[i].credit <= full_credit(
            slots[i].cost,
        )
}

/// What holds of the contents of a cache of the given capacity: no item is
/// cached twice, every credit lies between zero and the item's cost, and the
/// items fit the cache together.
pub open spec fn slots_wf(slots: Seq<Slot>, capacity: u32) -> bool {
    &&& distinct(labels_of(slots))
    &&& slots_bounded(slots)
    &&& total_size(slots) <= capacity
}

/// Whether `a` has less credit per unit of room than `b`.
pub open spec fn cheaper(a: Slot, b: Slot) -> bool {
    rate_below(a.credit, a.size as nat, b.credit, b.size as nat)
}

/// Among the first `n` slots, the first one with the least credit per unit of room.
pub open spec fn lowest_in(slots: Seq<Slot>, n: nat) -> int
    decreases n,
{
    if n <= 1 {
        0
    } else {
        let m = lowest_in(slots, (n - 1) as nat);
        if cheaper(slots[n - 1], slots[m]) {
            n - 1
        } else {
            m
        }
    }
}

/// The first slot with the least credit per unit of room.
pub open spec fn lowest(slots: Seq<Slot>) -> int {
    lowest_in(slots, slots.len())
}

/// The least credit per unit of room over all slots, rounded down.
pub open spec fn lowest_rate(slots: Seq<Slot>) -> nat {
    slots[lowest(slots)].credit / (slots[lowest(slots)].size as nat)
}

/// The slot `s` after every unit of room has been charged at the rate of `at`.
pub open spec fn pay(s: Slot, at: Slot) -> Slot {
    Slot { credit: (s.credit - charge(at.credit, at.size as nat, s.size as nat)) as nat, ..s }
}

/// One round of decay: every slot pays, for each unit of its room, the least
/// credit per unit of room found among the slots.
pub open spec fn decay(slots: Seq<Slot>) -> Seq<Slot> {
    slots.map_values(|s: Slot| pay(s, slots[lowest(slots)]))
}

/// The labels of the slots whose credit has run out.
pub open spec fn zero_labels(slots: Seq<Slot>) -> Set<Seq<char>> {
    Set::new(
        |l: Seq<char>|
            exists|i: int| 0 <= i < slots.len() && (#[trigger] slots[i]).label == l && slots[i].credit == 0,
    )
}

/// The credit of the slot with the given label.
pub open spec fn credit_of(slots: Seq<Slot>, label: Seq<char>) -> nat {
    slots[position(labels_of(slots), label)].credit
}

/// The slots without the one that has the given label.
pub open spec fn without(slots: Seq<Slot>, label: Seq<char>) -> Seq<Slot> {
    slots.remove(position(labels_of(slots), label))
}

/// The slots with the credit of the one labelled `label` set to `credit`.
pub open spec fn with_credit(slots: Seq<Slot>, label: Seq<char>, credit: nat) -> Seq<Slot> {
    let i = position(labels_of(slots), label);
    slots.update(i, Slot { credit, ..slots[i] })
}

/// A slot more takes its room more.
pub proof fn lemma_total_size_push(slots: Seq<Slot>, slot: Slot)
    ensures
        total_size(slots.push(slot)) == total_size(slots) + slot.size,
{
    assert(slots.push(slot).drop_last() =~= slots);
}

/// A slot less takes its room less.
pub proof fn lemma_total_size_remove(slots: Seq<Slot>, i: int)
    requires
        0 <= i < slots.len(),
    ensures
        total_size(slots.remove(i)) + slots[i].size == total_size(slots),
    decreases slots.len(),
{
    if i == slots.len() - 1 {
        assert(slots.remove(i) =~= slots.drop_last());
    } else {
        lemma_total_size_remove(slots.drop_last(), i);
        assert(slots.remove(i).drop_last() =~= slots.drop_last().remove(i));
    }
}

/// The room taken depends on the sizes of the slots alone.
pub proof fn lemma_total_size_same_sizes(a: Seq<Slot>, b: Seq<Slot>)
    requires
        a.len() == b.len(),
        forall|i: int| 0 <= i < a.len() ==> (#[trigger] a[i]).size == b[i].size,
    ensures
        total_size(a) == total_size(b),
    decreases a.len(),
{
    if a.len() > 0 {
        lemma_total_size_same_sizes(a.drop_last(), b.drop_last());
    }
}

/// A slot takes no more room than all slots together.
pub proof fn lemma_size_within_total(slots: Seq<Slot>, i: int)
    requires
        0 <= i < slots.len(),
    ensures
        slots[i].size <= total_size(slots),
{
    lemma_total_size_remove(slots, i);
}

/// Slots that each take some room are no more numerous than the room they take.
pub proof fn lemma_len_within_total(slots: Seq<Slot>)
    requires
        slots_bounded(slots),
    ensures
        slots.len() <= total_size(slots),
    decreases slots.len(),
{
    if slots.len() > 0 {
        assert(slots.last() == slots[slots.len() - 1]);
        assert forall|i: int| 0 <= i < slots.drop_last().len() implies 1 <= (#[trigger] slots.drop_last()[i]).size
            && slots.drop_last()[i].credit <= full_credit(slots.drop_last()[i].cost) by {
            assert(slots.drop_last()[i] == slots[i]);
        }
        lemma_len_within_total(slots.drop_last());
    }
}

/// Rates are ordered: what is not below the lowest so far is not below
/// anything lower.
proof fn lemma_rate_order(a: Slot, m: Slot, e: Slot)
    requires
        a.size >= 1,
        m.size >= 1,
        e.size >= 1,
        !cheaper(a, m),
        cheaper(e, m),
    ensures
        !cheaper(a, e),
{
    let (ac, asz) = (a.credit as int, a.size as int);
    let (mc, msz) = (m.credit as int, m.size as int);
    let (ec, esz) = (e.credit as int, e.size as int);
    assert(ac * esz >= ec * asz) by (nonlinear_arith)
        requires
            asz >= 1,
            msz >= 1,
            esz >= 1,
            ac >= 0,
            mc >= 0,
            ec >= 0,
            ac * msz >= mc * asz,
            ec * msz < mc * esz,
    {
        assert((ac * msz) * esz >= (mc * asz) * esz);
        assert((mc * esz) * asz >= (ec * msz) * asz);
        assert((ac * esz) * msz >= (ec * asz) * msz);
    }
}

/// Among the first `n` slots, none has less credit per unit of room than
/// the lowest of them.
pub proof fn lemma_lowest_in(slots: Seq<Slot>, n: nat)
    requires
        1 <= n <= slots.len(),
        slots_bounded(slots),
    ensures
        0 <= lowest_in(slots, n) < n,
        forall|j: int| 0 <= j < n ==> !cheaper(#[trigger] slots[j], slots[lowest_in(slots, n)]),
    decreases n,
{
    if n > 1 {
        lemma_lowest_in(slots, (n - 1) as nat);
        let m = lowest_in(slots, (n - 1) as nat);
        if cheaper(slots[n - 1], slots[m]) {
            assert forall|j: int| 0 <= j < n implies !cheaper(#[trigger] slots[j], slots[n - 1]) by {
                if j < n - 1 {
                    lemma_rate_order(slots[j], slots[m], slots[n - 1]);
                }
            }
        }
    }
}

/// No slot has less credit per unit of room than the lowest.
pub proof fn lemma_lowest(slots: Seq<Slot>)
    requires
        slots.len() > 0,
        slots_bounded(slots),
    ensures
        0 <= lowest(slots) < slots.len(),
        forall|j: int| 0 <= j < slots.len() ==> !cheaper(#[trigger] slots[j], slots[lowest(slots)]),
{
    lemma_lowest_in(slots, slots.len());
}

/// A round of decay keeps labels, costs and sizes, takes credit from no slot
/// beyond what it has, and leaves the lowest slot with none.
pub proof fn lemma_decay(slots: Seq<Slot>)
    requires
        slots.len() > 0,
        slots_bounded(slots),
    ensures
        decay(slots).len() == slots.len(),
        labels_of(decay(slots)) == labels_of(slots),
        total_size(decay(slots)) == total_size(slots),
        slots_bounded(decay(slots)),
        forall|j: int|
            0 <= j < slots.len() ==> (#[trigger] decay(slots)[j]).credit + charge(
                slots[lowest(slots)].credit,
                slots[lowest(slots)].size as nat,
                slots[j].size as nat,
            ) == slots[j].credit,
        decay(slots)[lowest(slots)].credit == 0,
        zero_labels(decay(slots)).contains(slots[lowest(slots)].label),
{
    lemma_lowest(slots);
    let m = lowest(slots);
    let after = decay(slots);
    assert forall|j: int| 0 <= j < slots.len() implies (#[trigger] after[j]).credit + charge(
        slots[m].credit,
        slots[m].size as nat,
        slots[j].size as nat,
    ) == slots[j].credit by {
        assert(!cheaper(slots[j], slots[m]));
        lemma_charge_within(slots[m].credit, slots[m].size as nat, slots[j].size as nat, slots[j].credit);
    }
    lemma_charge_takes_all(slots[m].credit, slots[m].size as nat, slots[m].size as nat, slots[m].credit);
    assert(labels_of(after) =~= labels_of(slots));
    lemma_total_size_same_sizes(after, slots);
    assert(after[m].label == slots[m].label && after[m].credit == 0);
}

/// Taking a slot out keeps the rest well formed and frees its room.
pub proof fn lemma_without(slots: Seq<Slot>, capacity: u32, label: Seq<char>)
    requires
        slots_wf(slots, capacity),
        labels_of(slots).contains(label),
    ensures
        slots_wf(without(slots, label), capacity),
        without(slots, label).len() + 1 == slots.len(),
        total_size(without(slots, label)) + slots[position(labels_of(slots), label)].size
            == total_size(slots),
        total_size(without(slots, label)) < total_size(slots),
        labels_of(without(slots, label)) == labels_of(slots).remove(
            position(labels_of(slots), label),
        ),
        !labels_of(without(slots, label)).contains(label),
{
    let labels = labels_of(slots);
    lemma_position(labels, label);
    let p = position(labels, label);
    let rest = without(slots, label);
    lemma_total_size_remove(slots, p);
    assert(labels_of(rest) =~= labels.remove(p));
    assert(slots[p].size >= 1);
    assert forall|i: int| 0 <= i < rest.len() implies #[trigger] labels_of(rest)[i] != label by {
        if i < p {
            assert(labels_of(rest)[i] == labels[i]);
        } else {
            assert(labels_of(rest)[i] == labels[i + 1]);
        }
    }
}

/// Putting a new item in keeps the slots well formed if there is room for it.
pub proof fn lemma_push(slots: Seq<Slot>, capacity: u32, slot: Slot)
    requires
        slots_wf(slots, capacity),
        !labels_of(slots).contains(slot.label),
        slot.size >= 1,
        slot.credit <= full_credit(slot.cost),
        total_size(slots) + slot.size <= capacity,
    ensures
        slots_wf(slots.push(slot), capacity),
        labels_of(slots.push(slot)) == labels_of(slots).push(slot.label),
        total_size(slots.push(slot)) == total_size(slots) + slot.size,
{
    lemma_total_size_push(slots, slot);
    assert(labels_of(slots.push(slot)) =~= labels_of(slots).push(slot.label));
    let labels = labels_of(slots);
    assert forall|i: int, j: int| 0 <= i < j < labels.len() + 1 implies labels.push(slot.label)[i]
        != labels.push(slot.label)[j] by {
        if j == labels.len() {
            assert(labels[i] != slot.label);
        }
    }
}

/// Setting a credit within the item's cost keeps the slots well formed.
pub proof fn lemma_with_credit(slots: Seq<Slot>, capacity: u32, label: Seq<char>, credit: nat)
    requires
        slots_wf(slots, capacity),
        labels_of(slots).contains(label),
        credit <= full_credit(slots[position(labels_of(slots), label)].cost),
    ensures
        slots_wf(with_credit(slots, label, credit), capacity),
        labels_of(with_credit(slots, label, credit)) == labels_of(slots),
        total_size(with_credit(slots, label, credit)) == total_size(slots),
        credit_of(with_credit(slots, label, credit), label) == credit,
{
    lemma_position(labels_of(slots), label);
    let after = with_credit(slots, label, credit);
    assert(labels_of(after) =~= labels_of(slots));
    lemma_total_size_same_sizes(after, slots);
}

} // verus!
