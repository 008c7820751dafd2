//! Sequences of labels: where a label stands, and which of several comes first.

use vstd::prelude::*;

verus! {

/// No label occurs twice.
pub open spec fn distinct(labels: Seq<Seq<char>>) -> bool {
    forall|i: int, j: int| 0 <= i < j < labels.len() ==> labels[i] != labels[j]
}

/// The least index at or after `from` whose label is in `among`, or the
/// length of the sequence if there is none.
pub open spec fn first_from(labels: Seq<Seq<char>>, among: Set<Seq<char>>, from: int) -> int
    decreases labels.len() - from,
{
    if from < 0 || from >= labels.len() {
        labels.len() as int
    } else if among.contains(labels[from]) {
        from
    } else {
        first_from(labels, among, from + 1)
    }
}

/// The least index whose label is in `among`, or the length if there is none.
pub open spec fn first_in(labels: Seq<Seq<char>>, among: Set<Seq<char>>) -> int {
    first_from(labels, among, 0)
}

/// The least index at which `label` stands, or the length if it is absent.
pub open spec fn position(labels: Seq<Seq<char>>, label: Seq<char>) -> int {
    first_in(labels, set![label])
}

/// The labels that a vector of strings holds, in order.
pub open spec fn spelled(strings: Seq<String>) -> Seq<Seq<char>> {
    strings.map_values(|s: String| s@)
}

/// `first_from` finds the first label of `among` at or after `from`.
pub proof fn lemma_first_from(labels: Seq<Seq<char>>, among: Set<Seq<char>>, from: int)
    requires
        0 <= from <= labels.len(),
    ensures
        from <= first_from(labels, among, from) <= labels.len(),
        first_from(labels, among, from) < labels.len() ==> among.contains(
            labels[first_from(labels, among, from)],
        ),
        forall|j: int|
            from <= j < first_from(labels, among, from) ==> !among.contains(#[trigger] labels[j]),
    decreases labels.len() - from,
{
    if from < labels.len() && !among.contains(labels[from]) {
        lemma_first_from(labels, among, from + 1);
    }
}

/// `first_in` finds the first label of `among`, and finds one exactly when
/// the sequence holds one.
pub proof fn lemma_first_in(labels: Seq<Seq<char>>, among: Set<Seq<char>>)
    ensures
        0 <= first_in(labels, among) <= labels.len(),
        first_in(labels, among) < labels.len() ==> among.contains(labels[first_in(labels, among)]),
        forall|j: int| 0 <= j < first_in(labels, among) ==> !among.contains(#[trigger] labels[j]),
        first_in(labels, among) < labels.len() <==> exists|j: int|
            0 <= j < labels.len() && among.contains(#[trigger] labels[j]),
{
    lemma_first_from(labels, among, 0);
}

/// An index is the first of `among` when its label is in `among` and no
/// earlier one is.
pub proof fn lemma_first_in_is(labels: Seq<Seq<char>>, among: Set<Seq<char>>, k: int)
    requires
        0 <= k < labels.len(),
        among.contains(labels[k]),
        forall|j: int| 0 <= j < k ==> !among.contains(#[trigger] labels[j]),
    ensures
        first_in(labels, among) == k,
{
    lemma_first_in(labels, among);
}

/// `position` finds the label exactly when the sequence holds it.
pub proof fn lemma_position(labels: Seq<Seq<char>>, label: Seq<char>)
    ensures
        0 <= position(labels, label) <= labels.len(),
        position(labels, label) < labels.len() ==> labels[position(labels, label)] == label,
        forall|j: int| 0 <= j < position(labels, label) ==> #[trigger] labels[j] != label,
        position(labels, label) < labels.len() <==> labels.contains(label),
{
    lemma_first_in(labels, set![label]);
    if labels.contains(label) {
        let j = choose|j: int| 0 <= j < labels.len() && labels[j] == label;
        assert(set![label].contains(labels[j]));
    }
}

} // verus!
