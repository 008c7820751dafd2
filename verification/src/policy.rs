//! The closed sets of hit and tiebreaking policies, and their names.

use vstd::prelude::*;
use vstd::string::StrSliceExecFns;

verus! {

/// How the credit of an item is refreshed when a request hits it.
#[derive(Clone, Copy, Debug, PartialEq, Eq, Structural)]
pub enum HitPolicy {
    /// Back to the item's whole cost.
    Lru,
    /// Left as it is.
    Fifo,
    /// Somewhere between what is left and the whole cost, drawn at random.
    Rand,
    /// Half of what the item has used up.
    Half,
}

/// How a victim is chosen among several items whose credit has run out.
#[derive(Clone, Copy, Debug, PartialEq, Eq, Structural)]
pub enum TiebreakingPolicy {
    /// The least recently requested goes first.
    Lru,
    /// The one fetched longest ago goes first.
    Fifo,
    /// Items stand in random order.
    Rand,
}

/// The upper-case form of an ASCII letter; any other character is unchanged.
pub open spec fn upper(c: char) -> char {
    if 'a' <= c && c <= 'z' {
        ((c as u32 - 32) as u8) as char
    } else {
        c
    }
}

/// Whether `name` spells `word` when the case of ASCII letters is ignored.
/// `word` is expected in upper case.
pub open spec fn spells(name: Seq<char>, word: Seq<char>) -> bool {
    &&& name.len() == word.len()
    &&& forall|i: int| 0 <= i < name.len() ==> upper(#[trigger] name[i]) == word[i]
}

/// The hit policy that a name stands for, if any.
pub open spec fn hit_policy_named(name: Seq<char>) -> Option<HitPolicy> {
    if spells(name, "LRU"@) {
        Some(HitPolicy::Lru)
    } else if spells(name, "FIFO"@) {
        Some(HitPolicy::Fifo)
    } else if spells(name, "RAND"@) {
        Some(HitPolicy::Rand)
    } else if spells(name, "HALF"@) {
        Some(HitPolicy::Half)
    } else {
        None
    }
}

/// The tiebreaking policy that a name stands for, if any.
pub open spec fn tiebreaking_policy_named(name: Seq<char>) -> Option<TiebreakingPolicy> {
    if spells(name, "LRU"@) {
        Some(TiebreakingPolicy::Lru)
    } else if spells(name, "FIFO"@) {
        Some(TiebreakingPolicy::Fifo)
    } else if spells(name, "RAND"@) {
        Some(TiebreakingPolicy::Rand)
    } else {
        None
    }
}

fn to_upper(c: char) -> (u: char)
    ensures
        u == upper(c),
{
    if 'a' <= c && c <= 'z' {
        ((c as u32 - 32) as u8) as char
    } else {
        c
    }
}

fn is_spelling_of(name: &str, word: &str) -> (same: bool)
    ensures
        same == spells(name@, word@),
{
    let n: usize = name.unicode_len();
    if n != word.unicode_len() {
        return false;
    }
    let mut i: usize = 0;
    while i < n
        invariant
            i <= n,
            n == name@.len(),
            n == word@.len(),
            forall|j: int| 0 <= j < i ==> upper(#[trigger] name@[j]) == word@[j],
        decreases n - i,
    {
        if to_upper(name.get_char(i)) != word.get_char(i) {
            return false;
        }
        i += 1;
    }
    true
}

impl HitPolicy {
    /// Reads a hit policy from its name: `LRU`, `FIFO`, `RAND` or `HALF`, in any case.
    pub fn parse(name: &str) -> (policy: Option<HitPolicy>)
        ensures
            policy == hit_policy_named(name@),
    {
        if is_spelling_of(name, "LRU") {
            Some(HitPolicy::Lru)
        } else if is_spelling_of(name, "FIFO") {
            Some(HitPolicy::Fifo)
        } else if is_spelling_of(name, "RAND") {
            Some(HitPolicy::Rand)
        } else if is_spelling_of(name, "HALF") {
            Some(HitPolicy::Half)
        } else {
            None
        }
    }
}

impl TiebreakingPolicy {
    /// Reads a tiebreaking policy from its name: `LRU`, `FIFO` or `RAND`, in any case.
    pub fn parse(name: &str) -> (policy: Option<TiebreakingPolicy>)
        ensures
            policy == tiebreaking_policy_named(name@),
    {
        if is_spelling_of(name, "LRU") {
            Some(TiebreakingPolicy::Lru)
        } else if is_spelling_of(name, "FIFO") {
            Some(TiebreakingPolicy::Fifo)
        } else if is_spelling_of(name, "RAND") {
            Some(TiebreakingPolicy::Rand)
        } else {
            None
        }
    }
}

} // verus!
