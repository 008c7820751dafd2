//! Fixed-point credit arithmetic.
//!
//! Credits and pressures are non-negative quantities measured in units of
//! `1 / CREDIT_SCALE` of one unit of cost. All rounding is downwards and is
//! spelled out in the contracts below.

use vstd::prelude::*;

verus! {

/// Number of credit units in one unit of cost.
pub const CREDIT_SCALE: u64 = 1_048_576;

/// The credit of an item that has just been fetched: its whole cost.
pub open spec fn full_credit(cost: u32) -> nat {
    cost as nat * CREDIT_SCALE as nat
}

/// What `size` units of room owe when every unit of room is charged at the
/// rate `credit / per`, rounded down to a whole credit unit.
pub open spec fn charge(credit: nat, per: nat, size: nat) -> nat {
    (credit * size) / per
}

/// `a / b < c / d` for non-negative numerators and positive denominators,
/// stated without division.
pub open spec fn rate_below(a: nat, b: nat, c: nat, d: nat) -> bool {
    a * d < c * b
}

/// The whole cost of an item in credit units.
pub fn credit_of_cost(cost: u32) -> (credit: u64)
    ensures
        credit == full_credit(cost),
        credit <= 0xffff_ffff * CREDIT_SCALE,
{
    assert(cost as nat * CREDIT_SCALE as nat <= 0xffff_ffff * 1_048_576) by (nonlinear_arith)
        requires
            cost <= 0xffff_ffff,
            CREDIT_SCALE == 1_048_576,
    ;
    (cost as u64) * CREDIT_SCALE
}

/// Exact comparison of two rates `a / b` and `c / d`.
pub fn rate_is_below(a: u64, b: u32, c: u64, d: u32) -> (below: bool)
    ensures
        below == rate_below(a as nat, b as nat, c as nat, d as nat),
{
    assert(a as nat * d as nat <= 0xffff_ffff_ffff_ffff * 0xffff_ffff) by (nonlinear_arith)
        requires
            a <= 0xffff_ffff_ffff_ffff,
            d <= 0xffff_ffff,
    ;
    assert(c as nat * b as nat <= 0xffff_ffff_ffff_ffff * 0xffff_ffff) by (nonlinear_arith)
        requires
            c <= 0xffff_ffff_ffff_ffff,
            b <= 0xffff_ffff,
    ;
    let left: u128 = (a as u128) * (d as u128);
    let right: u128 = (c as u128) * (b as u128);
    left < right
}

/// The charge on `size` units of room at the rate `credit / per`, given that
/// the charged party's own rate is no lower, so that it can pay.
pub fn charge_for(credit: u64, per: u32, size: u32, budget: u64) -> (owed: u64)
    requires
        per >= 1,
        !rate_below(budget as nat, size as nat, credit as nat, per as nat),
    ensures
        owed == charge(credit as nat, per as nat, size as nat),
        owed <= budget,
{
    assert(credit as nat * size as nat <= 0xffff_ffff_ffff_ffff * 0xffff_ffff) by (nonlinear_arith)
        requires
            credit <= 0xffff_ffff_ffff_ffff,
            size <= 0xffff_ffff,
    ;
    let wide: u128 = (credit as u128) * (size as u128);
    let owed: u128 = wide / (per as u128);
    proof {
        lemma_charge_within(credit as nat, per as nat, size as nat, budget as nat);
    }
    owed as u64
}

/// A party whose own rate `budget / size` is no lower than the rate charged
/// is never charged more than it has.
pub proof fn lemma_charge_within(credit: nat, per: nat, size: nat, budget: nat)
    requires
        per >= 1,
        !rate_below(budget, size, credit, per),
    ensures
        charge(credit, per, size) <= budget,
{
    assert((credit * size) / per <= budget) by (nonlinear_arith)
        requires
            per >= 1,
            credit * size <= budget * per,
    ;
}

/// A party whose own rate is strictly higher than the rate charged keeps
/// some credit.
pub proof fn lemma_charge_leaves_rest(credit: nat, per: nat, size: nat, budget: nat)
    requires
        per >= 1,
        rate_below(credit, per, budget, size),
    ensures
        charge(credit, per, size) < budget,
{
    assert((credit * size) / per < budget) by (nonlinear_arith)
        requires
            per >= 1,
            credit * size < budget * per,
    ;
}

/// A party whose rate equals the rate charged is charged all it has.
pub proof fn lemma_charge_takes_all(credit: nat, per: nat, size: nat, budget: nat)
    requires
        per >= 1,
        credit * size == budget * per,
    ensures
        charge(credit, per, size) == budget,
{
    assert((budget * per) / per == budget) by (nonlinear_arith)
        requires
            per >= 1,
    ;
}

} // verus!
