//! Rounding helpers shared by the allocator: rounding a value up to a
//! multiple of an alignment, and converting a byte count into the number of
//! atoms it occupies.

use vstd::prelude::*;

verus! {

/// What rounding up means: the least multiple of `to` that is `>= val`.
pub open spec fn round_up_spec(val: int, to: int) -> int {
    ((val + to - 1) / to) * to
}

proof fn lemma_round_up(val: int, to: int)
    requires
        0 <= val,
        1 <= to,
    ensures
        round_up_spec(val, to) % to == 0,
        val <= round_up_spec(val, to) < val + to,
        val >= 1 ==> round_up_spec(val, to) == ((val - 1) / to + 1) * to,
        val == 0 ==> round_up_spec(val, to) == 0,
{
    if val == 0 {
        vstd::arithmetic::div_mod::lemma_basic_div(to - 1, to);
        assert((to - 1) / to == 0);
        assert(round_up_spec(0, to) == ((to - 1) / to) * to);
        assert(round_up_spec(0, to) == 0);
    }
    let q = (val + to - 1) / to;
    vstd::arithmetic::div_mod::lemma_fundamental_div_mod(val + to - 1, to);
    vstd::arithmetic::div_mod::lemma_mod_bound(val + to - 1, to);
    assert(q * to == val + to - 1 - (val + to - 1) % to);
    vstd::arithmetic::div_mod::lemma_mod_multiples_basic(q, to);
    assert(q * to % to == 0);
    if val >= 1 {
        vstd::arithmetic::div_mod::lemma_div_plus_one(val - 1, to);
    }
}

/// Rounds `val` up to a multiple of `to`.
pub fn round_up_u32(val: u32, to: u32) -> (r: u32)
    requires
        1 <= to,
        val + to <= u32::MAX + 1,
    ensures
        r == round_up_spec(val as int, to as int),
        r % to == 0,
        val <= r < val + to,
{
    proof {
        lemma_round_up(val as int, to as int);
    }
    if val == 0 {
        0
    } else {
        ((val - 1) / to + 1) * to
    }
}

/// Rounds `val` up to a multiple of `to`.
pub fn round_up_u64(val: u64, to: u64) -> (r: u64)
    requires
        1 <= to,
        val + to <= u64::MAX + 1,
    ensures
        r == round_up_spec(val as int, to as int),
        r % to == 0,
        val <= r < val + to,
{
    proof {
        lemma_round_up(val as int, to as int);
    }
    if val == 0 {
        0
    } else {
        ((val - 1) / to + 1) * to
    }
}

/// Rounds `val` up to a multiple of `to`.
pub fn round_up_usize(val: usize, to: usize) -> (r: usize)
    requires
        1 <= to,
        val + to <= usize::MAX + 1,
    ensures
        r == round_up_spec(val as int, to as int),
        r % to == 0,
        val <= r < val + to,
{
    proof {
        lemma_round_up(val as int, to as int);
    }
    if val == 0 {
        0
    } else {
        ((val - 1) / to + 1) * to
    }
}

/// Rounds an atom count up to a multiple of `to`.
pub fn round_up_atom(val: u32, to: u32) -> (r: u32)
    requires
        1 <= to,
        val + to <= u32::MAX + 1,
    ensures
        r == round_up_spec(val as int, to as int),
        r % to == 0,
        val <= r < val + to,
{
    round_up_u32(val, to)
}

} // verus!
