use vstd::prelude::*;

use crate::UNIT;

verus! {

/// `value / max` in fixed point, rounded down.
pub open spec fn linear_value(value: int, max: int) -> int {
    value * UNIT / max
}

/// `1.0 - value` in fixed point.
pub open spec fn inverted(value: int) -> int {
    UNIT - value
}

/// A linear response: `value / max` as a fixed-point weight (rounded down),
/// so that `value == max` gives `UNIT`.
pub fn linear(value: u32, max: u32) -> (r: u64)
    requires
        max > 0,
    ensures
        r == linear_value(value as int, max as int),
{
    assert(value as int * UNIT as int <= u32::MAX as int * 1_000_000) by (nonlinear_arith)
        requires
            value <= u32::MAX,
    ;
    value as u64 * UNIT as u64 / max as u64
}

/// Flips a weight: `UNIT - value`, turning "higher is better" into "lower is
/// better" and back.
pub fn invert(value: i64) -> (r: i64)
    requires
        value >= UNIT - i64::MAX,
    ensures
        r == inverted(value as int),
{
    UNIT as i64 - value
}

/// A linear response at its maximum is exactly one.
pub proof fn lemma_linear_at_max(max: int)
    requires
        max > 0,
    ensures
        linear_value(max, max) == UNIT,
{
    assert(max * UNIT == UNIT * max);
    vstd::arithmetic::div_mod::lemma_div_by_multiple(UNIT as int, max);
}

/// Inverting twice gives the value back.
pub proof fn lemma_invert_involutive(value: int)
    ensures
        inverted(inverted(value)) == value,
{
}

} // verus!
