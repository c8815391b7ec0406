use vstd::prelude::*;

verus! {

/// Micro-units in one currency unit.
pub const MICROS_PER_UNIT: i64 = 1_000_000;

/// Micro-units in one cent.
pub const MICROS_PER_CENT: i128 = 10_000;

/// The materiality tolerance, 0.00001 of a unit, in micro-units.
pub const EPSILON_MICROS: i128 = 10;

/// The largest magnitude of a single amount held in a record, in micro-units
/// (a trillion currency units).
pub const AMOUNT_LIMIT: i64 = 1_000_000_000_000_000_000;

pub open spec fn abs(x: int) -> int {
    if x < 0 {
        -x
    } else {
        x
    }
}

/// `x` rounded to a whole number of cents, halves away from zero.
pub open spec fn round_cents(x: int) -> int {
    if x >= 0 {
        ((x + 5_000) / 10_000) * 10_000
    } else {
        -(((-x + 5_000) / 10_000) * 10_000)
    }
}

/// An amount whose magnitude exceeds the tolerance.
pub open spec fn is_material(x: int) -> bool {
    abs(x) > EPSILON_MICROS
}

/// An amount that a record may hold.
pub open spec fn amount_in_range(x: int) -> bool {
    -AMOUNT_LIMIT <= x <= AMOUNT_LIMIT
}

/// The largest magnitude of a sum of amounts of records held in memory.
pub open spec fn sum_limit() -> int {
    usize::MAX as int * AMOUNT_LIMIT as int
}

/// Rounds a micro-unit amount to whole cents, halves away from zero.
pub fn round_to_cents(x: i128) -> (r: i128)
    requires
        abs(x as int) <= 4 * sum_limit(),
    ensures
        r == round_cents(x as int),
{
    if x >= 0 {
        ((x + 5_000) / 10_000) * 10_000
    } else {
        -(((-x + 5_000) / 10_000) * 10_000)
    }
}

/// Whether a micro-unit amount exceeds the tolerance.
pub fn material(x: i128) -> (r: bool)
    ensures
        r == is_material(x as int),
{
    x > EPSILON_MICROS || x < -EPSILON_MICROS
}

} // verus!
