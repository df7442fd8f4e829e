//! Saturating arithmetic on `i64`, with the exact mathematical result stated.
use vstd::prelude::*;

verus! {

/// `value` moved to the nearest end of the `i64` range when it lies outside of it.
pub open spec fn clamp_i64(value: int) -> int {
    if value > i64::MAX {
        i64::MAX as int
    } else if value < i64::MIN {
        i64::MIN as int
    } else {
        value
    }
}

pub open spec fn max_int(a: int, b: int) -> int {
    if a >= b {
        a
    } else {
        b
    }
}

pub open spec fn min_int(a: int, b: int) -> int {
    if a <= b {
        a
    } else {
        b
    }
}

pub fn saturating_add(a: i64, b: i64) -> (r: i64)
    ensures
        r == clamp_i64(a + b),
{
    let wide: i128 = a as i128 + b as i128;
    if wide > i64::MAX as i128 {
        i64::MAX
    } else if wide < i64::MIN as i128 {
        i64::MIN
    } else {
        wide as i64
    }
}

pub fn saturating_sub(a: i64, b: i64) -> (r: i64)
    ensures
        r == clamp_i64(a - b),
{
    let wide: i128 = a as i128 - b as i128;
    if wide > i64::MAX as i128 {
        i64::MAX
    } else if wide < i64::MIN as i128 {
        i64::MIN
    } else {
        wide as i64
    }
}

/// A count of seconds in milliseconds.
pub fn saturating_millis(seconds: i64) -> (r: i64)
    ensures
        r == clamp_i64(seconds * 1000),
{
    let wide: i128 = seconds as i128 * 1000;
    if wide > i64::MAX as i128 {
        i64::MAX
    } else if wide < i64::MIN as i128 {
        i64::MIN
    } else {
        wide as i64
    }
}

/// Division that rounds towards negative infinity.
pub fn floor_div(a: i64, b: i64) -> (r: i64)
    requires
        b > 1,
    ensures
        r == a as int / b as int,
{
    if a >= 0 {
        a / b
    } else {
        let below: i64 = (-(a + 1)) / b;
        assert(a as int / b as int == -(((-(a + 1)) as int) / (b as int)) - 1) by (nonlinear_arith)
            requires
                b > 1,
                a < 0,
        ;
        assert(below >= 0 && below <= i64::MAX / 2) by (nonlinear_arith)
            requires
                b > 1,
                a < 0,
                below == ((-(a + 1)) as int) / (b as int),
        ;
        -below - 1
    }
}

/// `value` moved to the nearest end of the `i128` range when it lies outside of it.
pub open spec fn clamp_i128(value: int) -> int {
    if value > i128::MAX {
        i128::MAX as int
    } else if value < i128::MIN {
        i128::MIN as int
    } else {
        value
    }
}

pub fn saturating_add_wide(a: i128, b: i128) -> (r: i128)
    ensures
        r == clamp_i128(a + b),
{
    match a.checked_add(b) {
        Some(sum) => sum,
        None => if a > 0 {
            i128::MAX
        } else {
            i128::MIN
        },
    }
}

/// How weeks, days and hours of minutes divide into one another.
pub proof fn lemma_units_of_minutes(n: int)
    requires
        n >= 0,
    ensures
        (n * 10_080) % 10_080 == 0,
        (n * 10_080) / 10_080 == n,
        (n * 1_440) % 1_440 == 0,
        (n * 1_440) / 1_440 == n,
        (n * 1_440) % 10_080 == (n % 7) * 1_440,
        (n * 60) % 60 == 0,
        (n * 60) / 60 == n,
        (n * 60) % 1_440 == (n % 24) * 60,
        (n * 60) % 10_080 == 0 ==> n % 24 == 0,
        n % 1_440 == 0 ==> n % 60 == 0,
        n % 10_080 == 0 ==> n % 60 == 0,
{
}

} // verus!
