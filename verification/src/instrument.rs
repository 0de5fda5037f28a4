//! Price-tick arithmetic on the quantized integer price grid.
//!
//! Prices are held as integers scaled by `10^DEFAULT_PRICE_DIGIT` (unit:
//! hundredths).  The market tick size is non-uniform: it grows with the
//! price magnitude, per the band tables below.

pub mod dw;

use vstd::prelude::*;
use crate::scan;
use vstd::string::StringSliceAdditionalSpecFns;

verus! {

/// Tick step below `price`: the band is chosen with boundaries shifted one
/// step up, so that stepping down from an exact band boundary uses the
/// smaller band's step.
pub open spec fn lower_step(price: int) -> int {
    if price <= 200 {
        1
    } else if price <= 500 {
        2
    } else if price <= 1000 {
        5
    } else if price <= 2500 {
        10
    } else if price <= 10000 {
        25
    } else if price <= 20000 {
        50
    } else if price <= 40000 {
        100
    } else {
        200
    }
}

/// Tick step above `price`: the band of the input price itself.
pub open spec fn upper_step(price: int) -> int {
    if price < 200 {
        1
    } else if price < 500 {
        2
    } else if price < 1000 {
        5
    } else if price < 2500 {
        10
    } else if price < 10000 {
        25
    } else if price < 20000 {
        50
    } else if price < 40000 {
        100
    } else {
        200
    }
}

/// Returns the adjacent price one tick below `price` on the non-uniform
/// tick grid (price unit: hundredths).
pub fn to_lower_adjacent_price(price: i32) -> (r: i32)
    requires
        price - 200 >= i32::MIN,
    ensures
        r == price - lower_step(price as int),
{
    price - if price <= 200 {
        1
    } else if price <= 500 {
        2
    } else if price <= 1000 {
        5
    } else if price <= 2500 {
        10
    } else if price <= 10000 {
        25
    } else if price <= 20000 {
        50
    } else if price <= 40000 {
        100
    } else {
        200
    }
}

/// Returns the adjacent price one tick above `price` on the non-uniform
/// tick grid (price unit: hundredths).
pub fn to_upper_adjacent_price(price: i32) -> (r: i32)
    requires
        price + 200 <= i32::MAX,
    ensures
        r == price + upper_step(price as int),
{
    price + if price < 200 {
        1
    } else if price < 500 {
        2
    } else if price < 1000 {
        5
    } else if price < 2500 {
        10
    } else if price < 10000 {
        25
    } else if price < 20000 {
        50
    } else if price < 40000 {
        100
    } else {
        200
    }
}

/// Converts decimal price text to the integer price scaled by
/// `10^price_digit`, rounded to the nearest integer with halves away from
/// zero.  `None` when the text is not a plain decimal number or the scaled
/// value does not fit an `i32`.
pub fn to_int_price_text(price: &str, price_digit: usize) -> (r: Option<i32>)
    requires
        price_digit <= 9,
    ensures
        r matches Some(v) ==> scan::parse_price(price.spec_bytes(), price_digit as nat) == Some(
            v as int,
        ),
        r is None ==> scan::parse_price(price.spec_bytes(), price_digit as nat) is None,
{
    scan::parse_price_bytes(price.as_bytes(), price_digit)
}

} // verus!
