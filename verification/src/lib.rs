//! Extraction of underlying-to-derivative-warrant price tables from the
//! loosely structured text feeds that the supported brokers publish.
//!
//! The library parses a warrant ticker symbol into its semantic fields,
//! scans a fetched page or JSON feed for the price table of the resolved
//! trading date, and quantizes prices onto the broker tick grid.  All
//! network fetching stays outside the library: the extractors take the
//! fetched bytes as input.

pub mod scan;
pub mod calendar;
pub mod instrument;
pub mod dw06;
pub mod dw13;
pub mod dw28;

use vstd::prelude::*;
use std::collections::HashMap;

verus! {

/// Number of decimal digits kept when quantizing prices to integers.
pub const DEFAULT_PRICE_DIGIT: usize = 2;

/// An underlying-price-keyed map of underlying price to warrant price for
/// one symbol on one date, in the source's own numeric type.
#[derive(Debug, Clone)]
#[verifier::reject_recursive_types(T)]
pub struct UnderlyingDWMap<T> {
    pub dw_symbol: String,
    pub date: String,
    pub u_based_price_map: HashMap<T, T>,
}

} // verus!
