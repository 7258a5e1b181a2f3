pub mod accounting;
pub mod app;
pub mod arith;
pub mod calculation;
pub mod inventory;

use vstd::prelude::*;

verus! {

/// Number of fixed-point quanta in one whole unit of an asset or of the
/// reporting currency: all amounts, unit costs and exchange rates in this
/// library are integers scaled by this factor.
pub const SCALE: u64 = 100_000_000;

} // verus!
