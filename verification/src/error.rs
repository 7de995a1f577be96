//! The failures that the engine reports to its callers.

use vstd::prelude::*;

verus! {

/// Why a public operation of the engine refused its input.
#[derive(Debug, Clone, Copy, PartialEq, Eq, Structural)]
pub enum EngineError {
    /// A negative value was offered as a price.
    InvalidPrice,
    /// An order was offered with a size of zero.
    InvalidOrderSize,
    /// An order named a trading pair that was never registered.
    MarketDoesNotExist,
    /// A trading pair was registered a second time.
    MarketAlreadyExists,
}

} // verus!
