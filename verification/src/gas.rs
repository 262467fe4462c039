//! How the gas of a safe transfer is split between the receiver's handler
//! and the resolution that follows it.

use vstd::prelude::*;

verus! {

/// The fixed cost of one step of computation.
pub const GAS_BASE_COMPUTE: u64 = 5_000_000_000_000;

/// The gas kept for the resolution of a vault.
pub const GAS_FOR_CALLBACK: u64 = GAS_BASE_COMPUTE;

/// The gas that scheduling one call takes.
pub const GAS_FOR_PROMISE: u64 = 5_000_000_000_000;

/// The gas that making one call wait for another takes.
pub const GAS_FOR_DATA_DEPENDENCY: u64 = 10_000_000_000_000;

/// The gas kept for what the transfer itself still has to do: two calls to
/// schedule, the dependency between them, and the base cost.
pub const GAS_FOR_REMAINING_COMPUTE: u64 = 2 * GAS_FOR_PROMISE + GAS_FOR_DATA_DEPENDENCY
    + GAS_BASE_COMPUTE;

/// The gas that is not handed on to the receiver.
pub open spec fn reserved_gas() -> int {
    GAS_FOR_REMAINING_COMPUTE + GAS_FOR_CALLBACK
}

/// The part of `prepaid_gas` that goes to the receiver's handler: what is
/// left after the reserve, and nothing if the reserve is not covered.
pub open spec fn receiver_gas(prepaid_gas: u64) -> u64 {
    if prepaid_gas >= reserved_gas() {
        (prepaid_gas - reserved_gas()) as u64
    } else {
        0
    }
}

/// Computes the gas to forward to the receiver's handler.
pub fn gas_for_receiver(prepaid_gas: u64) -> (gas: u64)
    ensures
        gas == receiver_gas(prepaid_gas),
        gas + reserved_gas() <= prepaid_gas || gas == 0,
{
    prepaid_gas.saturating_sub(GAS_FOR_REMAINING_COMPUTE + GAS_FOR_CALLBACK)
}

} // verus!
