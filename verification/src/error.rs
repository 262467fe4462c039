//! The ways in which an operation on the token can be refused.

use vstd::prelude::*;

verus! {

/// Why an operation was refused. A refused operation leaves the token as it
/// found it.
#[derive(Clone, Copy, Debug, PartialEq, Eq, Structural)]
pub enum TokenError {
    /// The amount is zero.
    InvalidAmount,
    /// The account or the vault holds less than the amount asked for.
    InsufficientBalance,
    /// The account has no entry in the ledger.
    UnregisteredAccount,
    /// The account already has an entry in the ledger.
    AlreadyRegistered,
    /// The account that asks to be unregistered has no entry in the ledger.
    NotRegistered,
    /// The account that asks to be unregistered still holds tokens.
    InvalidBalance,
    /// No open vault has this identifier.
    VaultNotFound,
    /// Every vault identifier has been handed out.
    VaultIdsExhausted,
    /// The caller is not the one the operation is reserved for.
    AccessDenied,
    /// The attached deposit does not cover the storage taken.
    InsufficientDeposit,
}

} // verus!
