//! A fungible-token ledger with escrowed ("safe") transfers.
//!
//! A safe transfer moves the sender's tokens into a vault, lets the receiver
//! claim from the vault while it is open, and is settled by a resolution step
//! that removes the vault and refunds whatever was not claimed.

pub mod error;
pub mod escrow;
pub mod gas;
pub mod near_contract;
pub mod table;
pub mod total;
pub mod vault_token;
