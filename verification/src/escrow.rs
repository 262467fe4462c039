//! The state of a token with vaults, as plain values: what makes it well
//! formed, what may come after it, and what holds of every such state.
//!
//! Both tokens of this crate view themselves as a [`State`] and promise of
//! each operation that it leaves a well-formed state which the state before
//! it [`precedes`](State::precedes). What follows from that for every run of
//! operations is proved here once.

use crate::near_contract::VaultId;
use crate::table::{Key, Table};
use crate::total::{
    held, lemma_held_within_total, lemma_total_bounds_entry, sum_of, total, Amount, Holding,
};
use vstd::prelude::*;

verus! {

/// What a vault holds: an amount, and the parties it was opened for.
pub trait Record: Amount + Sized {
    /// The record with its balance taken out: what tells whose vault it is.
    spec fn emptied(&self) -> Self;
}

/// The accounts, the supply, the open vaults and the next vault identifier.
#[verifier::reject_recursive_types(K)]
pub struct State<K, V> {
    pub accounts: Map<K, u128>,
    pub total_supply: u128,
    pub vaults: Map<u64, V>,
    pub next_vault_id: u64,
}

impl<K, V: Record> State<K, V> {
    /// What `account` holds: its entry, or nothing if it has none.
    pub open spec fn balance_of(self, account: K) -> u128 {
        held(self.accounts, account)
    }

    /// What all accounts hold together.
    pub open spec fn circulating(self) -> nat {
        total(self.accounts)
    }

    /// What all open vaults hold together.
    pub open spec fn escrowed(self) -> nat {
        total(self.vaults)
    }

    /// Whether a vault with this identifier is open.
    pub open spec fn is_open(self, id: u64) -> bool {
        self.vaults.contains_key(id)
    }

    /// Whether a vault with this identifier was opened and has been resolved.
    pub open spec fn resolved(self, id: u64) -> bool {
        id < self.next_vault_id && !self.is_open(id)
    }

    /// Whether the state is well formed: there are finitely many accounts and
    /// vaults, every open vault has an identifier that was handed out, and
    /// the accounts and the vaults together hold exactly the supply.
    pub open spec fn wf(self) -> bool {
        &&& self.accounts.dom().finite()
        &&& self.vaults.dom().finite()
        &&& forall|id: u64| #[trigger] self.is_open(id) ==> id < self.next_vault_id
        &&& self.circulating() + self.escrowed() == self.total_supply
    }

    /// Whether `later` can come after `self`: the supply is the same, no
    /// identifier was taken back, no resolved vault is open again, and a vault
    /// that is still open has its parties and no more than it held.
    pub open spec fn precedes(self, later: Self) -> bool {
        &&& later.total_supply == self.total_supply
        &&& self.next_vault_id <= later.next_vault_id
        &&& forall|id: u64| #[trigger] self.resolved(id) ==> later.resolved(id)
        &&& forall|id: u64|
            self.is_open(id) && #[trigger] later.is_open(id) ==> {
                &&& later.vaults[id].emptied() == self.vaults[id].emptied()
                &&& later.vaults[id].amount() <= self.vaults[id].amount()
            }
    }

    /// One operation: a state that keeps the supply and the sum, opens no
    /// vault but under the next identifier, and leaves the open vaults their
    /// parties and no more than they held, is well formed and comes after.
    pub proof fn lemma_step(self, later: Self)
        requires
            self.wf(),
            later.accounts.dom().finite(),
            later.vaults.dom().finite(),
            later.total_supply == self.total_supply,
            self.next_vault_id <= later.next_vault_id,
            later.circulating() + later.escrowed() == later.total_supply,
            forall|id: u64|
                later.vaults.contains_key(id) ==> self.vaults.contains_key(id) || (id
                    == self.next_vault_id && id < later.next_vault_id),
            forall|id: u64|
                self.vaults.contains_key(id) && later.vaults.contains_key(id) ==> {
                    &&& later.vaults[id].emptied() == self.vaults[id].emptied()
                    &&& later.vaults[id].amount() <= self.vaults[id].amount()
                },
        ensures
            later.wf(),
            self.precedes(later),
    {
        assert forall|id: u64| #[trigger] later.is_open(id) implies id < later.next_vault_id by {
            if self.vaults.contains_key(id) {
                assert(self.is_open(id));
            }
        }
        assert forall|id: u64| #[trigger] self.resolved(id) implies later.resolved(id) by {
            if later.vaults.contains_key(id) {
                assert(!self.is_open(id));
            }
        }
    }

    /// Every state precedes itself.
    pub proof fn lemma_precedes_reflexive(self)
        ensures
            self.precedes(self),
    {
    }

    /// What comes after a later state comes after the earlier one too.
    pub proof fn lemma_precedes_transitive(self, middle: Self, later: Self)
        requires
            self.wf(),
            self.precedes(middle),
            middle.precedes(later),
        ensures
            self.precedes(later),
    {
        assert forall|id: u64| #[trigger] self.resolved(id) implies later.resolved(id) by {
            assert(middle.resolved(id));
        }
        assert forall|id: u64| self.is_open(id) && #[trigger] later.is_open(id) implies {
            &&& later.vaults[id].emptied() == self.vaults[id].emptied()
            &&& later.vaults[id].amount() <= self.vaults[id].amount()
        } by {
            if !middle.is_open(id) {
                assert(middle.resolved(id));
                assert(later.resolved(id));
            }
        }
    }

    /// Conservation: in a well-formed state, and in every well-formed state
    /// that comes after it, what the accounts hold and what the open vaults
    /// hold add up to the supply that was minted.
    pub proof fn lemma_conservation(self, later: Self)
        requires
            self.wf(),
            later.wf(),
            self.precedes(later),
        ensures
            self.circulating() + self.escrowed() == self.total_supply,
            later.circulating() + later.escrowed() == self.total_supply,
    {
    }

    /// A vault that has been resolved is resolved in every later state: no
    /// vault is open under its identifier again.
    pub proof fn lemma_resolved_stays(self, later: Self, id: u64)
        requires
            self.precedes(later),
            self.resolved(id),
        ensures
            later.resolved(id),
            !later.vaults.contains_key(id),
    {
    }

    /// Escrow is exclusive: what an open vault holds is in no account. Any
    /// account's balance and the vault's amount together stay within the
    /// supply, and the accounts together hold the supply less all that is in
    /// vaults.
    pub proof fn lemma_escrow_excluded(self, id: u64, account: K)
        requires
            self.wf(),
            self.is_open(id),
        ensures
            self.balance_of(account) + self.vaults[id].amount() <= self.total_supply,
            self.circulating() == self.total_supply - self.escrowed(),
    {
        lemma_held_within_total(self.accounts, account);
        lemma_total_bounds_entry(self.vaults, id);
    }

    /// Balances stay in range: in a well-formed state no account and no open
    /// vault holds less than nothing or more than the supply.
    pub proof fn lemma_balances_in_range(self, account: K, id: u64)
        requires
            self.wf(),
        ensures
            0 <= self.balance_of(account) <= self.total_supply,
            self.is_open(id) ==> 0 <= self.vaults[id].amount() <= self.total_supply,
    {
        lemma_held_within_total(self.accounts, account);
        if self.is_open(id) {
            lemma_total_bounds_entry(self.vaults, id);
        }
    }
}

/// Whether every vault of `vaults` has an identifier below `next_vault_id`.
pub fn identifiers_handed_out<V: View>(vaults: &Table<VaultId, V>, next_vault_id: VaultId) -> (ok:
    bool)
    requires
        vaults.wf(),
    ensures
        ok == (forall|id: u64| #[trigger] vaults@.contains_key(id) ==> id < next_vault_id.0),
{
    let mut i: usize = 0;
    proof {
        vaults.lemma_prefix_ends();
    }
    while i < vaults.len()
        invariant
            vaults.wf(),
            i <= vaults.spec_len(),
            forall|id: u64| #[trigger]
                vaults.spec_prefix(i as int).contains_key(id) ==> id < next_vault_id.0,
        decreases vaults.spec_len() - i,
    {
        let (vault_id, _) = vaults.entry(i);
        proof {
            vaults.lemma_prefix_step(i as int);
        }
        if vault_id.0 >= next_vault_id.0 {
            assert(vaults@.contains_key(vault_id.0));
            return false;
        }
        i += 1;
    }
    true
}

/// Whether the stored parts make a well-formed state: this is the test to
/// make of a state that was put together from what was stored.
pub fn holds_invariant<K: Key, V: Holding>(
    accounts: &Table<K, u128>,
    total_supply: u128,
    vaults: &Table<VaultId, V>,
    next_vault_id: VaultId,
) -> (ok: bool) where V::V: Record
    requires
        accounts.wf(),
        vaults.wf(),
    ensures
        ok == (State {
            accounts: accounts@,
            total_supply,
            vaults: vaults@,
            next_vault_id: next_vault_id.0,
        }).wf(),
{
    let ghost state = State {
        accounts: accounts@,
        total_supply,
        vaults: vaults@,
        next_vault_id: next_vault_id.0,
    };
    proof {
        accounts.lemma_finite();
        vaults.lemma_finite();
    }
    if !identifiers_handed_out(vaults, next_vault_id) {
        assert(!state.wf()) by {
            if state.wf() {
                assert forall|id: u64| #[trigger]
                    vaults@.contains_key(id) implies id < next_vault_id.0 by {
                    assert(state.is_open(id));
                }
            }
        }
        return false;
    }
    assert forall|id: u64| #[trigger] state.is_open(id) implies id < state.next_vault_id by {
        assert(vaults@.contains_key(id));
    }
    let circulating = match sum_of(accounts) {
        None => {
            return false;
        },
        Some(sum) => sum,
    };
    let escrowed = match sum_of(vaults) {
        None => {
            return false;
        },
        Some(sum) => sum,
    };
    match circulating.checked_add(escrowed) {
        None => false,
        Some(sum) => sum == total_supply,
    }
}

} // verus!
