//! The token whose ledger is keyed by account identifiers.
//!
//! Any identifier can hold tokens: an account that the ledger has no entry
//! for holds none. A vault remembers both its sender and its receiver.

use crate::error::TokenError;
use crate::escrow::{holds_invariant, Record, State};
use crate::gas::{gas_for_receiver, receiver_gas, GAS_FOR_CALLBACK};
use crate::table::{Key, Table};
use crate::total::{
    credited, debited, held, lemma_credited_total, lemma_debited_total, lemma_held_within_total,
    lemma_total_empty, lemma_total_insert, lemma_total_remove, total, Amount, Holding,
};
use vstd::prelude::*;

verus! {

/// Safe identifier.
#[derive(Clone, Copy, Debug, PartialEq, Eq, Structural)]
pub struct VaultId(pub u64);

impl View for VaultId {
    type V = u64;

    open spec fn view(&self) -> u64 {
        self.0
    }
}

impl Key for VaultId {
    fn same_key(&self, other: &Self) -> (same: bool) {
        self.0 == other.0
    }
}

impl VaultId {
    /// The identifier that follows this one.
    pub fn next(&self) -> (id: Self)
        requires
            self.0 < u64::MAX,
        ensures
            id.0 == self.0 + 1,
    {
        Self(self.0 + 1)
    }
}

/// Tokens held in escrow between a sender and a receiver.
#[derive(Clone, Debug)]
pub struct Vault {
    pub sender_id: String,
    pub receiver_id: String,
    pub balance: u128,
}

/// What a [`Vault`] holds, as plain values.
pub struct VaultView {
    pub sender_id: Seq<char>,
    pub receiver_id: Seq<char>,
    pub balance: u128,
}

impl View for Vault {
    type V = VaultView;

    open spec fn view(&self) -> VaultView {
        VaultView {
            sender_id: self.sender_id@,
            receiver_id: self.receiver_id@,
            balance: self.balance,
        }
    }
}

impl Amount for VaultView {
    open spec fn amount(&self) -> nat {
        self.balance as nat
    }
}

impl Record for VaultView {
    open spec fn emptied(&self) -> Self {
        VaultView { balance: 0, ..*self }
    }
}

impl Holding for Vault {
    fn amount_held(&self) -> (amount: u128) {
        self.balance
    }
}

/// How a deposit of `amount` ends.
pub open spec fn deposit_outcome(amount: u128) -> Result<(), TokenError> {
    if amount == 0 {
        Err(TokenError::InvalidAmount)
    } else {
        Ok(())
    }
}

/// How a withdrawal of `amount` from `account` ends.
pub open spec fn withdraw_outcome(
    accounts: Map<Seq<char>, u128>,
    account: Seq<char>,
    amount: u128,
) -> Result<(), TokenError> {
    if amount == 0 {
        Err(TokenError::InvalidAmount)
    } else if held(accounts, account) < amount {
        Err(TokenError::InsufficientBalance)
    } else {
        Ok(())
    }
}

/// How a safe transfer of `amount` from `sender` ends: as the withdrawal
/// does, and if that goes through, well unless no identifier is left for the
/// vault.
pub open spec fn safe_transfer_outcome(
    accounts: Map<Seq<char>, u128>,
    next_vault_id: u64,
    sender: Seq<char>,
    amount: u128,
) -> Result<(), TokenError> {
    match withdraw_outcome(accounts, sender, amount) {
        Err(e) => Err(e),
        Ok(()) => if next_vault_id == u64::MAX {
            Err(TokenError::VaultIdsExhausted)
        } else {
            Ok(())
        },
    }
}

/// How a claim of `amount` from vault `id` by `caller` ends.
pub open spec fn claim_outcome(
    vaults: Map<u64, VaultView>,
    caller: Seq<char>,
    id: u64,
    amount: u128,
) -> Result<(), TokenError> {
    if !vaults.contains_key(id) {
        Err(TokenError::VaultNotFound)
    } else if caller != vaults[id].receiver_id {
        Err(TokenError::AccessDenied)
    } else if amount > vaults[id].balance {
        Err(TokenError::InsufficientBalance)
    } else {
        deposit_outcome(amount)
    }
}

/// How the resolution of vault `id` ends, asked for by `caller` of the token
/// that runs under `current`.
pub open spec fn resolve_outcome(
    vaults: Map<u64, VaultView>,
    current: Seq<char>,
    caller: Seq<char>,
    id: u64,
) -> Result<u128, TokenError> {
    if current != caller {
        Err(TokenError::AccessDenied)
    } else if !vaults.contains_key(id) {
        Err(TokenError::VaultNotFound)
    } else {
        Ok(vaults[id].balance)
    }
}

/// Resolution happens at most once: once a vault has been resolved, asking
/// to resolve it in any later state is refused, with `VaultNotFound` if the
/// caller may resolve at all.
pub proof fn lemma_resolved_once(
    before: State<Seq<char>, VaultView>,
    later: State<Seq<char>, VaultView>,
    id: u64,
    current: Seq<char>,
    caller: Seq<char>,
)
    requires
        before.precedes(later),
        before.resolved(id),
    ensures
        later.resolved(id),
        resolve_outcome(later.vaults, current, caller, id) is Err,
        current == caller ==> resolve_outcome(later.vaults, current, caller, id) == Err::<
            u128,
            TokenError,
        >(TokenError::VaultNotFound),
{
    before.lemma_resolved_stays(later, id);
}

/// Only the receiver claims: whatever the vault holds and whatever is asked
/// for, a claim by anyone but the receiver that the vault has stored is
/// refused with `AccessDenied`.
pub proof fn lemma_claim_needs_receiver(
    vaults: Map<u64, VaultView>,
    caller: Seq<char>,
    id: u64,
    amount: u128,
)
    requires
        vaults.contains_key(id),
        caller != vaults[id].receiver_id,
    ensures
        claim_outcome(vaults, caller, id, amount) == Err::<(), TokenError>(
            TokenError::AccessDenied,
        ),
{
}

/// The ledger: what each account holds, and how much was minted.
#[derive(Clone, Debug)]
pub struct Token {
    pub accounts: Table<String, u128>,
    pub total_supply: u128,
}

impl Token {
    /// Whether the ledger is well formed.
    pub open spec fn wf(&self) -> bool {
        self.accounts.wf()
    }

    /// What `account` holds: its entry, or nothing if it has none.
    pub open spec fn balance_of(&self, account: Seq<char>) -> u128 {
        held(self.accounts@, account)
    }

    /// What all accounts hold together.
    pub open spec fn circulating(&self) -> nat {
        total(self.accounts@)
    }

    /// No account holds more than all accounts together.
    pub proof fn lemma_balance_within_circulating(&self, account: Seq<char>)
        requires
            self.wf(),
        ensures
            self.balance_of(account) <= self.circulating(),
    {
        self.accounts.lemma_finite();
        lemma_held_within_total(self.accounts@, account);
    }

    /// A ledger in which `owner_id` holds the whole supply.
    pub fn new(owner_id: String, total_supply: u128) -> (token: Self)
        ensures
            token.wf(),
            token.total_supply == total_supply,
            token.accounts@ == Map::<Seq<char>, u128>::empty().insert(owner_id@, total_supply),
            token.circulating() == total_supply,
    {
        let mut accounts: Table<String, u128> = Table::new();
        proof {
            accounts.lemma_finite();
            lemma_total_empty::<Seq<char>, u128>();
            lemma_total_insert(accounts@, owner_id@, total_supply);
        }
        accounts.insert(owner_id, total_supply);
        Token { accounts, total_supply }
    }

    /// What `account_id` holds.
    pub fn balance(&self, account_id: &String) -> (balance: u128)
        requires
            self.wf(),
        ensures
            balance == self.balance_of(account_id@),
    {
        match self.accounts.get(account_id) {
            Some(balance) => *balance,
            None => 0,
        }
    }

    /// Adds `amount` to what `receiver_id` holds.
    ///
    /// A zero `amount` is refused with `InvalidAmount`. The new balance must
    /// fit the balance type.
    pub fn deposit(&mut self, receiver_id: String, amount: u128) -> (result: Result<
        (),
        TokenError,
    >)
        requires
            old(self).wf(),
            old(self).balance_of(receiver_id@) + amount <= u128::MAX,
        ensures
            final(self).wf(),
            final(self).total_supply == old(self).total_supply,
            result == deposit_outcome(amount),
            match result {
                Ok(()) => {
                    &&& final(self).accounts@ == credited(
                        old(self).accounts@,
                        receiver_id@,
                        amount,
                    )
                    &&& final(self).circulating() == old(self).circulating() + amount
                },
                Err(_) => *final(self) == *old(self),
            },
    {
        if amount == 0 {
            return Err(TokenError::InvalidAmount);
        }
        let receiver_balance = self.balance(&receiver_id);
        proof {
            self.accounts.lemma_finite();
            lemma_credited_total(self.accounts@, receiver_id@, amount);
        }
        self.accounts.insert(receiver_id, receiver_balance + amount);
        Ok(())
    }

    /// Whether `amount` can be taken from what `sender_id` holds, and why not
    /// if it cannot.
    pub fn check_withdraw(&self, sender_id: &String, amount: u128) -> (result: Result<
        (),
        TokenError,
    >)
        requires
            self.wf(),
        ensures
            result == withdraw_outcome(self.accounts@, sender_id@, amount),
    {
        let sender_balance = self.balance(sender_id);
        if amount == 0 {
            return Err(TokenError::InvalidAmount);
        }
        if sender_balance < amount {
            return Err(TokenError::InsufficientBalance);
        }
        Ok(())
    }

    /// Takes `amount` from what `sender_id` holds.
    ///
    /// A zero `amount` is refused with `InvalidAmount`, and one that the
    /// account does not hold with `InsufficientBalance`.
    pub fn withdraw(&mut self, sender_id: String, amount: u128) -> (result: Result<
        (),
        TokenError,
    >)
        requires
            old(self).wf(),
        ensures
            final(self).wf(),
            final(self).total_supply == old(self).total_supply,
            result == withdraw_outcome(old(self).accounts@, sender_id@, amount),
            match result {
                Ok(()) => {
                    &&& final(self).accounts@ == debited(old(self).accounts@, sender_id@, amount)
                    &&& final(self).circulating() + amount == old(self).circulating()
                },
                Err(_) => *final(self) == *old(self),
            },
    {
        match self.check_withdraw(&sender_id, amount) {
            Err(e) => {
                return Err(e);
            },
            Ok(()) => {},
        }
        let sender_balance = self.balance(&sender_id);
        proof {
            self.accounts.lemma_finite();
            lemma_debited_total(self.accounts@, sender_id@, amount);
        }
        self.accounts.insert(sender_id, sender_balance - amount);
        Ok(())
    }
}

/// What a safe transfer leaves to be done once the vault is open: the call
/// that tells the receiver, and the resolution that must follow it whatever
/// becomes of that call.
#[derive(Clone, Debug)]
pub struct SafeTransfer {
    /// The vault that was opened.
    pub vault_id: VaultId,
    /// Who sent the tokens; the resolution refunds this account.
    pub sender_id: String,
    /// Who is told of the vault.
    pub receiver_id: String,
    /// The amount put into the vault.
    pub amount: u128,
    /// What the sender wants handed to the receiver.
    pub payload: String,
    /// The gas for the receiver's handler.
    pub gas_to_receiver: u64,
    /// The gas for the resolution.
    pub gas_for_callback: u64,
}

// NEP 122
/// The token: its ledger, the open vaults, and the identifier of the next
/// vault.
#[derive(Clone, Debug)]
pub struct VaultFungibleToken {
    pub token: Token,
    pub vaults: Table<VaultId, Vault>,
    pub next_vault_id: VaultId,
}

impl View for VaultFungibleToken {
    type V = State<Seq<char>, VaultView>;

    open spec fn view(&self) -> State<Seq<char>, VaultView> {
        State {
            accounts: self.token.accounts@,
            total_supply: self.token.total_supply,
            vaults: self.vaults@,
            next_vault_id: self.next_vault_id.0,
        }
    }
}

impl VaultFungibleToken {
    /// Whether the token is well formed: its tables are, and so is the state
    /// they stand for.
    pub open spec fn wf(&self) -> bool {
        &&& self.token.wf()
        &&& self.vaults.wf()
        &&& self@.wf()
    }

    /// Whether the token is well formed, for a token whose tables are: this
    /// is the test to make of a token that was put together from stored
    /// parts.
    pub fn holds_invariant(&self) -> (ok: bool)
        requires
            self.token.wf(),
            self.vaults.wf(),
        ensures
            ok == self.wf(),
    {
        holds_invariant(
            &self.token.accounts,
            self.token.total_supply,
            &self.vaults,
            self.next_vault_id,
        )
    }

    /// A new token: `owner_id` holds the whole supply and no vault is open.
    pub fn init(owner_id: String, total_supply: u128) -> (contract: Self)
        ensures
            contract.wf(),
            contract@ == (State {
                accounts: Map::<Seq<char>, u128>::empty().insert(owner_id@, total_supply),
                total_supply,
                vaults: Map::<u64, VaultView>::empty(),
                next_vault_id: 0,
            }),
    {
        let contract = VaultFungibleToken {
            token: Token::new(owner_id, total_supply),
            vaults: Table::new(),
            next_vault_id: VaultId(0),
        };
        proof {
            lemma_total_empty::<u64, VaultView>();
            contract.token.accounts.lemma_finite();
            contract.vaults.lemma_finite();
        }
        contract
    }

    /// What `account_id` holds. Tokens in a vault are held by nobody.
    pub fn get_balance(&self, account_id: &String) -> (balance: u128)
        requires
            self.token.wf(),
        ensures
            balance == self@.balance_of(account_id@),
    {
        self.token.balance(account_id)
    }

    /// Moves `amount` from `predecessor_id`, the caller, to `receiver_id` at
    /// once, without a vault.
    pub fn transfer_unsafe(
        &mut self,
        predecessor_id: String,
        receiver_id: String,
        amount: u128,
    ) -> (result: Result<(), TokenError>)
        requires
            old(self).wf(),
        ensures
            final(self).wf(),
            old(self)@.precedes(final(self)@),
            final(self).vaults == old(self).vaults,
            final(self).next_vault_id == old(self).next_vault_id,
            result == withdraw_outcome(old(self).token.accounts@, predecessor_id@, amount),
            match result {
                Ok(()) => final(self).token.accounts@ == credited(
                    debited(old(self).token.accounts@, predecessor_id@, amount),
                    receiver_id@,
                    amount,
                ),
                Err(_) => *final(self) == *old(self),
            },
    {
        match self.token.withdraw(predecessor_id, amount) {
            Err(e) => {
                return Err(e);
            },
            Ok(()) => {},
        }
        proof {
            self.token.lemma_balance_within_circulating(receiver_id@);
        }
        let credit = self.token.deposit(receiver_id, amount);
        assert(credit is Ok);
        proof {
            self.token.accounts.lemma_finite();
            old(self)@.lemma_step(final(self)@);
        }
        Ok(())
    }

    /// Opens a vault: takes `amount` from `predecessor_id`, the caller, puts
    /// it into a new vault for `receiver_id`, and says which calls are to
    /// follow.
    ///
    /// The receiver is to be told with the gas that `prepaid_gas` leaves after
    /// the reserve; the resolution is to run after that call with the gas
    /// kept for it, whether or not the receiver's handler ran.
    pub fn transfer_with_safe(
        &mut self,
        predecessor_id: String,
        receiver_id: String,
        amount: u128,
        payload: String,
        prepaid_gas: u64,
    ) -> (result: Result<SafeTransfer, TokenError>)
        requires
            old(self).wf(),
        ensures
            final(self).wf(),
            old(self)@.precedes(final(self)@),
            match result {
                Ok(transfer) => {
                    &&& safe_transfer_outcome(
                        old(self).token.accounts@,
                        old(self).next_vault_id.0,
                        predecessor_id@,
                        amount,
                    ) is Ok
                    &&& !old(self)@.is_open(old(self).next_vault_id.0)
                    &&& final(self).next_vault_id.0 == old(self).next_vault_id.0 + 1
                    &&& final(self).token.accounts@ == debited(
                        old(self).token.accounts@,
                        predecessor_id@,
                        amount,
                    )
                    &&& final(self).vaults@ == old(self).vaults@.insert(
                        old(self).next_vault_id.0,
                        VaultView {
                            sender_id: predecessor_id@,
                            receiver_id: receiver_id@,
                            balance: amount,
                        },
                    )
                    &&& final(self)@.circulating() + amount == old(self)@.circulating()
                    &&& final(self)@.escrowed() == old(self)@.escrowed() + amount
                    &&& transfer.vault_id == old(self).next_vault_id
                    &&& transfer.sender_id@ == predecessor_id@
                    &&& transfer.receiver_id@ == receiver_id@
                    &&& transfer.amount == amount
                    &&& transfer.payload@ == payload@
                    &&& transfer.gas_to_receiver == receiver_gas(prepaid_gas)
                    &&& transfer.gas_for_callback == GAS_FOR_CALLBACK
                },
                Err(e) => {
                    &&& safe_transfer_outcome(
                        old(self).token.accounts@,
                        old(self).next_vault_id.0,
                        predecessor_id@,
                        amount,
                    ) == Err::<(), TokenError>(e)
                    &&& *final(self) == *old(self)
                },
            },
    {
        let gas_to_receiver = gas_for_receiver(prepaid_gas);
        match self.token.check_withdraw(&predecessor_id, amount) {
            Err(e) => {
                return Err(e);
            },
            Ok(()) => {},
        }
        if self.next_vault_id.0 == u64::MAX {
            return Err(TokenError::VaultIdsExhausted);
        }
        let vault_id = self.next_vault_id;
        let debit = self.token.withdraw(predecessor_id.clone(), amount);
        assert(debit is Ok);
        self.next_vault_id = vault_id.next();
        let vault = Vault {
            balance: amount,
            sender_id: predecessor_id.clone(),
            receiver_id: receiver_id.clone(),
        };
        proof {
            assert(!old(self)@.is_open(vault_id.0));
            self.vaults.lemma_finite();
            lemma_total_insert(self.vaults@, vault_id.0, vault@);
        }
        self.vaults.insert(vault_id, vault);
        proof {
            self.token.accounts.lemma_finite();
            self.vaults.lemma_finite();
            old(self)@.lemma_step(final(self)@);
        }
        Ok(
            SafeTransfer {
                vault_id,
                sender_id: predecessor_id,
                receiver_id,
                amount,
                payload,
                gas_to_receiver,
                gas_for_callback: GAS_FOR_CALLBACK,
            },
        )
    }

    /// Resolves a vault: removes it and refunds to `sender_id` what the
    /// receiver did not claim. Returns the amount refunded.
    ///
    /// Only the token itself may resolve: `predecessor_id`, the caller, must
    /// be `current_account_id`, the account the token runs under. A vault can
    /// be resolved once; after that its identifier names no vault.
    pub fn resolve_vault(
        &mut self,
        current_account_id: &String,
        predecessor_id: &String,
        vault_id: VaultId,
        sender_id: String,
    ) -> (result: Result<u128, TokenError>)
        requires
            old(self).wf(),
        ensures
            final(self).wf(),
            old(self)@.precedes(final(self)@),
            final(self).next_vault_id == old(self).next_vault_id,
            result == resolve_outcome(
                old(self).vaults@,
                current_account_id@,
                predecessor_id@,
                vault_id.0,
            ),
            match result {
                Ok(refund) => {
                    &&& final(self).vaults@ == old(self).vaults@.remove(vault_id.0)
                    &&& final(self)@.resolved(vault_id.0)
                    &&& final(self).token.accounts@ == if refund > 0 {
                        credited(old(self).token.accounts@, sender_id@, refund)
                    } else {
                        old(self).token.accounts@
                    }
                },
                Err(_) => *final(self) == *old(self),
            },
    {
        if !current_account_id.same_key(predecessor_id) {
            return Err(TokenError::AccessDenied);
        }
        proof {
            self.vaults.lemma_finite();
            lemma_total_remove(self.vaults@, vault_id.0);
        }
        let vault = match self.vaults.remove(&vault_id) {
            None => {
                return Err(TokenError::VaultNotFound);
            },
            Some(vault) => vault,
        };
        assert(old(self)@.is_open(vault_id.0));
        if vault.balance > 0 {
            proof {
                self.token.lemma_balance_within_circulating(sender_id@);
            }
            let credit = self.token.deposit(sender_id, vault.balance);
            assert(credit is Ok);
        }
        proof {
            self.token.accounts.lemma_finite();
            self.vaults.lemma_finite();
            old(self)@.lemma_step(final(self)@);
        }
        Ok(vault.balance)
    }

    /// Claims `amount` from an open vault and credits it to `receiver_id`.
    ///
    /// Only the vault's receiver may claim: `predecessor_id`, the caller, must
    /// be the receiver that the vault has stored. A claim may take all that
    /// the vault still holds, and no more. The vault stays open.
    pub fn withdraw_from_vault(
        &mut self,
        predecessor_id: &String,
        vault_id: VaultId,
        receiver_id: String,
        amount: u128,
    ) -> (result: Result<(), TokenError>)
        requires
            old(self).wf(),
        ensures
            final(self).wf(),
            old(self)@.precedes(final(self)@),
            final(self).next_vault_id == old(self).next_vault_id,
            result == claim_outcome(old(self).vaults@, predecessor_id@, vault_id.0, amount),
            match result {
                Ok(()) => {
                    &&& final(self).vaults@ == old(self).vaults@.insert(
                        vault_id.0,
                        VaultView {
                            balance: (old(self).vaults@[vault_id.0].balance - amount) as u128,
                            ..old(self).vaults@[vault_id.0]
                        },
                    )
                    &&& final(self).token.accounts@ == credited(
                        old(self).token.accounts@,
                        receiver_id@,
                        amount,
                    )
                },
                Err(_) => *final(self) == *old(self),
            },
    {
        let (sender_id, vault_receiver_id, balance) = match self.vaults.get(&vault_id) {
            None => {
                return Err(TokenError::VaultNotFound);
            },
            Some(vault) => (vault.sender_id.clone(), vault.receiver_id.clone(), vault.balance),
        };
        if !predecessor_id.same_key(&vault_receiver_id) {
            return Err(TokenError::AccessDenied);
        }
        if amount > balance {
            return Err(TokenError::InsufficientBalance);
        }
        if amount == 0 {
            return Err(TokenError::InvalidAmount);
        }
        let vault = Vault { sender_id, receiver_id: vault_receiver_id, balance: balance - amount };
        proof {
            self.vaults.lemma_finite();
            lemma_total_insert(self.vaults@, vault_id.0, vault@);
            self.token.lemma_balance_within_circulating(receiver_id@);
        }
        self.vaults.insert(vault_id, vault);
        let credit = self.token.deposit(receiver_id, amount);
        assert(credit is Ok);
        proof {
            self.token.accounts.lemma_finite();
            self.vaults.lemma_finite();
            old(self)@.lemma_step(final(self)@);
        }
        Ok(())
    }
}

} // verus!
