//! The token whose ledger is keyed by short hashes of account identifiers.
//!
//! An account holds tokens only while it is registered, and pays for the
//! storage that its entry takes. A vault remembers its receiver; the sender is
//! named again when the vault is resolved. Accounts come in as their short
//! hashes: the one who calls makes them from the digests of the identifiers.

use crate::error::TokenError;
use crate::escrow::{holds_invariant, Record, State};
use crate::gas::{gas_for_receiver, receiver_gas, GAS_FOR_CALLBACK};
use crate::table::{Key, Table};
use crate::total::{
    credited, debited, held, lemma_credited_total, lemma_debited_total, lemma_held_within_total,
    lemma_total_empty, lemma_total_insert, lemma_total_remove, total, Amount, Holding,
};
use vstd::prelude::*;

pub use crate::near_contract::VaultId;

verus! {

/// The price of one byte of storage.
pub const STORAGE_PRICE_PER_BYTE: u128 = 100_000_000_000_000_000_000;

/// The number of bytes of a short account hash.
pub const SHORT_HASH_LEN: usize = 20;

/// The first twenty bytes of the SHA-256 digest of an account identifier.
/// It stands for the account in the ledger and in the vaults, so that an
/// entry takes the same storage however long the identifier is.
#[derive(Clone, Copy, Debug, PartialEq, Eq)]
pub struct ShortAccountHash(pub [u8; 20]);

impl View for ShortAccountHash {
    type V = Seq<u8>;

    open spec fn view(&self) -> Seq<u8> {
        self.0@
    }
}

impl Key for ShortAccountHash {
    fn same_key(&self, other: &Self) -> (same: bool) {
        let mut i: usize = 0;
        while i < SHORT_HASH_LEN
            invariant
                i <= SHORT_HASH_LEN,
                forall|j: int| 0 <= j < i ==> self.0@[j] == other.0@[j],
            decreases SHORT_HASH_LEN - i,
        {
            if self.0[i] != other.0[i] {
                return false;
            }
            i += 1;
        }
        assert(self.0@ =~= other.0@);
        true
    }
}

impl ShortAccountHash {
    /// The short hash made of the first twenty bytes of `digest`, the digest
    /// of an account identifier.
    pub fn from_digest(digest: &[u8]) -> (hash: Self)
        requires
            digest@.len() >= SHORT_HASH_LEN,
        ensures
            hash@ == digest@.subrange(0, SHORT_HASH_LEN as int),
    {
        let mut buf = [0u8; 20];
        let mut i: usize = 0;
        while i < SHORT_HASH_LEN
            invariant
                i <= SHORT_HASH_LEN,
                digest@.len() >= SHORT_HASH_LEN,
                forall|j: int| 0 <= j < i ==> buf@[j] == digest@[j],
            decreases SHORT_HASH_LEN - i,
        {
            buf[i] = digest[i];
            i += 1;
        }
        assert(buf@ =~= digest@.subrange(0, SHORT_HASH_LEN as int));
        ShortAccountHash(buf)
    }
}

/// Tokens held in escrow for a receiver.
#[derive(Clone, Debug)]
pub struct Vault {
    pub receiver_id: ShortAccountHash,
    pub balance: u128,
}

/// What a [`Vault`] holds, as plain values.
pub struct VaultView {
    pub receiver_id: Seq<u8>,
    pub balance: u128,
}

impl View for Vault {
    type V = VaultView;

    open spec fn view(&self) -> VaultView {
        VaultView { receiver_id: self.receiver_id@, balance: self.balance }
    }
}

impl Amount for VaultView {
    open spec fn amount(&self) -> nat {
        self.balance as nat
    }
}

impl Record for VaultView {
    open spec fn emptied(&self) -> Self {
        VaultView { balance: 0, ..*self }
    }
}

impl Holding for Vault {
    fn amount_held(&self) -> (amount: u128) {
        self.balance
    }
}

/// The value of `bytes` bytes of storage.
pub open spec fn storage_cost(bytes: int) -> int {
    bytes * STORAGE_PRICE_PER_BYTE
}

/// What is owed back to a caller who attached `attached_deposit` to a call
/// that found `initial_storage` bytes in use and left `current_storage`.
///
/// Storage that grew is paid from the deposit, which must cover it; the rest
/// of the deposit goes back. Storage that did not grow costs nothing: the
/// deposit goes back, with the value of the bytes set free.
pub open spec fn refund_outcome(
    initial_storage: u64,
    current_storage: u64,
    attached_deposit: u128,
) -> Result<u128, TokenError> {
    if current_storage > initial_storage {
        let required_deposit = storage_cost(current_storage - initial_storage);
        if required_deposit <= attached_deposit {
            Ok((attached_deposit - required_deposit) as u128)
        } else {
            Err(TokenError::InsufficientDeposit)
        }
    } else {
        Ok((attached_deposit + storage_cost(initial_storage - current_storage)) as u128)
    }
}

/// How the registration of `account` ends.
pub open spec fn register_outcome(accounts: Map<Seq<u8>, u128>, account: Seq<u8>) -> Result<
    (),
    TokenError,
> {
    if accounts.contains_key(account) {
        Err(TokenError::AlreadyRegistered)
    } else {
        Ok(())
    }
}

/// How the request to unregister `account` ends.
pub open spec fn unregister_outcome(accounts: Map<Seq<u8>, u128>, account: Seq<u8>) -> Result<
    (),
    TokenError,
> {
    if !accounts.contains_key(account) {
        Err(TokenError::NotRegistered)
    } else if accounts[account] != 0 {
        Err(TokenError::InvalidBalance)
    } else {
        Ok(())
    }
}

/// How a deposit of `amount` to `account` ends.
pub open spec fn deposit_outcome(
    accounts: Map<Seq<u8>, u128>,
    account: Seq<u8>,
    amount: u128,
) -> Result<(), TokenError> {
    if amount == 0 {
        Err(TokenError::InvalidAmount)
    } else if !accounts.contains_key(account) {
        Err(TokenError::UnregisteredAccount)
    } else {
        Ok(())
    }
}

/// How a withdrawal of `amount` from `account` ends.
pub open spec fn withdraw_outcome(
    accounts: Map<Seq<u8>, u128>,
    account: Seq<u8>,
    amount: u128,
) -> Result<(), TokenError> {
    if !accounts.contains_key(account) {
        Err(TokenError::UnregisteredAccount)
    } else if amount == 0 {
        Err(TokenError::InvalidAmount)
    } else if accounts[account] < amount {
        Err(TokenError::InsufficientBalance)
    } else {
        Ok(())
    }
}

/// How a transfer of `amount` between two accounts ends: as the withdrawal
/// does, and if that goes through, as the deposit does.
pub open spec fn transfer_outcome(
    accounts: Map<Seq<u8>, u128>,
    from: Seq<u8>,
    to: Seq<u8>,
    amount: u128,
) -> Result<(), TokenError> {
    match withdraw_outcome(accounts, from, amount) {
        Err(e) => Err(e),
        Ok(()) => deposit_outcome(accounts, to, amount),
    }
}

/// How a transfer with a vault of `amount` from `sender` ends: as the
/// withdrawal does, and if that goes through, well unless no identifier is
/// left for the vault.
pub open spec fn vault_transfer_outcome(
    accounts: Map<Seq<u8>, u128>,
    next_vault_id: u64,
    sender: Seq<u8>,
    amount: u128,
) -> Result<(), TokenError> {
    match withdraw_outcome(accounts, sender, amount) {
        Err(e) => Err(e),
        Ok(()) => if next_vault_id == u64::MAX {
            Err(TokenError::VaultIdsExhausted)
        } else {
            Ok(())
        },
    }
}

/// How a claim of `amount` from vault `id` ends, made by `caller` in favour
/// of `claimant`.
pub open spec fn claim_outcome(
    accounts: Map<Seq<u8>, u128>,
    vaults: Map<u64, VaultView>,
    caller: Seq<u8>,
    claimant: Seq<u8>,
    id: u64,
    amount: u128,
) -> Result<(), TokenError> {
    if !vaults.contains_key(id) {
        Err(TokenError::VaultNotFound)
    } else if caller != vaults[id].receiver_id {
        Err(TokenError::AccessDenied)
    } else if amount > vaults[id].balance {
        Err(TokenError::InsufficientBalance)
    } else {
        deposit_outcome(accounts, claimant, amount)
    }
}

/// How the resolution of vault `id` ends, asked for by `caller` of the token
/// that runs under `current`, with the refund going to `sender`.
pub open spec fn resolve_outcome(
    accounts: Map<Seq<u8>, u128>,
    vaults: Map<u64, VaultView>,
    current: Seq<char>,
    caller: Seq<char>,
    id: u64,
    sender: Seq<u8>,
) -> Result<u128, TokenError> {
    if current != caller {
        Err(TokenError::AccessDenied)
    } else if !vaults.contains_key(id) {
        Err(TokenError::VaultNotFound)
    } else if vaults[id].balance > 0 && !accounts.contains_key(sender) {
        Err(TokenError::UnregisteredAccount)
    } else {
        Ok(vaults[id].balance)
    }
}

/// Resolution happens at most once: once a vault has been resolved, asking
/// to resolve it in any later state is refused, with `VaultNotFound` if the
/// caller may resolve at all.
pub proof fn lemma_resolved_once(
    before: State<Seq<u8>, VaultView>,
    later: State<Seq<u8>, VaultView>,
    id: u64,
    current: Seq<char>,
    caller: Seq<char>,
    sender: Seq<u8>,
)
    requires
        before.precedes(later),
        before.resolved(id),
    ensures
        later.resolved(id),
        resolve_outcome(later.accounts, later.vaults, current, caller, id, sender) is Err,
        current == caller ==> resolve_outcome(
            later.accounts,
            later.vaults,
            current,
            caller,
            id,
            sender,
        ) == Err::<u128, TokenError>(TokenError::VaultNotFound),
{
    before.lemma_resolved_stays(later, id);
}

/// Only the receiver claims: whatever the vault holds, whatever is asked for
/// and whoever is to be credited, a claim by anyone but the receiver that the
/// vault has stored is refused with `AccessDenied`.
pub proof fn lemma_claim_needs_receiver(
    accounts: Map<Seq<u8>, u128>,
    vaults: Map<u64, VaultView>,
    caller: Seq<u8>,
    claimant: Seq<u8>,
    id: u64,
    amount: u128,
)
    requires
        vaults.contains_key(id),
        caller != vaults[id].receiver_id,
    ensures
        claim_outcome(accounts, vaults, caller, claimant, id, amount) == Err::<(), TokenError>(
            TokenError::AccessDenied,
        ),
{
}

/// The ledger: what each registered account holds, and how much was minted.
#[derive(Clone, Debug)]
pub struct Token {
    pub accounts: Table<ShortAccountHash, u128>,
    pub total_supply: u128,
}

impl Token {
    /// Whether the ledger is well formed.
    pub open spec fn wf(&self) -> bool {
        self.accounts.wf()
    }

    /// Whether `account` is registered: whether the ledger has an entry for
    /// it.
    pub open spec fn is_registered(&self, account: Seq<u8>) -> bool {
        self.accounts@.contains_key(account)
    }

    /// What `account` holds: nothing if it is not registered.
    pub open spec fn balance_of(&self, account: Seq<u8>) -> u128 {
        held(self.accounts@, account)
    }

    /// What all accounts hold together.
    pub open spec fn circulating(&self) -> nat {
        total(self.accounts@)
    }

    /// No account holds more than all accounts together.
    pub proof fn lemma_balance_within_circulating(&self, account: Seq<u8>)
        requires
            self.wf(),
        ensures
            self.balance_of(account) <= self.circulating(),
    {
        self.accounts.lemma_finite();
        lemma_held_within_total(self.accounts@, account);
    }

    /// A ledger in which `owner_id` is registered and holds the whole supply.
    pub fn new(owner_id: ShortAccountHash, total_supply: u128) -> (token: Self)
        ensures
            token.wf(),
            token.total_supply == total_supply,
            token.accounts@ == Map::<Seq<u8>, u128>::empty().insert(owner_id@, total_supply),
            token.circulating() == total_supply,
    {
        let mut accounts: Table<ShortAccountHash, u128> = Table::new();
        proof {
            accounts.lemma_finite();
            lemma_total_empty::<Seq<u8>, u128>();
            lemma_total_insert(accounts@, owner_id@, total_supply);
        }
        accounts.insert(owner_id, total_supply);
        Token { accounts, total_supply }
    }

    /// What `account_id` holds.
    pub fn balance(&self, account_id: &ShortAccountHash) -> (balance: u128)
        requires
            self.wf(),
        ensures
            balance == self.balance_of(account_id@),
    {
        match self.accounts.get(account_id) {
            Some(balance) => *balance,
            None => 0,
        }
    }

    /// Registers `account_id`, with nothing to its name.
    ///
    /// An account that is registered already is refused with
    /// `AlreadyRegistered`. The new entry takes storage: the caller measures
    /// the storage before and after this call and settles the difference with
    /// [`Token::refund_storage`].
    pub fn register_account(&mut self, account_id: ShortAccountHash) -> (result: Result<
        (),
        TokenError,
    >)
        requires
            old(self).wf(),
        ensures
            final(self).wf(),
            final(self).total_supply == old(self).total_supply,
            final(self).circulating() == old(self).circulating(),
            result == register_outcome(old(self).accounts@, account_id@),
            match result {
                Ok(()) => final(self).accounts@ == old(self).accounts@.insert(account_id@, 0),
                Err(_) => *final(self) == *old(self),
            },
    {
        if self.accounts.contains_key(&account_id) {
            return Err(TokenError::AlreadyRegistered);
        }
        proof {
            self.accounts.lemma_finite();
            lemma_total_insert(self.accounts@, account_id@, 0u128);
        }
        self.accounts.insert(account_id, 0);
        Ok(())
    }

    /// Unregisters `predecessor_id`, the caller: takes its entry out of the
    /// ledger.
    ///
    /// An account that is not registered is refused with `NotRegistered`, and
    /// one that still holds tokens with `InvalidBalance`. The entry sets
    /// storage free: the caller settles it as for
    /// [`Token::register_account`].
    pub fn unregister_account(&mut self, predecessor_id: &ShortAccountHash) -> (result: Result<
        (),
        TokenError,
    >)
        requires
            old(self).wf(),
        ensures
            final(self).wf(),
            final(self).total_supply == old(self).total_supply,
            final(self).circulating() == old(self).circulating(),
            result == unregister_outcome(old(self).accounts@, predecessor_id@),
            match result {
                Ok(()) => final(self).accounts@ == old(self).accounts@.remove(predecessor_id@),
                Err(_) => *final(self) == *old(self),
            },
    {
        let balance = match self.accounts.get(predecessor_id) {
            None => {
                return Err(TokenError::NotRegistered);
            },
            Some(balance) => *balance,
        };
        if balance != 0 {
            return Err(TokenError::InvalidBalance);
        }
        proof {
            self.accounts.lemma_finite();
            lemma_total_remove(self.accounts@, predecessor_id@);
        }
        let _ = self.accounts.remove(predecessor_id);
        Ok(())
    }

    /// Adds `amount` to what `receiver_id` holds.
    ///
    /// A zero `amount` is refused with `InvalidAmount`, and an account that
    /// is not registered with `UnregisteredAccount`. The new balance must fit
    /// the balance type.
    pub fn deposit(&mut self, receiver_id: &ShortAccountHash, amount: u128) -> (result: Result<
        (),
        TokenError,
    >)
        requires
            old(self).wf(),
            old(self).balance_of(receiver_id@) + amount <= u128::MAX,
        ensures
            final(self).wf(),
            final(self).total_supply == old(self).total_supply,
            result == deposit_outcome(old(self).accounts@, receiver_id@, amount),
            match result {
                Ok(()) => {
                    &&& final(self).accounts@ == credited(
                        old(self).accounts@,
                        receiver_id@,
                        amount,
                    )
                    &&& final(self).circulating() == old(self).circulating() + amount
                },
                Err(_) => *final(self) == *old(self),
            },
    {
        if amount == 0 {
            return Err(TokenError::InvalidAmount);
        }
        let receiver_balance = match self.accounts.get(receiver_id) {
            None => {
                return Err(TokenError::UnregisteredAccount);
            },
            Some(balance) => *balance,
        };
        proof {
            self.accounts.lemma_finite();
            lemma_credited_total(self.accounts@, receiver_id@, amount);
        }
        self.accounts.insert(*receiver_id, receiver_balance + amount);
        Ok(())
    }

    /// Whether `amount` can be taken from what `sender_id` holds, and why not
    /// if it cannot.
    pub fn check_withdraw(&self, sender_id: &ShortAccountHash, amount: u128) -> (result: Result<
        (),
        TokenError,
    >)
        requires
            self.wf(),
        ensures
            result == withdraw_outcome(self.accounts@, sender_id@, amount),
    {
        let sender_balance = match self.accounts.get(sender_id) {
            None => {
                return Err(TokenError::UnregisteredAccount);
            },
            Some(balance) => *balance,
        };
        if amount == 0 {
            return Err(TokenError::InvalidAmount);
        }
        if sender_balance < amount {
            return Err(TokenError::InsufficientBalance);
        }
        Ok(())
    }

    /// Takes `amount` from what `sender_id` holds.
    ///
    /// An account that is not registered is refused with
    /// `UnregisteredAccount`, a zero `amount` with `InvalidAmount`, and an
    /// amount that the account does not hold with `InsufficientBalance`.
    pub fn withdraw(&mut self, sender_id: &ShortAccountHash, amount: u128) -> (result: Result<
        (),
        TokenError,
    >)
        requires
            old(self).wf(),
        ensures
            final(self).wf(),
            final(self).total_supply == old(self).total_supply,
            result == withdraw_outcome(old(self).accounts@, sender_id@, amount),
            match result {
                Ok(()) => {
                    &&& final(self).accounts@ == debited(old(self).accounts@, sender_id@, amount)
                    &&& final(self).circulating() + amount == old(self).circulating()
                },
                Err(_) => *final(self) == *old(self),
            },
    {
        match self.check_withdraw(sender_id, amount) {
            Err(e) => {
                return Err(e);
            },
            Ok(()) => {},
        }
        let sender_balance = self.balance(sender_id);
        proof {
            self.accounts.lemma_finite();
            lemma_debited_total(self.accounts@, sender_id@, amount);
        }
        self.accounts.insert(*sender_id, sender_balance - amount);
        Ok(())
    }

    /// Settles the storage that a call took or set free: computes what goes
    /// back to the caller, or refuses with `InsufficientDeposit` a deposit
    /// that does not cover the storage taken.
    ///
    /// The refund must fit the balance type.
    pub fn refund_storage(
        initial_storage: u64,
        current_storage: u64,
        attached_deposit: u128,
    ) -> (result: Result<u128, TokenError>)
        requires
            current_storage <= initial_storage ==> attached_deposit + storage_cost(
                initial_storage - current_storage,
            ) <= u128::MAX,
        ensures
            result == refund_outcome(initial_storage, current_storage, attached_deposit),
    {
        if current_storage > initial_storage {
            let grown: u128 = (current_storage - initial_storage) as u128;
            match grown.checked_mul(STORAGE_PRICE_PER_BYTE) {
                Some(required_deposit) => {
                    if required_deposit <= attached_deposit {
                        Ok(attached_deposit - required_deposit)
                    } else {
                        Err(TokenError::InsufficientDeposit)
                    }
                },
                None => Err(TokenError::InsufficientDeposit),
            }
        } else {
            let freed: u128 = (initial_storage - current_storage) as u128;
            Ok(attached_deposit + freed * STORAGE_PRICE_PER_BYTE)
        }
    }
}

/// What a transfer with a vault leaves to be done once the vault is open:
/// the call that tells the receiver, and the resolution that must follow it
/// whatever becomes of that call. The caller knows the identifiers of the
/// sender and the receiver and adds them.
#[derive(Clone, Debug)]
pub struct VaultTransfer {
    /// The vault that was opened.
    pub vault_id: VaultId,
    /// The sender's account; the resolution refunds it.
    pub sender_id: ShortAccountHash,
    /// The amount put into the vault.
    pub amount: u128,
    /// What the sender wants handed to the receiver.
    pub payload: String,
    /// The deposit handed on to the receiver's handler.
    pub attached_deposit: u128,
    /// The gas for the receiver's handler.
    pub gas_to_receiver: u64,
    /// The gas for the resolution.
    pub gas_for_callback: u64,
}

// NEP 122
/// The token: its ledger, the open vaults, and the identifier of the next
/// vault.
#[derive(Clone, Debug)]
pub struct VaultToken {
    pub token: Token,
    pub vaults: Table<VaultId, Vault>,
    pub next_vault_id: VaultId,
}

impl View for VaultToken {
    type V = State<Seq<u8>, VaultView>;

    open spec fn view(&self) -> State<Seq<u8>, VaultView> {
        State {
            accounts: self.token.accounts@,
            total_supply: self.token.total_supply,
            vaults: self.vaults@,
            next_vault_id: self.next_vault_id.0,
        }
    }
}

impl VaultToken {
    /// Whether the token is well formed: its tables are, and so is the state
    /// they stand for.
    pub open spec fn wf(&self) -> bool {
        &&& self.token.wf()
        &&& self.vaults.wf()
        &&& self@.wf()
    }

    /// Whether the token is well formed, for a token whose tables are: this
    /// is the test to make of a token that was put together from stored
    /// parts.
    pub fn holds_invariant(&self) -> (ok: bool)
        requires
            self.token.wf(),
            self.vaults.wf(),
        ensures
            ok == self.wf(),
    {
        holds_invariant(
            &self.token.accounts,
            self.token.total_supply,
            &self.vaults,
            self.next_vault_id,
        )
    }

    /// A new token: `owner_id` is registered and holds the whole supply, and
    /// no vault is open.
    pub fn init(owner_id: ShortAccountHash, total_supply: u128) -> (contract: Self)
        ensures
            contract.wf(),
            contract@ == (State {
                accounts: Map::<Seq<u8>, u128>::empty().insert(owner_id@, total_supply),
                total_supply,
                vaults: Map::<u64, VaultView>::empty(),
                next_vault_id: 0,
            }),
    {
        let contract = VaultToken {
            token: Token::new(owner_id, total_supply),
            vaults: Table::new(),
            next_vault_id: VaultId(0),
        };
        proof {
            lemma_total_empty::<u64, VaultView>();
            contract.token.accounts.lemma_finite();
            contract.vaults.lemma_finite();
        }
        contract
    }

    /// Registers `account_id`, with nothing to its name.
    pub fn register_account(&mut self, account_id: ShortAccountHash) -> (result: Result<
        (),
        TokenError,
    >)
        requires
            old(self).wf(),
        ensures
            final(self).wf(),
            old(self)@.precedes(final(self)@),
            final(self).vaults == old(self).vaults,
            final(self).next_vault_id == old(self).next_vault_id,
            result == register_outcome(old(self).token.accounts@, account_id@),
            match result {
                Ok(()) => final(self).token.accounts@ == old(self).token.accounts@.insert(
                    account_id@,
                    0,
                ),
                Err(_) => *final(self) == *old(self),
            },
    {
        let result = self.token.register_account(account_id);
        proof {
            self.token.accounts.lemma_finite();
            old(self)@.lemma_step(final(self)@);
        }
        result
    }

    /// Unregisters `predecessor_id`, the caller, who must be registered and
    /// hold nothing: takes its entry out of the ledger.
    pub fn unregister_account(&mut self, predecessor_id: &ShortAccountHash) -> (result: Result<
        (),
        TokenError,
    >)
        requires
            old(self).wf(),
        ensures
            final(self).wf(),
            old(self)@.precedes(final(self)@),
            final(self).vaults == old(self).vaults,
            final(self).next_vault_id == old(self).next_vault_id,
            result == unregister_outcome(old(self).token.accounts@, predecessor_id@),
            match result {
                Ok(()) => final(self).token.accounts@ == old(self).token.accounts@.remove(
                    predecessor_id@,
                ),
                Err(_) => *final(self) == *old(self),
            },
    {
        let result = self.token.unregister_account(predecessor_id);
        proof {
            self.token.accounts.lemma_finite();
            old(self)@.lemma_step(final(self)@);
        }
        result
    }

    /// What `account_id` holds: nothing if it is not registered. Tokens in a
    /// vault are held by nobody.
    pub fn get_balance(&self, account_id: &ShortAccountHash) -> (balance: u128)
        requires
            self.token.wf(),
        ensures
            balance == self@.balance_of(account_id@),
    {
        self.token.balance(account_id)
    }

    /// Moves `amount` from `predecessor_id`, the caller, to `receiver_id`, at
    /// once and without a vault. Both must be registered.
    pub fn transfer(
        &mut self,
        predecessor_id: &ShortAccountHash,
        receiver_id: &ShortAccountHash,
        amount: u128,
    ) -> (result: Result<(), TokenError>)
        requires
            old(self).wf(),
        ensures
            final(self).wf(),
            old(self)@.precedes(final(self)@),
            final(self).vaults == old(self).vaults,
            final(self).next_vault_id == old(self).next_vault_id,
            result == transfer_outcome(
                old(self).token.accounts@,
                predecessor_id@,
                receiver_id@,
                amount,
            ),
            match result {
                Ok(()) => final(self).token.accounts@ == credited(
                    debited(old(self).token.accounts@, predecessor_id@, amount),
                    receiver_id@,
                    amount,
                ),
                Err(_) => *final(self) == *old(self),
            },
    {
        match self.token.check_withdraw(predecessor_id, amount) {
            Err(e) => {
                return Err(e);
            },
            Ok(()) => {},
        }
        if !self.token.accounts.contains_key(receiver_id) {
            return Err(TokenError::UnregisteredAccount);
        }
        let debit = self.token.withdraw(predecessor_id, amount);
        assert(debit is Ok);
        proof {
            self.token.lemma_balance_within_circulating(receiver_id@);
        }
        let credit = self.token.deposit(receiver_id, amount);
        assert(credit is Ok);
        proof {
            self.token.accounts.lemma_finite();
            old(self)@.lemma_step(final(self)@);
        }
        Ok(())
    }

    /// Opens a vault: takes `amount` from `predecessor_id`, the caller, puts
    /// it into a new vault for `receiver_id`, and says which calls are to
    /// follow.
    ///
    /// The receiver is to be told with `attached_deposit` and the gas that
    /// `prepaid_gas` leaves after the reserve; the resolution is to run after
    /// that call with the gas kept for it, whether or not the receiver's
    /// handler ran.
    pub fn transfer_with_vault(
        &mut self,
        predecessor_id: &ShortAccountHash,
        receiver_id: ShortAccountHash,
        amount: u128,
        payload: String,
        prepaid_gas: u64,
        attached_deposit: u128,
    ) -> (result: Result<VaultTransfer, TokenError>)
        requires
            old(self).wf(),
        ensures
            final(self).wf(),
            old(self)@.precedes(final(self)@),
            match result {
                Ok(transfer) => {
                    &&& vault_transfer_outcome(
                        old(self).token.accounts@,
                        old(self).next_vault_id.0,
                        predecessor_id@,
                        amount,
                    ) is Ok
                    &&& !old(self)@.is_open(old(self).next_vault_id.0)
                    &&& final(self).next_vault_id.0 == old(self).next_vault_id.0 + 1
                    &&& final(self).token.accounts@ == debited(
                        old(self).token.accounts@,
                        predecessor_id@,
                        amount,
                    )
                    &&& final(self).vaults@ == old(self).vaults@.insert(
                        old(self).next_vault_id.0,
                        VaultView { receiver_id: receiver_id@, balance: amount },
                    )
                    &&& final(self)@.circulating() + amount == old(self)@.circulating()
                    &&& final(self)@.escrowed() == old(self)@.escrowed() + amount
                    &&& transfer.vault_id == old(self).next_vault_id
                    &&& transfer.sender_id@ == predecessor_id@
                    &&& transfer.amount == amount
                    &&& transfer.payload@ == payload@
                    &&& transfer.attached_deposit == attached_deposit
                    &&& transfer.gas_to_receiver == receiver_gas(prepaid_gas)
                    &&& transfer.gas_for_callback == GAS_FOR_CALLBACK
                },
                Err(e) => {
                    &&& vault_transfer_outcome(
                        old(self).token.accounts@,
                        old(self).next_vault_id.0,
                        predecessor_id@,
                        amount,
                    ) == Err::<(), TokenError>(e)
                    &&& *final(self) == *old(self)
                },
            },
    {
        let gas_to_receiver = gas_for_receiver(prepaid_gas);
        match self.token.check_withdraw(predecessor_id, amount) {
            Err(e) => {
                return Err(e);
            },
            Ok(()) => {},
        }
        if self.next_vault_id.0 == u64::MAX {
            return Err(TokenError::VaultIdsExhausted);
        }
        let vault_id = self.next_vault_id;
        let debit = self.token.withdraw(predecessor_id, amount);
        assert(debit is Ok);
        self.next_vault_id = vault_id.next();
        let vault = Vault { balance: amount, receiver_id };
        proof {
            assert(!old(self)@.is_open(vault_id.0));
            self.vaults.lemma_finite();
            lemma_total_insert(self.vaults@, vault_id.0, vault@);
        }
        self.vaults.insert(vault_id, vault);
        proof {
            self.token.accounts.lemma_finite();
            self.vaults.lemma_finite();
            old(self)@.lemma_step(final(self)@);
        }
        Ok(
            VaultTransfer {
                vault_id,
                sender_id: *predecessor_id,
                amount,
                payload,
                attached_deposit,
                gas_to_receiver,
                gas_for_callback: GAS_FOR_CALLBACK,
            },
        )
    }

    /// Resolves a vault: removes it and refunds to `sender_id` what the
    /// receiver did not claim. Returns the amount refunded.
    ///
    /// Only the token itself may resolve: `predecessor_id`, the caller, must
    /// be `current_account_id`, the account the token runs under. A vault can
    /// be resolved once; after that its identifier names no vault. A refund
    /// is owed to a registered account only.
    pub fn resolve_vault(
        &mut self,
        current_account_id: &String,
        predecessor_id: &String,
        vault_id: VaultId,
        sender_id: ShortAccountHash,
    ) -> (result: Result<u128, TokenError>)
        requires
            old(self).wf(),
        ensures
            final(self).wf(),
            old(self)@.precedes(final(self)@),
            final(self).next_vault_id == old(self).next_vault_id,
            result == resolve_outcome(
                old(self).token.accounts@,
                old(self).vaults@,
                current_account_id@,
                predecessor_id@,
                vault_id.0,
                sender_id@,
            ),
            match result {
                Ok(refund) => {
                    &&& final(self).vaults@ == old(self).vaults@.remove(vault_id.0)
                    &&& final(self)@.resolved(vault_id.0)
                    &&& final(self).token.accounts@ == if refund > 0 {
                        credited(old(self).token.accounts@, sender_id@, refund)
                    } else {
                        old(self).token.accounts@
                    }
                },
                Err(_) => *final(self) == *old(self),
            },
    {
        if !current_account_id.same_key(predecessor_id) {
            return Err(TokenError::AccessDenied);
        }
        let balance = match self.vaults.get(&vault_id) {
            None => {
                return Err(TokenError::VaultNotFound);
            },
            Some(vault) => vault.balance,
        };
        if balance > 0 && !self.token.accounts.contains_key(&sender_id) {
            return Err(TokenError::UnregisteredAccount);
        }
        proof {
            self.vaults.lemma_finite();
            lemma_total_remove(self.vaults@, vault_id.0);
        }
        assert(old(self)@.is_open(vault_id.0));
        let _ = self.vaults.remove(&vault_id);
        if balance > 0 {
            proof {
                self.token.lemma_balance_within_circulating(sender_id@);
            }
            let credit = self.token.deposit(&sender_id, balance);
            assert(credit is Ok);
        }
        proof {
            self.token.accounts.lemma_finite();
            self.vaults.lemma_finite();
            old(self)@.lemma_step(final(self)@);
        }
        Ok(balance)
    }

    /// Claims `amount` from an open vault and credits it to `receiver_id`.
    ///
    /// Only the vault's receiver may claim: `predecessor_id`, the caller, must
    /// be the receiver that the vault has stored. The account credited must
    /// be registered. A claim may take all that the vault still holds, and no
    /// more. The vault stays open.
    pub fn withdraw_from_vault(
        &mut self,
        predecessor_id: &ShortAccountHash,
        vault_id: VaultId,
        receiver_id: &ShortAccountHash,
        amount: u128,
    ) -> (result: Result<(), TokenError>)
        requires
            old(self).wf(),
        ensures
            final(self).wf(),
            old(self)@.precedes(final(self)@),
            final(self).next_vault_id == old(self).next_vault_id,
            result == claim_outcome(
                old(self).token.accounts@,
                old(self).vaults@,
                predecessor_id@,
                receiver_id@,
                vault_id.0,
                amount,
            ),
            match result {
                Ok(()) => {
                    &&& final(self).vaults@ == old(self).vaults@.insert(
                        vault_id.0,
                        VaultView {
                            balance: (old(self).vaults@[vault_id.0].balance - amount) as u128,
                            ..old(self).vaults@[vault_id.0]
                        },
                    )
                    &&& final(self).token.accounts@ == credited(
                        old(self).token.accounts@,
                        receiver_id@,
                        amount,
                    )
                },
                Err(_) => *final(self) == *old(self),
            },
    {
        let (vault_receiver_id, balance) = match self.vaults.get(&vault_id) {
            None => {
                return Err(TokenError::VaultNotFound);
            },
            Some(vault) => (vault.receiver_id, vault.balance),
        };
        if !predecessor_id.same_key(&vault_receiver_id) {
            return Err(TokenError::AccessDenied);
        }
        if amount > balance {
            return Err(TokenError::InsufficientBalance);
        }
        if amount == 0 {
            return Err(TokenError::InvalidAmount);
        }
        if !self.token.accounts.contains_key(receiver_id) {
            return Err(TokenError::UnregisteredAccount);
        }
        let vault = Vault { receiver_id: vault_receiver_id, balance: balance - amount };
        proof {
            self.vaults.lemma_finite();
            lemma_total_insert(self.vaults@, vault_id.0, vault@);
            self.token.lemma_balance_within_circulating(receiver_id@);
        }
        self.vaults.insert(vault_id, vault);
        let credit = self.token.deposit(receiver_id, amount);
        assert(credit is Ok);
        proof {
            self.token.accounts.lemma_finite();
            self.vaults.lemma_finite();
            old(self)@.lemma_step(final(self)@);
        }
        Ok(())
    }
}

} // verus!
