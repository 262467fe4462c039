use vault_fungible_token::error::TokenError;
use vault_fungible_token::escrow::identifiers_handed_out;
use vault_fungible_token::table::Key;
use vault_fungible_token::total::{sum_of, Holding};
use vault_fungible_token::vault_token::{
    ShortAccountHash, Token, Vault, VaultId, VaultToken, SHORT_HASH_LEN, STORAGE_PRICE_PER_BYTE,
};

// The SHA-256 digests of "root" and "alice".
const ROOT_DIGEST: [u8; 32] = [
    72, 19, 73, 77, 19, 126, 22, 49, 187, 163, 1, 213, 172, 171, 110, 123, 183, 170, 116, 206, 17,
    133, 212, 86, 86, 94, 245, 29, 115, 118, 119, 178,
];
const ALICE_DIGEST: [u8; 32] = [
    43, 216, 6, 201, 127, 14, 0, 175, 26, 31, 195, 50, 143, 167, 99, 169, 38, 151, 35, 200, 219,
    143, 172, 79, 147, 175, 113, 219, 24, 109, 110, 144,
];

const SUPPLY: u128 = 1_000_000;

fn contract() -> String {
    "contract".to_string()
}

fn stranger() -> String {
    "stranger.near".to_string()
}

fn key(tag: u8) -> ShortAccountHash {
    ShortAccountHash([tag; 20])
}

fn to_yocto(near: u128) -> u128 {
    near * 10u128.pow(24)
}

fn token_with_vault(amount: u128) -> (VaultToken, VaultId) {
    let mut token = VaultToken::init(key(1), SUPPLY);
    token.register_account(key(2)).unwrap();
    let transfer = token
        .transfer_with_vault(&key(1), key(2), amount, String::new(), 300_000_000_000_000, 0)
        .unwrap();
    (token, transfer.vault_id)
}

fn held_in_all(token: &VaultToken) -> u128 {
    let mut sum = 0;
    for i in 0..token.token.accounts.len() {
        sum += *token.token.accounts.entry(i).1;
    }
    for i in 0..token.vaults.len() {
        sum += token.vaults.entry(i).1.balance;
    }
    sum
}

#[test]
fn test_sim_transfer() {
    let transfer_amount = to_yocto(100);
    let initial_balance = to_yocto(100000);
    let master_account = ShortAccountHash::from_digest(&ROOT_DIGEST);
    let alice = ShortAccountHash::from_digest(&ALICE_DIGEST);
    let mut contract = VaultToken::init(master_account, initial_balance);

    let registration_res = contract.register_account(alice);

    assert!(registration_res.is_ok());

    let transfer_res = contract.transfer(&master_account, &alice, transfer_amount);
    assert!(transfer_res.is_ok());

    let value = contract.get_balance(&master_account);
    assert_eq!(initial_balance - transfer_amount, value);
    assert_eq!(contract.get_balance(&alice), transfer_amount);
}

#[test]
fn short_hash_takes_twenty_bytes_of_a_digest() {
    assert_eq!(SHORT_HASH_LEN, 20);
    let hash = ShortAccountHash::from_digest(&ALICE_DIGEST);
    assert_eq!(
        hash.0,
        [43, 216, 6, 201, 127, 14, 0, 175, 26, 31, 195, 50, 143, 167, 99, 169, 38, 151, 35, 200]
    );
    let digest: Vec<u8> = (100..132).collect();
    let expected: Vec<u8> = (100..120).collect();
    assert_eq!(ShortAccountHash::from_digest(&digest).0.to_vec(), expected);
    let short: Vec<u8> = (0..20).collect();
    assert_eq!(ShortAccountHash::from_digest(&short).0.to_vec(), short);
}

#[test]
fn short_hashes_compare_byte_by_byte() {
    let alice = ShortAccountHash::from_digest(&ALICE_DIGEST);
    let root = ShortAccountHash::from_digest(&ROOT_DIGEST);
    let mut last = alice;
    last.0[19] ^= 1;
    let mut first = alice;
    first.0[0] ^= 0x80;
    assert!(alice.same_key(&ShortAccountHash::from_digest(&ALICE_DIGEST)));
    assert!(!alice.same_key(&last));
    assert!(!alice.same_key(&first));
    assert!(!alice.same_key(&root));
}

#[test]
fn init_registers_the_owner() {
    let token = VaultToken::init(key(1), SUPPLY);
    assert_eq!(token.get_balance(&key(1)), SUPPLY);
    assert_eq!(token.get_balance(&key(2)), 0);
    assert!(token.token.accounts.contains_key(&key(1)));
    assert!(!token.token.accounts.contains_key(&key(2)));
    assert_eq!(token.token.total_supply, SUPPLY);
    assert_eq!(token.next_vault_id, VaultId(0));
    assert_eq!(token.vaults.len(), 0);
    assert!(token.holds_invariant());
}

#[test]
fn registration_is_refused_the_second_time() {
    let mut token = VaultToken::init(key(1), SUPPLY);
    assert_eq!(token.register_account(key(2)), Ok(()));
    assert_eq!(token.register_account(key(2)), Err(TokenError::AlreadyRegistered));
    assert_eq!(token.register_account(key(1)), Err(TokenError::AlreadyRegistered));
    assert_eq!(token.get_balance(&key(2)), 0);
    assert_eq!(token.get_balance(&key(1)), SUPPLY);
    assert_eq!(token.token.accounts.len(), 2);
}

#[test]
fn unregistering_takes_the_entry_out() {
    let mut token = VaultToken::init(key(1), SUPPLY);
    assert_eq!(token.unregister_account(&key(2)), Err(TokenError::NotRegistered));
    assert_eq!(token.unregister_account(&key(1)), Err(TokenError::InvalidBalance));
    token.register_account(key(2)).unwrap();
    token.register_account(key(3)).unwrap();
    assert_eq!(token.token.accounts.len(), 3);

    assert_eq!(token.unregister_account(&key(2)), Ok(()));
    assert!(!token.token.accounts.contains_key(&key(2)));
    assert!(token.token.accounts.contains_key(&key(3)));
    assert_eq!(token.token.accounts.len(), 2);
    assert_eq!(token.get_balance(&key(2)), 0);
    assert_eq!(token.get_balance(&key(1)), SUPPLY);
    assert_eq!(token.unregister_account(&key(2)), Err(TokenError::NotRegistered));
    assert_eq!(token.transfer(&key(1), &key(2), 5), Err(TokenError::UnregisteredAccount));
    assert!(token.holds_invariant());

    assert_eq!(token.register_account(key(2)), Ok(()));
    assert_eq!(token.transfer(&key(1), &key(2), 5), Ok(()));
    assert_eq!(token.unregister_account(&key(2)), Err(TokenError::InvalidBalance));
    assert_eq!(token.get_balance(&key(2)), 5);
}

#[test]
fn transfer_needs_both_accounts_registered() {
    let mut token = VaultToken::init(key(1), SUPPLY);
    assert_eq!(token.transfer(&key(1), &key(2), 10), Err(TokenError::UnregisteredAccount));
    assert_eq!(token.transfer(&key(2), &key(1), 10), Err(TokenError::UnregisteredAccount));
    assert_eq!(token.transfer(&key(2), &key(1), 0), Err(TokenError::UnregisteredAccount));
    assert_eq!(token.get_balance(&key(1)), SUPPLY);
    token.register_account(key(2)).unwrap();
    assert_eq!(token.transfer(&key(1), &key(2), 0), Err(TokenError::InvalidAmount));
    assert_eq!(
        token.transfer(&key(1), &key(2), SUPPLY + 1),
        Err(TokenError::InsufficientBalance)
    );
    assert_eq!(token.transfer(&key(1), &key(3), 0), Err(TokenError::InvalidAmount));
    assert_eq!(
        token.transfer(&key(1), &key(3), SUPPLY + 1),
        Err(TokenError::InsufficientBalance)
    );
    assert_eq!(token.transfer(&key(1), &key(3), 1), Err(TokenError::UnregisteredAccount));
    assert_eq!(token.get_balance(&key(1)), SUPPLY);
    assert_eq!(token.transfer(&key(1), &key(2), 10), Ok(()));
    assert_eq!(token.transfer(&key(2), &key(2), 10), Ok(()));
    assert_eq!(token.get_balance(&key(1)), SUPPLY - 10);
    assert_eq!(token.get_balance(&key(2)), 10);
}

#[test]
fn ledger_refuses_what_it_cannot_do() {
    let mut ledger = Token::new(key(1), 50);
    assert_eq!(ledger.deposit(&key(1), 0), Err(TokenError::InvalidAmount));
    assert_eq!(ledger.deposit(&key(9), 0), Err(TokenError::InvalidAmount));
    assert_eq!(ledger.deposit(&key(9), 1), Err(TokenError::UnregisteredAccount));
    assert_eq!(ledger.withdraw(&key(9), 0), Err(TokenError::UnregisteredAccount));
    assert_eq!(ledger.withdraw(&key(1), 0), Err(TokenError::InvalidAmount));
    assert_eq!(ledger.withdraw(&key(1), 51), Err(TokenError::InsufficientBalance));
    assert_eq!(ledger.check_withdraw(&key(1), 51), Err(TokenError::InsufficientBalance));
    assert_eq!(ledger.check_withdraw(&key(1), 50), Ok(()));
    assert_eq!(ledger.balance(&key(1)), 50);
    assert_eq!(ledger.accounts.len(), 1);
    assert_eq!(ledger.withdraw(&key(1), 20), Ok(()));
    assert_eq!(ledger.deposit(&key(1), 5), Ok(()));
    assert_eq!(ledger.balance(&key(1)), 35);
    assert_eq!(ledger.register_account(key(1)), Err(TokenError::AlreadyRegistered));
    assert_eq!(ledger.register_account(key(2)), Ok(()));
    assert_eq!(ledger.balance(&key(2)), 0);
    assert_eq!(ledger.unregister_account(&key(3)), Err(TokenError::NotRegistered));
    assert_eq!(ledger.unregister_account(&key(1)), Err(TokenError::InvalidBalance));
    assert_eq!(ledger.unregister_account(&key(2)), Ok(()));
    assert!(!ledger.accounts.contains_key(&key(2)));
    assert_eq!(ledger.accounts.len(), 1);
    assert_eq!(ledger.total_supply, 50);
}

#[test]
fn vault_without_claim_is_refunded_in_full() {
    let (mut token, vault_id) = token_with_vault(100);
    assert_eq!(vault_id, VaultId(0));
    assert_eq!(token.get_balance(&key(1)), 999_900);
    assert_eq!(token.get_balance(&key(2)), 0);
    assert_eq!(sum_of(&token.vaults), Some(100));
    assert_eq!(token.resolve_vault(&contract(), &contract(), vault_id, key(1)), Ok(100));
    assert_eq!(token.get_balance(&key(1)), 1_000_000);
    assert_eq!(token.get_balance(&key(2)), 0);
    assert_eq!(token.vaults.len(), 0);
}

#[test]
fn vault_claim_then_resolve() {
    let (mut token, vault_id) = token_with_vault(100);
    assert_eq!(token.withdraw_from_vault(&key(2), vault_id, &key(2), 60), Ok(()));
    assert_eq!(token.get_balance(&key(2)), 60);
    assert_eq!(token.vaults.get(&vault_id).unwrap().balance, 40);
    assert_eq!(token.resolve_vault(&contract(), &contract(), vault_id, key(1)), Ok(40));
    assert_eq!(token.get_balance(&key(1)), 999_940);
    assert_eq!(token.get_balance(&key(1)) + token.get_balance(&key(2)), 1_000_000);
    assert_eq!(
        token.resolve_vault(&contract(), &contract(), vault_id, key(1)),
        Err(TokenError::VaultNotFound)
    );
    assert_eq!(
        token.withdraw_from_vault(&key(2), vault_id, &key(2), 1),
        Err(TokenError::VaultNotFound)
    );
}

#[test]
fn vault_claim_goes_to_the_account_named_in_it() {
    let (mut token, vault_id) = token_with_vault(100);
    token.register_account(key(3)).unwrap();
    assert_eq!(token.withdraw_from_vault(&key(2), vault_id, &key(3), 60), Ok(()));
    assert_eq!(token.get_balance(&key(3)), 60);
    assert_eq!(token.get_balance(&key(2)), 0);
    assert_eq!(token.get_balance(&key(1)), 999_900);
    assert_eq!(token.vaults.get(&vault_id).unwrap().balance, 40);
    assert_eq!(token.vaults.get(&vault_id).unwrap().receiver_id, key(2));
    assert_eq!(held_in_all(&token), SUPPLY);
}

#[test]
fn vault_claim_needs_a_registered_account_to_credit() {
    let (mut token, vault_id) = token_with_vault(100);
    assert_eq!(
        token.withdraw_from_vault(&key(2), vault_id, &key(7), 60),
        Err(TokenError::UnregisteredAccount)
    );
    assert_eq!(
        token.withdraw_from_vault(&key(2), vault_id, &key(7), 0),
        Err(TokenError::InvalidAmount)
    );
    assert_eq!(
        token.withdraw_from_vault(&key(2), vault_id, &key(7), 101),
        Err(TokenError::InsufficientBalance)
    );
    assert_eq!(token.vaults.get(&vault_id).unwrap().balance, 100);
    assert_eq!(token.get_balance(&key(7)), 0);

    let mut token = VaultToken::init(key(1), SUPPLY);
    let vault_id = token
        .transfer_with_vault(&key(1), key(5), 100, String::new(), 0, 0)
        .unwrap()
        .vault_id;
    assert_eq!(
        token.withdraw_from_vault(&key(5), vault_id, &key(5), 10),
        Err(TokenError::UnregisteredAccount)
    );
    assert_eq!(token.withdraw_from_vault(&key(5), vault_id, &key(1), 10), Ok(()));
    assert_eq!(token.resolve_vault(&contract(), &contract(), vault_id, key(1)), Ok(90));
    assert_eq!(token.get_balance(&key(1)), SUPPLY);
}

#[test]
fn vault_claim_is_for_the_receiver_alone() {
    let (mut token, vault_id) = token_with_vault(100);
    token.register_account(key(3)).unwrap();
    let denied = Err(TokenError::AccessDenied);
    assert_eq!(token.withdraw_from_vault(&key(3), vault_id, &key(3), 60), denied);
    assert_eq!(token.withdraw_from_vault(&key(3), vault_id, &key(2), 60), denied);
    assert_eq!(token.withdraw_from_vault(&key(1), vault_id, &key(1), 60), denied);
    assert_eq!(token.withdraw_from_vault(&key(4), vault_id, &key(4), 0), denied);
    assert_eq!(token.withdraw_from_vault(&key(3), vault_id, &key(3), 101), denied);
    assert_eq!(token.vaults.get(&vault_id).unwrap().balance, 100);
    assert_eq!(token.vaults.get(&vault_id).unwrap().receiver_id, key(2));
    assert_eq!(token.get_balance(&key(1)), 999_900);
    assert_eq!(token.get_balance(&key(2)), 0);
    assert_eq!(token.get_balance(&key(3)), 0);
    assert_eq!(token.withdraw_from_vault(&key(2), vault_id, &key(2), 10), Ok(()));
    assert_eq!(token.withdraw_from_vault(&key(3), vault_id, &key(3), 10), denied);
    assert_eq!(token.vaults.get(&vault_id).unwrap().balance, 90);
}

#[test]
fn vault_claim_is_bounded_by_the_vault() {
    let (mut token, vault_id) = token_with_vault(100);
    assert_eq!(
        token.withdraw_from_vault(&key(2), vault_id, &key(2), 101),
        Err(TokenError::InsufficientBalance)
    );
    assert_eq!(
        token.withdraw_from_vault(&key(2), vault_id, &key(2), 0),
        Err(TokenError::InvalidAmount)
    );
    assert_eq!(token.withdraw_from_vault(&key(2), vault_id, &key(2), 100), Ok(()));
    assert_eq!(
        token.withdraw_from_vault(&key(2), vault_id, &key(2), 1),
        Err(TokenError::InsufficientBalance)
    );
    assert_eq!(token.resolve_vault(&contract(), &contract(), vault_id, key(1)), Ok(0));
    assert_eq!(token.get_balance(&key(2)), 100);
    assert_eq!(token.get_balance(&key(1)), 999_900);
}

#[test]
fn refund_is_owed_to_a_registered_sender() {
    let (mut token, vault_id) = token_with_vault(100);
    assert_eq!(
        token.resolve_vault(&contract(), &contract(), vault_id, key(9)),
        Err(TokenError::UnregisteredAccount)
    );
    assert_eq!(token.vaults.get(&vault_id).unwrap().balance, 100);
    assert_eq!(
        token.resolve_vault(&contract(), &stranger(), vault_id, key(1)),
        Err(TokenError::AccessDenied)
    );
    assert_eq!(
        token.resolve_vault(&contract(), &stranger(), VaultId(9), key(1)),
        Err(TokenError::AccessDenied)
    );
    assert_eq!(token.withdraw_from_vault(&key(2), vault_id, &key(2), 100), Ok(()));
    assert_eq!(token.resolve_vault(&contract(), &contract(), vault_id, key(9)), Ok(0));
    assert_eq!(held_in_all(&token), SUPPLY);
}

#[test]
fn transfer_with_vault_follows_the_withdrawal() {
    let mut token = VaultToken::init(key(1), SUPPLY);
    let refused = token.transfer_with_vault(&key(7), key(2), 5, String::new(), 0, 0);
    assert_eq!(refused.err(), Some(TokenError::UnregisteredAccount));
    let refused = token.transfer_with_vault(&key(1), key(2), 0, String::new(), 0, 0);
    assert_eq!(refused.err(), Some(TokenError::InvalidAmount));
    let refused = token.transfer_with_vault(&key(1), key(2), SUPPLY + 1, String::new(), 0, 0);
    assert_eq!(refused.err(), Some(TokenError::InsufficientBalance));
    assert_eq!(token.next_vault_id, VaultId(0));
    assert_eq!(token.vaults.len(), 0);
    let opened = token.transfer_with_vault(&key(1), key(2), SUPPLY, String::new(), 0, 0);
    assert_eq!(opened.unwrap().vault_id, VaultId(0));
    let refused = token.transfer_with_vault(&key(1), key(2), 1, String::new(), 0, 0);
    assert_eq!(refused.err(), Some(TokenError::InsufficientBalance));
    assert_eq!(token.next_vault_id, VaultId(1));
    assert_eq!(token.get_balance(&key(1)), 0);
}

#[test]
fn transfer_with_vault_says_what_is_to_follow() {
    let mut token = VaultToken::init(key(1), SUPPLY);
    token.register_account(key(2)).unwrap();
    let transfer = token
        .transfer_with_vault(&key(1), key(2), 100, "memo".to_string(), 100_000_000_000_000, 7)
        .unwrap();
    assert_eq!(transfer.vault_id, VaultId(0));
    assert_eq!(transfer.sender_id, key(1));
    assert_eq!(transfer.amount, 100);
    assert_eq!(transfer.payload, "memo");
    assert_eq!(transfer.attached_deposit, 7);
    assert_eq!(transfer.gas_to_receiver, 70_000_000_000_000);
    assert_eq!(transfer.gas_for_callback, 5_000_000_000_000);
    assert_eq!(token.vaults.get(&VaultId(0)).unwrap().receiver_id, key(2));
    assert_eq!(token.vaults.get(&VaultId(0)).unwrap().balance, 100);
    assert_eq!(token.get_balance(&key(1)), 999_900);
    assert_eq!(token.get_balance(&key(2)), 0);
    assert_eq!(
        token.resolve_vault(&contract(), &contract(), transfer.vault_id, transfer.sender_id),
        Ok(100)
    );
    assert_eq!(token.get_balance(&key(1)), SUPPLY);
}

#[test]
fn hashed_ledger_opens_no_vault_once_the_identifiers_are_used_up() {
    let mut token = VaultToken::init(key(1), SUPPLY);
    token.next_vault_id = VaultId(u64::MAX);
    let refused = token.transfer_with_vault(&key(1), key(2), 10, String::new(), 0, 0);
    assert_eq!(refused.err(), Some(TokenError::VaultIdsExhausted));
    let refused = token.transfer_with_vault(&key(3), key(2), 10, String::new(), 0, 0);
    assert_eq!(refused.err(), Some(TokenError::UnregisteredAccount));
    assert_eq!(token.get_balance(&key(1)), SUPPLY);
    assert_eq!(token.vaults.len(), 0);
    assert_eq!(token.next_vault_id, VaultId(u64::MAX));
}

#[test]
fn hashed_ledger_conserves_the_supply_through_every_step() {
    let mut token = VaultToken::init(key(1), SUPPLY);
    token.register_account(key(2)).unwrap();
    token.register_account(key(3)).unwrap();
    assert_eq!(held_in_all(&token), SUPPLY);
    let first = token
        .transfer_with_vault(&key(1), key(2), 100, String::new(), 0, 0)
        .unwrap()
        .vault_id;
    assert_eq!(held_in_all(&token), SUPPLY);
    token.transfer(&key(1), &key(3), 250).unwrap();
    assert_eq!(held_in_all(&token), SUPPLY);
    let second = token
        .transfer_with_vault(&key(3), key(1), 50, String::new(), 0, 0)
        .unwrap()
        .vault_id;
    assert_eq!(held_in_all(&token), SUPPLY);
    token.withdraw_from_vault(&key(2), first, &key(2), 60).unwrap();
    assert_eq!(held_in_all(&token), SUPPLY);
    assert!(token.withdraw_from_vault(&key(2), second, &key(2), 1).is_err());
    assert!(token.transfer(&key(2), &key(3), 61).is_err());
    assert_eq!(held_in_all(&token), SUPPLY);
    token.resolve_vault(&contract(), &contract(), first, key(1)).unwrap();
    token.resolve_vault(&contract(), &contract(), second, key(3)).unwrap();
    assert_eq!(held_in_all(&token), SUPPLY);
    assert!(token.holds_invariant());
    assert_eq!(token.get_balance(&key(1)), 999_690);
    assert_eq!(token.get_balance(&key(2)), 60);
    assert_eq!(token.get_balance(&key(3)), 250);
}

#[test]
fn hashed_ledger_invariant_test_finds_a_broken_state() {
    let (mut token, _) = token_with_vault(100);
    assert!(token.holds_invariant());
    assert!(identifiers_handed_out(&token.vaults, token.next_vault_id));
    token.token.deposit(&key(2), 1).unwrap();
    assert!(!token.holds_invariant());
    token.token.withdraw(&key(2), 1).unwrap();
    assert!(token.holds_invariant());
    token.next_vault_id = VaultId(0);
    assert!(!identifiers_handed_out(&token.vaults, token.next_vault_id));
    assert!(!token.holds_invariant());
}

#[test]
fn a_vault_holds_its_balance() {
    let vault = Vault { receiver_id: key(2), balance: 77 };
    assert_eq!(vault.amount_held(), 77);
}

#[test]
fn storage_that_grew_is_paid_from_the_deposit() {
    assert_eq!(STORAGE_PRICE_PER_BYTE, 100_000_000_000_000_000_000);
    let cost_of_ten = 1_000_000_000_000_000_000_000;
    assert_eq!(Token::refund_storage(100, 110, cost_of_ten), Ok(0));
    assert_eq!(Token::refund_storage(100, 110, cost_of_ten + 3), Ok(3));
    assert_eq!(
        Token::refund_storage(100, 110, cost_of_ten - 1),
        Err(TokenError::InsufficientDeposit)
    );
    assert_eq!(Token::refund_storage(100, 101, 0), Err(TokenError::InsufficientDeposit));
    assert_eq!(
        Token::refund_storage(0, u64::MAX, u128::MAX),
        Err(TokenError::InsufficientDeposit)
    );
}

#[test]
fn storage_that_did_not_grow_is_refunded() {
    assert_eq!(Token::refund_storage(100, 100, 0), Ok(0));
    assert_eq!(Token::refund_storage(100, 100, 42), Ok(42));
    assert_eq!(Token::refund_storage(110, 100, 5), Ok(1_000_000_000_000_000_000_005));
    assert_eq!(Token::refund_storage(1, 0, 0), Ok(STORAGE_PRICE_PER_BYTE));
}
