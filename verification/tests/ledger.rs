use fungible_token::account::AccountId;
use fungible_token::ledger::{Ledger, MintResult, TransferResult};

fn acct(b: u8) -> AccountId {
    AccountId::new(vec![b])
}

fn fresh_ledger() -> Ledger {
    Ledger::initialize(
        String::from("EduCoin"),
        String::from("EDU"),
        acct(1),
        1_000_000,
    )
}

fn total_of_listed(l: &Ledger) -> u64 {
    l.get_all_users().iter().map(|u| u.balance).sum()
}

#[test]
fn initialize_sets_metadata_and_credits_issuer() {
    let l = fresh_ledger();
    let info = l.get_token_info();
    assert_eq!(info.name, "EduCoin");
    assert_eq!(info.symbol, "EDU");
    assert_eq!(info.total_supply, 1_000_000);
    assert_eq!(info.creator.bytes, vec![1]);
    assert_eq!(l.get_balance(&acct(1)), 1_000_000);
    assert_eq!(l.get_total_supply(), 1_000_000);
    assert!(l.is_creator(&acct(1)));
    assert!(!l.is_creator(&acct(2)));
}

#[test]
fn transfer_moves_amount_and_conserves_supply() {
    let mut l = fresh_ledger();
    let r = l.transfer(&acct(1), &acct(2), 400);
    assert_eq!(r, TransferResult::Success);
    assert_eq!(l.get_balance(&acct(1)), 999_600);
    assert_eq!(l.get_balance(&acct(2)), 400);
    assert_eq!(l.get_total_supply(), 1_000_000);
}

#[test]
fn self_transfer_rejected_even_at_zero_amount() {
    let mut l = fresh_ledger();
    assert_eq!(l.transfer(&acct(2), &acct(2), 0), TransferResult::SameAccount);
    assert_eq!(l.transfer(&acct(1), &acct(1), 500), TransferResult::SameAccount);
    assert_eq!(l.get_balance(&acct(1)), 1_000_000);
    assert_eq!(l.get_balance(&acct(2)), 0);
    assert_eq!(l.get_total_supply(), 1_000_000);
}

#[test]
fn insufficient_balance_mutates_nothing() {
    let mut l = fresh_ledger();
    assert_eq!(l.transfer(&acct(1), &acct(2), 400), TransferResult::Success);
    let r = l.transfer(&acct(2), &acct(3), 1000);
    assert_eq!(r, TransferResult::InsufficientBalance);
    assert_eq!(l.get_balance(&acct(2)), 400);
    assert_eq!(l.get_balance(&acct(3)), 0);
    assert_eq!(l.get_total_supply(), 1_000_000);
}

#[test]
fn mint_by_non_issuer_rejected_without_mutation() {
    let mut l = fresh_ledger();
    let r = l.mint(&acct(2), &acct(4), 500);
    assert_eq!(r, MintResult::Unauthorized);
    assert_eq!(l.get_total_supply(), 1_000_000);
    assert_eq!(l.get_balance(&acct(4)), 0);
}

#[test]
fn mint_by_issuer_raises_supply_and_recipient() {
    let mut l = fresh_ledger();
    assert_eq!(l.transfer(&acct(1), &acct(2), 400), TransferResult::Success);
    let r = l.mint(&acct(1), &acct(4), 500);
    assert_eq!(r, MintResult::Success);
    assert_eq!(l.get_total_supply(), 1_000_500);
    assert_eq!(l.get_balance(&acct(4)), 500);
    assert_eq!(l.get_balance(&acct(1)), 999_600);
    assert_eq!(l.get_balance(&acct(2)), 400);
}

#[test]
fn listed_balances_always_sum_to_total_supply() {
    let mut l = fresh_ledger();
    assert_eq!(total_of_listed(&l), l.get_total_supply());
    l.transfer(&acct(1), &acct(2), 400);
    assert_eq!(total_of_listed(&l), l.get_total_supply());
    l.mint(&acct(1), &acct(3), 777);
    assert_eq!(total_of_listed(&l), l.get_total_supply());
    l.transfer(&acct(2), &acct(3), 400);
    assert_eq!(total_of_listed(&l), l.get_total_supply());
    l.transfer(&acct(3), &acct(9), 1);
    assert_eq!(total_of_listed(&l), l.get_total_supply());
}

#[test]
fn absent_account_holds_exactly_zero() {
    let l = fresh_ledger();
    assert_eq!(l.get_balance(&acct(200)), 0);
    assert_eq!(l.get_balance(&AccountId::new(vec![])), 0);
}

#[test]
fn emptied_account_is_not_listed() {
    let mut l = fresh_ledger();
    assert_eq!(l.transfer(&acct(1), &acct(2), 400), TransferResult::Success);
    // Move the whole remainder away: the entry must be deleted, not kept at 0.
    assert_eq!(l.transfer(&acct(2), &acct(3), 400), TransferResult::Success);
    let users = l.get_all_users();
    assert!(users.iter().all(|u| u.balance > 0));
    assert!(!users.iter().any(|u| u.user_principal.bytes == vec![2]));
    assert_eq!(l.get_balance(&acct(2)), 0);
}

#[test]
fn all_users_listed_in_key_order() {
    let mut l = fresh_ledger();
    l.transfer(&acct(1), &acct(9), 10);
    l.transfer(&acct(1), &acct(3), 20);
    l.transfer(&acct(1), &AccountId::new(vec![3, 0]), 30);
    let users = l.get_all_users();
    let keys: Vec<Vec<u8>> = users.iter().map(|u| u.user_principal.bytes.clone()).collect();
    assert_eq!(keys, vec![vec![1], vec![3], vec![3, 0], vec![9]]);
    let amounts: Vec<u64> = users.iter().map(|u| u.balance).collect();
    assert_eq!(amounts, vec![999_940, 20, 30, 10]);
}

#[test]
fn transfer_of_zero_between_distinct_accounts_succeeds() {
    let mut l = fresh_ledger();
    let r = l.transfer(&acct(2), &acct(3), 0);
    assert_eq!(r, TransferResult::Success);
    assert_eq!(l.get_balance(&acct(2)), 0);
    assert_eq!(l.get_balance(&acct(3)), 0);
    // A zero credit must not create an entry at 0.
    assert!(l.get_all_users().iter().all(|u| u.balance > 0));
    assert_eq!(l.get_all_users().len(), 1);
}

#[test]
fn mint_of_zero_by_issuer_changes_nothing() {
    let mut l = fresh_ledger();
    let r = l.mint(&acct(1), &acct(5), 0);
    assert_eq!(r, MintResult::Success);
    assert_eq!(l.get_total_supply(), 1_000_000);
    assert_eq!(l.get_balance(&acct(5)), 0);
    assert_eq!(l.get_all_users().len(), 1);
}

#[test]
fn supply_can_reach_the_integer_ceiling() {
    let mut l = Ledger::initialize(String::from("Max"), String::from("MAX"), acct(1), u64::MAX - 5);
    assert_eq!(l.mint(&acct(1), &acct(2), 5), MintResult::Success);
    assert_eq!(l.get_total_supply(), u64::MAX);
    assert_eq!(l.get_balance(&acct(1)), u64::MAX - 5);
    assert_eq!(l.get_balance(&acct(2)), 5);
    assert_eq!(
        l.transfer(&acct(1), &acct(2), u64::MAX - 5),
        TransferResult::Success
    );
    assert_eq!(l.get_balance(&acct(2)), u64::MAX);
}

#[test]
fn initialize_with_zero_supply_lists_nobody() {
    let l = Ledger::initialize(String::from("Nil"), String::from("NIL"), acct(7), 0);
    assert_eq!(l.get_total_supply(), 0);
    assert_eq!(l.get_balance(&acct(7)), 0);
    assert!(l.get_all_users().is_empty());
}

#[test]
fn account_identity_comparisons() {
    assert!(acct(1).equals(&acct(1)));
    assert!(!acct(1).equals(&acct(2)));
    assert!(!AccountId::new(vec![1]).equals(&AccountId::new(vec![1, 0])));
    assert!(AccountId::new(vec![1]).is_lt(&AccountId::new(vec![1, 0])));
    assert!(AccountId::new(vec![1, 0]).is_lt(&AccountId::new(vec![2])));
    assert!(!AccountId::new(vec![2]).is_lt(&AccountId::new(vec![1, 200])));
    assert!(AccountId::new(vec![]).is_lt(&AccountId::new(vec![0])));
    assert!(!acct(3).is_lt(&acct(3)));
}

#[test]
fn issuer_can_receive_minted_tokens() {
    let mut l = fresh_ledger();
    assert_eq!(l.mint(&acct(1), &acct(1), 250), MintResult::Success);
    assert_eq!(l.get_balance(&acct(1)), 1_000_250);
    assert_eq!(l.get_total_supply(), 1_000_250);
}
