//! The token ledger: metadata record, balance map, and the operations
//! that observe or mutate them.
//!
//! Well-formedness (`Ledger::wf`) states the conservation invariant:
//! the sum of all stored balances equals the recorded total supply. It
//! holds of a freshly initialized ledger and is preserved by every
//! operation, so it holds in every reachable state.

use vstd::prelude::*;
use crate::account::AccountId;
use crate::account::lex_lt;
use crate::balances::{BalanceLedger, lemma_bal_le_total, lemma_two_bal_le_total,
    lemma_sorted_bal_at};

verus! {

/// The token's metadata record, created once at initialization.
/// `creator` (the issuer) is immutable thereafter; `total_supply` only
/// ever grows, and only by minting.
pub struct TokenInfo {
    pub name: String,
    pub symbol: String,
    pub total_supply: u64,
    pub creator: AccountId,
}

/// One account and the balance it holds, as listed to callers.
pub struct UserInfo {
    pub user_principal: AccountId,
    pub balance: u64,
}

/// The outcome of a transfer. Any outcome but `Success` guarantees
/// that no state changed.
#[derive(PartialEq, Eq, Structural, Debug)]
pub enum TransferResult {
    Success,
    InsufficientBalance,
    SameAccount,
}

/// The outcome of a mint. `Unauthorized` guarantees that no state
/// changed.
#[derive(PartialEq, Eq, Structural, Debug)]
pub enum MintResult {
    Success,
    Unauthorized,
}

/// The whole ledger state: the metadata record and the balance map.
pub struct Ledger {
    pub info: TokenInfo,
    pub balances: BalanceLedger,
}

impl Ledger {
    /// The conservation invariant: the balance map is well-formed and
    /// the sum of all stored amounts equals the recorded total supply.
    pub open spec fn wf(&self) -> bool {
        &&& self.balances.wf()
        &&& self.balances.total() == self.info.total_supply as int
    }

    /// The balance an identity holds; zero where no entry exists.
    pub open spec fn balance_of(&self, a: Seq<u8>) -> u64 {
        self.balances.balance_of(a)
    }

    /// Creates the ledger: records the issuer and the initial supply,
    /// and credits the whole initial supply to the issuer.
    pub fn initialize(name: String, symbol: String, creator: AccountId, initial_supply: u64) -> (r:
        Ledger)
        ensures
            r.wf(),
            r.info.name@ == name@,
            r.info.symbol@ == symbol@,
            r.info.creator@ == creator@,
            r.info.total_supply == initial_supply,
            r.balance_of(creator@) == initial_supply,
            forall|x: Seq<u8>| x != creator@ ==> r.balance_of(x) == 0,
    {
        let mut balances = BalanceLedger::new();
        balances.credit(&creator, initial_supply);
        Ledger { info: TokenInfo { name, symbol, total_supply: initial_supply, creator }, balances }
    }

    /// Returns a copy of the current metadata record.
    pub fn get_token_info(&self) -> (r: TokenInfo)
        ensures
            r.name@ == self.info.name@,
            r.symbol@ == self.info.symbol@,
            r.total_supply == self.info.total_supply,
            r.creator@ == self.info.creator@,
    {
        TokenInfo {
            name: self.info.name.clone(),
            symbol: self.info.symbol.clone(),
            total_supply: self.info.total_supply,
            creator: self.info.creator.clone(),
        }
    }

    /// Returns the stored balance, or 0 if the account has no entry.
    pub fn get_balance(&self, account: &AccountId) -> (r: u64)
        requires
            self.wf(),
        ensures
            r == self.balance_of(account@),
    {
        self.balances.get(account)
    }

    /// Returns the recorded total supply.
    pub fn get_total_supply(&self) -> (r: u64)
        ensures
            r == self.info.total_supply,
    {
        self.info.total_supply
    }

    /// Whether the given identity is the issuer.
    pub fn is_creator(&self, account: &AccountId) -> (r: bool)
        ensures
            r == (account@ == self.info.creator@),
    {
        account.equals(&self.info.creator)
    }

    /// Lists every account holding a nonzero amount, with its balance,
    /// in the ledger's key order. Accounts at zero are never listed.
    pub fn get_all_users(&self) -> (r: Vec<UserInfo>)
        requires
            self.wf(),
        ensures
            r@.len() == self.balances@.len(),
            forall|i: int|
                0 <= i < r@.len() ==> r@[i].user_principal@ == self.balances@[i].0@
                    && r@[i].balance == self.balances@[i].1.amount,
            forall|i: int| 0 <= i < r@.len() ==> r@[i].balance > 0,
            forall|i: int|
                0 <= i < r@.len() ==> r@[i].balance == self.balance_of(r@[i].user_principal@),
            forall|i: int, j: int|
                0 <= i < j < r@.len() ==> lex_lt(r@[i].user_principal@, r@[j].user_principal@),
    {
        let entries = self.balances.all_entries();
        let mut r: Vec<UserInfo> = Vec::new();
        let n: usize = entries.len();
        let mut i: usize = 0;
        while i < n
            invariant
                i <= n,
                n == entries@.len(),
                n == self.balances@.len(),
                forall|j: int|
                    0 <= j < n ==> entries@[j].0@ == self.balances@[j].0@ && entries@[j].1
                        == self.balances@[j].1,
                r@.len() == i,
                forall|j: int|
                    0 <= j < i ==> r@[j].user_principal@ == self.balances@[j].0@
                        && r@[j].balance == self.balances@[j].1.amount,
            decreases n - i,
        {
            let user_principal = entries[i].0.clone();
            let balance: u64 = entries[i].1.amount;
            r.push(UserInfo { user_principal, balance });
            i += 1;
        }
        proof {
            assert forall|k: int| 0 <= k < r@.len() implies r@[k].balance == self.balance_of(
                r@[k].user_principal@,
            ) by {
                lemma_sorted_bal_at(self.balances@, k);
            }
        }
        r
    }

    /// Moves `amount` from the caller to `to`. Self-transfers are
    /// rejected unconditionally; an uncovered amount is rejected with
    /// no mutation; otherwise the debit and the credit happen as one
    /// indivisible step and the total supply is unaffected.
    pub fn transfer(&mut self, caller: &AccountId, to: &AccountId, amount: u64) -> (r:
        TransferResult)
        requires
            old(self).wf(),
        ensures
            final(self).wf(),
            final(self).info == old(self).info,
            (r == TransferResult::SameAccount) <==> caller@ == to@,
            (r == TransferResult::InsufficientBalance) <==> (caller@ != to@ && old(self).balance_of(
                caller@,
            ) < amount),
            (r == TransferResult::Success) <==> (caller@ != to@ && amount <= old(self).balance_of(
                caller@,
            )),
            r != TransferResult::Success ==> final(self).balances@ == old(self).balances@,
            r == TransferResult::Success ==> final(self).balance_of(caller@) == old(self).balance_of(
                caller@,
            ) - amount,
            r == TransferResult::Success ==> final(self).balance_of(to@) == old(self).balance_of(
                to@,
            ) + amount,
            r == TransferResult::Success ==> forall|x: Seq<u8>|
                x != caller@ && x != to@ ==> final(self).balance_of(x) == old(self).balance_of(x),
    {
        if caller.equals(to) {
            return TransferResult::SameAccount;
        }
        let sender: u64 = self.balances.get(caller);
        if sender < amount {
            return TransferResult::InsufficientBalance;
        }
        proof {
            lemma_two_bal_le_total(self.balances@, caller@, to@);
        }
        let debited: bool = self.balances.debit(caller, amount);
        proof {
            assert(debited);
        }
        self.balances.credit(to, amount);
        TransferResult::Success
    }

    /// Creates `amount` new units for `to`. Only the issuer may mint;
    /// any other caller is rejected with no mutation. A successful mint
    /// raises the total supply and the recipient's balance by exactly
    /// `amount`, as one indivisible step.
    ///
    /// Supply overflow is treated as a precondition violation: a mint
    /// that would push the total supply past `u64::MAX` is outside the
    /// ledger's domain and must be kept out by the caller.
    pub fn mint(&mut self, caller: &AccountId, to: &AccountId, amount: u64) -> (r: MintResult)
        requires
            old(self).wf(),
            caller@ == old(self).info.creator@ ==> old(self).info.total_supply + amount
                <= u64::MAX,
        ensures
            final(self).wf(),
            (r == MintResult::Success) <==> caller@ == old(self).info.creator@,
            (r == MintResult::Unauthorized) <==> caller@ != old(self).info.creator@,
            r == MintResult::Unauthorized ==> final(self).info == old(self).info
                && final(self).balances@ == old(self).balances@,
            final(self).info.name@ == old(self).info.name@,
            final(self).info.symbol@ == old(self).info.symbol@,
            final(self).info.creator@ == old(self).info.creator@,
            r == MintResult::Success ==> final(self).info.total_supply == old(self).info.total_supply
                + amount,
            r == MintResult::Success ==> final(self).balance_of(to@) == old(self).balance_of(to@)
                + amount,
            r == MintResult::Success ==> forall|x: Seq<u8>|
                x != to@ ==> final(self).balance_of(x) == old(self).balance_of(x),
    {
        if !caller.equals(&self.info.creator) {
            return MintResult::Unauthorized;
        }
        proof {
            lemma_bal_le_total(self.balances@, to@);
        }
        self.info.total_supply = self.info.total_supply + amount;
        self.balances.credit(to, amount);
        MintResult::Success
    }
}

} // verus!
