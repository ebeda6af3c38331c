//! The balance ledger: a durable-map model from account identity to a
//! positive amount, kept as a vector sorted by the key order.
//!
//! An entry exists only while its account holds a nonzero amount; an
//! amount that reaches zero deletes the entry, so absence means exactly
//! zero. The spec functions `bal_of` and `total_of` give the ledger's
//! mathematical reading: the balance of any identity, and the sum of
//! all stored amounts.

use vstd::prelude::*;
use vstd::pervasive::VecAdditionalExecFns;
use crate::account::{AccountId, lex_lt, lemma_lex_irrefl, lemma_lex_trans, lemma_lex_trichotomy};

verus! {

/// A stored balance: the unsigned amount an account holds.
#[derive(Clone, Copy, PartialEq, Eq, Structural, Debug)]
pub struct Balance {
    pub amount: u64,
}

/// The balance an identity holds in a list of entries: the amount of
/// the first entry with that key, or zero where none exists.
pub open spec fn bal_of(s: Seq<(AccountId, Balance)>, a: Seq<u8>) -> u64
    decreases s.len(),
{
    if s.len() == 0 {
        0u64
    } else if s[0].0@ == a {
        s[0].1.amount
    } else {
        bal_of(s.drop_first(), a)
    }
}

/// The sum of all stored amounts.
pub open spec fn total_of(s: Seq<(AccountId, Balance)>) -> int
    decreases s.len(),
{
    if s.len() == 0 {
        0
    } else {
        s[0].1.amount + total_of(s.drop_first())
    }
}

/// Entries stand in strictly increasing key order.
pub open spec fn sorted(s: Seq<(AccountId, Balance)>) -> bool {
    forall|i: int, j: int| 0 <= i < j < s.len() ==> lex_lt(s[i].0@, s[j].0@)
}

/// Every stored amount is nonzero: an entry at zero is deleted, never kept.
pub open spec fn positive(s: Seq<(AccountId, Balance)>) -> bool {
    forall|i: int| 0 <= i < s.len() ==> s[i].1.amount > 0
}

/// An identity that appears on no entry holds exactly zero.
pub proof fn lemma_bal_of_absent(s: Seq<(AccountId, Balance)>, a: Seq<u8>)
    requires
        forall|i: int| 0 <= i < s.len() ==> s[i].0@ != a,
    ensures
        bal_of(s, a) == 0,
    decreases s.len(),
{
    if s.len() > 0 {
        assert forall|i: int| 0 <= i < s.drop_first().len() implies s.drop_first()[i].0@ != a by {
            assert(s.drop_first()[i] == s[i + 1]);
        }
        lemma_bal_of_absent(s.drop_first(), a);
    }
}

proof fn lemma_bal_of_at(s: Seq<(AccountId, Balance)>, a: Seq<u8>, i: int)
    requires
        0 <= i < s.len(),
        s[i].0@ == a,
        forall|j: int| 0 <= j < i ==> s[j].0@ != a,
    ensures
        bal_of(s, a) == s[i].1.amount,
    decreases i,
{
    if i > 0 {
        assert(s.drop_first()[i - 1] == s[i]);
        assert forall|j: int| 0 <= j < i - 1 implies s.drop_first()[j].0@ != a by {
            assert(s.drop_first()[j] == s[j + 1]);
        }
        lemma_bal_of_at(s.drop_first(), a, i - 1);
    }
}

/// No balance exceeds the sum of all balances.
pub proof fn lemma_bal_le_total(s: Seq<(AccountId, Balance)>, a: Seq<u8>)
    ensures
        0 <= total_of(s),
        bal_of(s, a) <= total_of(s),
    decreases s.len(),
{
    if s.len() > 0 {
        lemma_bal_le_total(s.drop_first(), a);
    }
}

/// Two distinct identities together hold no more than the sum of all balances.
pub proof fn lemma_two_bal_le_total(s: Seq<(AccountId, Balance)>, a: Seq<u8>, b: Seq<u8>)
    requires
        a != b,
    ensures
        bal_of(s, a) + bal_of(s, b) <= total_of(s),
    decreases s.len(),
{
    if s.len() == 0 {
    } else if s[0].0@ == a {
        lemma_bal_le_total(s.drop_first(), b);
    } else if s[0].0@ == b {
        lemma_bal_le_total(s.drop_first(), a);
    } else {
        lemma_two_bal_le_total(s.drop_first(), a, b);
    }
}

proof fn lemma_total_update(s: Seq<(AccountId, Balance)>, i: int, e: (AccountId, Balance))
    requires
        0 <= i < s.len(),
    ensures
        total_of(s.update(i, e)) == total_of(s) - s[i].1.amount + e.1.amount,
    decreases i,
{
    let t = s.update(i, e);
    if i == 0 {
        assert(t.drop_first() =~= s.drop_first());
    } else {
        assert(t[0] == s[0]);
        assert(t.drop_first() =~= s.drop_first().update(i - 1, e));
        lemma_total_update(s.drop_first(), i - 1, e);
    }
}

proof fn lemma_total_insert(s: Seq<(AccountId, Balance)>, i: int, e: (AccountId, Balance))
    requires
        0 <= i <= s.len(),
    ensures
        total_of(s.insert(i, e)) == total_of(s) + e.1.amount,
    decreases i,
{
    let t = s.insert(i, e);
    if i == 0 {
        assert(t[0] == e);
        assert(t.drop_first() =~= s);
    } else {
        assert(t[0] == s[0]);
        assert(t.drop_first() =~= s.drop_first().insert(i - 1, e));
        lemma_total_insert(s.drop_first(), i - 1, e);
    }
}

proof fn lemma_total_remove(s: Seq<(AccountId, Balance)>, i: int)
    requires
        0 <= i < s.len(),
    ensures
        total_of(s.remove(i)) == total_of(s) - s[i].1.amount,
    decreases i,
{
    let t = s.remove(i);
    if i == 0 {
        assert(t =~= s.drop_first());
    } else {
        assert(t[0] == s[0]);
        assert(t.drop_first() =~= s.drop_first().remove(i - 1));
        lemma_total_remove(s.drop_first(), i - 1);
    }
}

proof fn lemma_bal_update(s: Seq<(AccountId, Balance)>, i: int, e: (AccountId, Balance), x: Seq<u8>)
    requires
        0 <= i < s.len(),
        s[i].0@ == e.0@,
        forall|j: int| 0 <= j < i ==> s[j].0@ != e.0@,
    ensures
        bal_of(s.update(i, e), x) == if x == e.0@ {
            e.1.amount
        } else {
            bal_of(s, x)
        },
    decreases i,
{
    let t = s.update(i, e);
    if i == 0 {
        assert(t[0] == e);
        assert(t.drop_first() =~= s.drop_first());
    } else {
        assert(t[0] == s[0]);
        assert(t.drop_first() =~= s.drop_first().update(i - 1, e));
        assert forall|j: int| 0 <= j < i - 1 implies s.drop_first()[j].0@ != e.0@ by {
            assert(s.drop_first()[j] == s[j + 1]);
        }
        assert(s.drop_first()[i - 1] == s[i]);
        lemma_bal_update(s.drop_first(), i - 1, e, x);
    }
}

proof fn lemma_bal_insert(s: Seq<(AccountId, Balance)>, i: int, e: (AccountId, Balance), x: Seq<u8>)
    requires
        0 <= i <= s.len(),
        forall|j: int| 0 <= j < s.len() ==> s[j].0@ != e.0@,
    ensures
        bal_of(s.insert(i, e), x) == if x == e.0@ {
            e.1.amount
        } else {
            bal_of(s, x)
        },
    decreases i,
{
    let t = s.insert(i, e);
    if i == 0 {
        assert(t[0] == e);
        assert(t.drop_first() =~= s);
    } else {
        assert(t[0] == s[0]);
        assert(t.drop_first() =~= s.drop_first().insert(i - 1, e));
        assert forall|j: int| 0 <= j < s.drop_first().len() implies s.drop_first()[j].0@ != e.0@ by {
            assert(s.drop_first()[j] == s[j + 1]);
        }
        lemma_bal_insert(s.drop_first(), i - 1, e, x);
    }
}

proof fn lemma_bal_remove(s: Seq<(AccountId, Balance)>, i: int, x: Seq<u8>)
    requires
        0 <= i < s.len(),
        forall|j: int| 0 <= j < s.len() && j != i ==> s[j].0@ != s[i].0@,
    ensures
        bal_of(s.remove(i), x) == if x == s[i].0@ {
            0u64
        } else {
            bal_of(s, x)
        },
    decreases i,
{
    let t = s.remove(i);
    if i == 0 {
        assert(t =~= s.drop_first());
        if x == s[0].0@ {
            assert forall|j: int| 0 <= j < s.drop_first().len() implies s.drop_first()[j].0@ != x by {
                assert(s.drop_first()[j] == s[j + 1]);
            }
            lemma_bal_of_absent(s.drop_first(), x);
        }
    } else {
        assert(t[0] == s[0]);
        assert(t.drop_first() =~= s.drop_first().remove(i - 1));
        assert(s.drop_first()[i - 1] == s[i]);
        assert forall|j: int| #![trigger s.drop_first()[j]]
            0 <= j < s.drop_first().len() && j != i - 1 implies s.drop_first()[j].0@
            != s.drop_first()[i - 1].0@ by {
            assert(s.drop_first()[j] == s[j + 1]);
        }
        lemma_bal_remove(s.drop_first(), i - 1, x);
    }
}

proof fn lemma_sorted_update(s: Seq<(AccountId, Balance)>, i: int, e: (AccountId, Balance))
    requires
        sorted(s),
        0 <= i < s.len(),
        s[i].0@ == e.0@,
    ensures
        sorted(s.update(i, e)),
{
    let t = s.update(i, e);
    assert forall|p: int, q: int| 0 <= p < q < t.len() implies lex_lt(t[p].0@, t[q].0@) by {
        assert(t[p].0@ == s[p].0@);
        assert(t[q].0@ == s[q].0@);
    }
}

proof fn lemma_sorted_remove(s: Seq<(AccountId, Balance)>, i: int)
    requires
        sorted(s),
        0 <= i < s.len(),
    ensures
        sorted(s.remove(i)),
{
    let t = s.remove(i);
    assert forall|p: int, q: int| 0 <= p < q < t.len() implies lex_lt(t[p].0@, t[q].0@) by {
        if p < i {
            assert(t[p] == s[p]);
        } else {
            assert(t[p] == s[p + 1]);
        }
        if q < i {
            assert(t[q] == s[q]);
        } else {
            assert(t[q] == s[q + 1]);
        }
    }
}

proof fn lemma_sorted_insert(s: Seq<(AccountId, Balance)>, i: int, e: (AccountId, Balance))
    requires
        sorted(s),
        0 <= i <= s.len(),
        forall|j: int| 0 <= j < i ==> lex_lt(s[j].0@, e.0@),
        forall|j: int| i <= j < s.len() ==> lex_lt(e.0@, s[j].0@),
    ensures
        sorted(s.insert(i, e)),
{
    let t = s.insert(i, e);
    assert forall|p: int, q: int| 0 <= p < q < t.len() implies lex_lt(t[p].0@, t[q].0@) by {
        if p < i {
            assert(t[p] == s[p]);
        } else if p == i {
            assert(t[p] == e);
        } else {
            assert(t[p] == s[p - 1]);
        }
        if q < i {
            assert(t[q] == s[q]);
        } else if q == i {
            assert(t[q] == e);
        } else {
            assert(t[q] == s[q - 1]);
        }
    }
}

/// In sorted entries no key repeats.
pub proof fn lemma_sorted_unique(s: Seq<(AccountId, Balance)>)
    requires
        sorted(s),
    ensures
        forall|p: int, q: int| 0 <= p < q < s.len() ==> s[p].0@ != s[q].0@,
{
    assert forall|p: int, q: int| 0 <= p < q < s.len() implies s[p].0@ != s[q].0@ by {
        lemma_lex_irrefl(s[p].0@);
    }
}

/// In sorted entries, the stored amount of an entry is the balance its
/// key holds.
pub proof fn lemma_sorted_bal_at(s: Seq<(AccountId, Balance)>, i: int)
    requires
        sorted(s),
        0 <= i < s.len(),
    ensures
        bal_of(s, s[i].0@) == s[i].1.amount,
{
    lemma_sorted_unique(s);
    lemma_bal_of_at(s, s[i].0@, i);
}

proof fn lemma_locate_found(s: Seq<(AccountId, Balance)>, a: Seq<u8>, r: int)
    requires
        0 <= r < s.len(),
        forall|j: int| 0 <= j < r ==> lex_lt(s[j].0@, a),
        s[r].0@ == a,
    ensures
        forall|j: int| 0 <= j < r ==> s[j].0@ != a,
        bal_of(s, a) == s[r].1.amount,
{
    assert forall|j: int| 0 <= j < r implies s[j].0@ != a by {
        lemma_lex_irrefl(a);
    }
    lemma_bal_of_at(s, a, r);
}

proof fn lemma_locate_absent(s: Seq<(AccountId, Balance)>, a: Seq<u8>, r: int)
    requires
        sorted(s),
        0 <= r <= s.len(),
        forall|j: int| 0 <= j < r ==> lex_lt(s[j].0@, a),
        r < s.len() ==> !lex_lt(s[r].0@, a) && s[r].0@ != a,
    ensures
        forall|j: int| 0 <= j < s.len() ==> s[j].0@ != a,
        bal_of(s, a) == 0,
        r < s.len() ==> lex_lt(a, s[r].0@),
{
    if r < s.len() {
        lemma_lex_trichotomy(s[r].0@, a);
    }
    assert forall|j: int| 0 <= j < s.len() implies s[j].0@ != a by {
        lemma_lex_irrefl(a);
        if j >= r {
            if j > r {
                lemma_lex_trans(a, s[r].0@, s[j].0@);
            }
        }
    }
    lemma_bal_of_absent(s, a);
}

/// The balance map: entries sorted by key, every amount nonzero.
pub struct BalanceLedger {
    pub entries: Vec<(AccountId, Balance)>,
}

impl View for BalanceLedger {
    type V = Seq<(AccountId, Balance)>;

    open spec fn view(&self) -> Seq<(AccountId, Balance)> {
        self.entries@
    }
}

impl BalanceLedger {
    /// Well-formedness: strictly sorted keys, no zero amounts.
    pub open spec fn wf(&self) -> bool {
        sorted(self@) && positive(self@)
    }

    /// The balance an identity holds; zero where no entry exists.
    pub open spec fn balance_of(&self, a: Seq<u8>) -> u64 {
        bal_of(self@, a)
    }

    /// The sum of all stored amounts.
    pub open spec fn total(&self) -> int {
        total_of(self@)
    }

    /// An empty ledger: every identity holds zero.
    pub fn new() -> (r: BalanceLedger)
        ensures
            r.wf(),
            r@.len() == 0,
            r.total() == 0,
            forall|x: Seq<u8>| r.balance_of(x) == 0,
    {
        BalanceLedger { entries: Vec::new() }
    }

    /// The index of the first entry whose key does not precede `a`:
    /// the place where `a` stands, or would stand.
    fn locate(&self, a: &AccountId) -> (r: usize)
        ensures
            r <= self@.len(),
            forall|j: int| 0 <= j < r ==> lex_lt(self@[j].0@, a@),
            r < self@.len() ==> !lex_lt(self@[r as int].0@, a@),
    {
        let n: usize = self.entries.len();
        let mut i: usize = 0;
        while i < n
            invariant
                i <= n,
                n == self@.len(),
                forall|j: int| 0 <= j < i ==> lex_lt(self@[j].0@, a@),
            decreases n - i,
        {
            if !self.entries[i].0.is_lt(a) {
                return i;
            }
            i += 1;
        }
        n
    }

    /// Returns the stored amount, or 0 if no entry exists. No failure mode.
    pub fn get(&self, a: &AccountId) -> (r: u64)
        requires
            self.wf(),
        ensures
            r == self.balance_of(a@),
    {
        let i: usize = self.locate(a);
        if i < self.entries.len() && self.entries[i].0.equals(a) {
            proof {
                lemma_locate_found(self@, a@, i as int);
            }
            self.entries[i].1.amount
        } else {
            proof {
                lemma_locate_absent(self@, a@, i as int);
            }
            0
        }
    }

    /// Adds `amount` to the account's balance, creating the entry if
    /// none existed. Crediting zero to an absent account stores nothing.
    pub fn credit(&mut self, a: &AccountId, amount: u64)
        requires
            old(self).wf(),
            old(self).balance_of(a@) + amount <= u64::MAX,
        ensures
            final(self).wf(),
            final(self).balance_of(a@) == old(self).balance_of(a@) + amount,
            forall|x: Seq<u8>| x != a@ ==> final(self).balance_of(x) == old(self).balance_of(x),
            final(self).total() == old(self).total() + amount,
    {
        if amount == 0 {
            return;
        }
        let ghost s = self@;
        let i: usize = self.locate(a);
        if i < self.entries.len() && self.entries[i].0.equals(a) {
            proof {
                lemma_locate_found(s, a@, i as int);
            }
            let cur: u64 = self.entries[i].1.amount;
            let e = (a.clone(), Balance { amount: cur + amount });
            self.entries.set(i, e);
            proof {
                lemma_sorted_update(s, i as int, e);
                lemma_total_update(s, i as int, e);
                assert forall|x: Seq<u8>| x != a@ implies self.balance_of(x) == bal_of(s, x) by {
                    lemma_bal_update(s, i as int, e, x);
                }
                lemma_bal_update(s, i as int, e, a@);
                assert forall|k: int| 0 <= k < self@.len() implies self@[k].1.amount > 0 by {
                    if k != i {
                        assert(self@[k] == s[k]);
                    }
                }
            }
        } else {
            proof {
                lemma_locate_absent(s, a@, i as int);
            }
            let e = (a.clone(), Balance { amount });
            self.entries.insert(i, e);
            proof {
                assert forall|j: int| i <= j < s.len() implies lex_lt(e.0@, s[j].0@) by {
                    if j > i {
                        lemma_lex_trans(a@, s[i as int].0@, s[j].0@);
                    }
                }
                lemma_sorted_insert(s, i as int, e);
                lemma_total_insert(s, i as int, e);
                assert forall|x: Seq<u8>| x != a@ implies self.balance_of(x) == bal_of(s, x) by {
                    lemma_bal_insert(s, i as int, e, x);
                }
                lemma_bal_insert(s, i as int, e, a@);
                assert forall|k: int| 0 <= k < self@.len() implies self@[k].1.amount > 0 by {
                    if k < i {
                        assert(self@[k] == s[k]);
                    } else if k > i {
                        assert(self@[k] == s[k - 1]);
                    }
                }
            }
        }
    }

    /// Subtracts `amount` if the stored balance covers it, deleting the
    /// entry when the remainder is zero; otherwise changes nothing and
    /// reports failure.
    pub fn debit(&mut self, a: &AccountId, amount: u64) -> (r: bool)
        requires
            old(self).wf(),
        ensures
            final(self).wf(),
            r == (amount <= old(self).balance_of(a@)),
            r ==> final(self).balance_of(a@) == old(self).balance_of(a@) - amount,
            r ==> forall|x: Seq<u8>|
                x != a@ ==> final(self).balance_of(x) == old(self).balance_of(x),
            r ==> final(self).total() == old(self).total() - amount,
            !r ==> final(self)@ == old(self)@,
    {
        let ghost s = self@;
        let i: usize = self.locate(a);
        if i < self.entries.len() && self.entries[i].0.equals(a) {
            proof {
                lemma_locate_found(s, a@, i as int);
            }
            let cur: u64 = self.entries[i].1.amount;
            if cur < amount {
                return false;
            }
            if cur == amount {
                proof {
                    lemma_sorted_unique(s);
                }
                self.entries.remove(i);
                proof {
                    lemma_sorted_remove(s, i as int);
                    lemma_total_remove(s, i as int);
                    assert forall|x: Seq<u8>| x != a@ implies self.balance_of(x) == bal_of(
                        s,
                        x,
                    ) by {
                        lemma_bal_remove(s, i as int, x);
                    }
                    lemma_bal_remove(s, i as int, a@);
                    assert forall|k: int| 0 <= k < self@.len() implies self@[k].1.amount > 0 by {
                        if k < i {
                            assert(self@[k] == s[k]);
                        } else {
                            assert(self@[k] == s[k + 1]);
                        }
                    }
                }
                true
            } else {
                let e = (a.clone(), Balance { amount: cur - amount });
                self.entries.set(i, e);
                proof {
                    lemma_sorted_update(s, i as int, e);
                    lemma_total_update(s, i as int, e);
                    assert forall|x: Seq<u8>| x != a@ implies self.balance_of(x) == bal_of(
                        s,
                        x,
                    ) by {
                        lemma_bal_update(s, i as int, e, x);
                    }
                    lemma_bal_update(s, i as int, e, a@);
                    assert forall|k: int| 0 <= k < self@.len() implies self@[k].1.amount > 0 by {
                        if k != i {
                            assert(self@[k] == s[k]);
                        }
                    }
                }
                true
            }
        } else {
            proof {
                lemma_locate_absent(s, a@, i as int);
            }
            amount == 0
        }
    }

    /// A one-shot snapshot of every account holding a nonzero amount,
    /// in the ledger's key order.
    pub fn all_entries(&self) -> (r: Vec<(AccountId, Balance)>)
        ensures
            r@.len() == self@.len(),
            forall|i: int|
                0 <= i < r@.len() ==> r@[i].0@ == self@[i].0@ && r@[i].1 == self@[i].1,
    {
        let mut r: Vec<(AccountId, Balance)> = Vec::new();
        let n: usize = self.entries.len();
        let mut i: usize = 0;
        while i < n
            invariant
                i <= n,
                n == self@.len(),
                r@.len() == i,
                forall|j: int| 0 <= j < i ==> r@[j].0@ == self@[j].0@ && r@[j].1 == self@[j].1,
            decreases n - i,
        {
            let key = self.entries[i].0.clone();
            let val = self.entries[i].1;
            r.push((key, val));
            i += 1;
        }
        r
    }
}

} // verus!
