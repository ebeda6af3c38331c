//! Opaque account identities and the order the ledger keys them by.
//!
//! An account identity is a byte string supplied by the hosting
//! environment. The ledger reads nothing out of it: it only compares
//! identities for equality and for the strict lexicographic order that
//! an ordered map keyed by byte strings uses.

use vstd::prelude::*;

verus! {

/// An opaque account identity: a globally unique byte string. The
/// ledger performs no validation beyond equality and ordering.
pub struct AccountId {
    pub bytes: Vec<u8>,
}

impl View for AccountId {
    type V = Seq<u8>;

    open spec fn view(&self) -> Seq<u8> {
        self.bytes@
    }
}

/// Strict lexicographic order on byte strings, compared from index `i`
/// onward: a proper prefix precedes its extensions, otherwise the first
/// differing byte decides.
pub open spec fn lex_lt_from(a: Seq<u8>, b: Seq<u8>, i: int) -> bool
    decreases b.len() - i,
{
    if b.len() <= i {
        false
    } else if a.len() <= i {
        true
    } else if a[i] < b[i] {
        true
    } else if b[i] < a[i] {
        false
    } else {
        lex_lt_from(a, b, i + 1)
    }
}

/// Strict lexicographic order on byte strings: the ledger's key order.
pub open spec fn lex_lt(a: Seq<u8>, b: Seq<u8>) -> bool {
    lex_lt_from(a, b, 0)
}

proof fn lemma_lex_from_irrefl(a: Seq<u8>, i: int)
    ensures
        !lex_lt_from(a, a, i),
    decreases a.len() - i,
{
    if i < a.len() {
        lemma_lex_from_irrefl(a, i + 1);
    }
}

/// The key order is irreflexive: no identity precedes itself.
pub proof fn lemma_lex_irrefl(a: Seq<u8>)
    ensures
        !lex_lt(a, a),
{
    lemma_lex_from_irrefl(a, 0);
}

proof fn lemma_lex_from_trans(a: Seq<u8>, b: Seq<u8>, c: Seq<u8>, i: int)
    requires
        lex_lt_from(a, b, i),
        lex_lt_from(b, c, i),
    ensures
        lex_lt_from(a, c, i),
    decreases c.len() - i,
{
    if i < a.len() && i < b.len() && i < c.len() && a[i] == b[i] && b[i] == c[i] {
        lemma_lex_from_trans(a, b, c, i + 1);
    }
}

/// The key order is transitive.
pub proof fn lemma_lex_trans(a: Seq<u8>, b: Seq<u8>, c: Seq<u8>)
    requires
        lex_lt(a, b),
        lex_lt(b, c),
    ensures
        lex_lt(a, c),
{
    lemma_lex_from_trans(a, b, c, 0);
}

proof fn lemma_lex_from_eq(a: Seq<u8>, b: Seq<u8>, i: int)
    requires
        0 <= i <= a.len(),
        i <= b.len(),
        !lex_lt_from(a, b, i),
        !lex_lt_from(b, a, i),
    ensures
        a.len() == b.len(),
        forall|j: int| i <= j < a.len() ==> a[j] == b[j],
    decreases a.len() - i,
{
    if i < a.len() && i < b.len() {
        lemma_lex_from_eq(a, b, i + 1);
    }
}

/// The key order is total: two identities that neither precede the
/// other are the same identity.
pub proof fn lemma_lex_trichotomy(a: Seq<u8>, b: Seq<u8>)
    ensures
        lex_lt(a, b) || lex_lt(b, a) || a == b,
{
    if !lex_lt(a, b) && !lex_lt(b, a) {
        lemma_lex_from_eq(a, b, 0);
        assert(a =~= b);
    }
}

impl AccountId {
    /// Wraps the environment-supplied bytes of an identity.
    pub fn new(bytes: Vec<u8>) -> (r: AccountId)
        ensures
            r@ == bytes@,
    {
        AccountId { bytes }
    }

    /// Equality of identities: byte-for-byte.
    pub fn equals(&self, other: &AccountId) -> (r: bool)
        ensures
            r == (self@ == other@),
    {
        let n = self.bytes.len();
        if n != other.bytes.len() {
            return false;
        }
        let mut i: usize = 0;
        while i < n
            invariant
                i <= n,
                n == self@.len(),
                n == other@.len(),
                forall|j: int| 0 <= j < i ==> self@[j] == other@[j],
            decreases n - i,
        {
            if self.bytes[i] != other.bytes[i] {
                return false;
            }
            i += 1;
        }
        proof {
            assert(self@ =~= other@);
        }
        true
    }

    /// Whether `self` precedes `other` in the ledger's key order.
    pub fn is_lt(&self, other: &AccountId) -> (r: bool)
        ensures
            r == lex_lt(self@, other@),
    {
        let alen = self.bytes.len();
        let blen = other.bytes.len();
        let mut i: usize = 0;
        while i < alen && i < blen
            invariant
                i <= alen,
                i <= blen,
                alen == self@.len(),
                blen == other@.len(),
                lex_lt(self@, other@) == lex_lt_from(self@, other@, i as int),
            decreases alen - i,
        {
            let x = self.bytes[i];
            let y = other.bytes[i];
            if x < y {
                return true;
            }
            if y < x {
                return false;
            }
            proof {
                assert(lex_lt_from(self@, other@, i as int) == lex_lt_from(
                    self@,
                    other@,
                    i as int + 1,
                ));
            }
            i += 1;
        }
        i < blen
    }
}

impl Clone for AccountId {
    /// A clone is the same identity.
    fn clone(&self) -> (r: Self)
        ensures
            r@ == self@,
    {
        AccountId { bytes: vstd::slice::slice_to_vec(self.bytes.as_slice()) }
    }
}

} // verus!
