//! A fungible-token ledger: a balance map keyed by opaque account
//! identities, a metadata record with a designated issuer, and the
//! operations that move or create units. The conservation invariant —
//! the sum of all balances equals the recorded total supply — is stated
//! as the ledger's well-formedness and proved preserved by every
//! operation.

pub mod account;
pub mod balances;
pub mod ledger;
