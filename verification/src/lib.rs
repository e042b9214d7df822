//! An in-memory balance ledger: one balance per identity, and transfers
//! between identities that conserve the total.
//!
//! A [`Ledger`] is a value that its owner holds and hands to each operation.
//! An operation that changes it takes it by `&mut`, so it runs alone and to
//! its end: no other operation sees a ledger that is half changed. A host
//! with several threads keeps the ledger behind one lock.
//!
//! Nothing is saved: a ledger starts empty and lasts as long as the value.
//!
//! The contracts speak of the ledger as a map from identities to balances
//! ([`model`]); what holds of every such map, whatever is asked of it, is
//! proved in [`laws`].

pub mod error;
pub mod identity;
pub mod laws;
pub mod ledger;
pub mod model;
pub mod wallet;

pub use error::{ErrorKind, MyResult};
pub use identity::Identity;
pub use ledger::Ledger;
pub use wallet::{credit_fits, get_balance, init_balance, send_tokens};
