//! A fixed-capacity transaction-receipt record store.
//!
//! A receipt records a creator identity, a payer identity, a transaction
//! reference, title and description text, and a bounded list of file
//! descriptors, stamped with a creation timestamp. Every field has a fixed
//! capacity bound, so the worst-case encoded size of a record is a compile
//! time constant; a record is allocated at exactly that size, written once,
//! and never mutated again.

pub mod error;
pub mod layout;
pub mod record;
pub mod codec;
pub mod store;
pub mod create;
