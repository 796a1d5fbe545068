//! Core logic of an invite / follow / duress service.
//!
//! The service issues and redeems invite codes, keeps a directed follow
//! graph between users, and records per-user duress state, all persisted
//! through a record store.  This crate holds the verified core: the state
//! of every collection, the read-modify-write transitions on it, and the
//! line codec that the file backend stores records with.  Each transition
//! models one critical section: the backend holds the collection's lock
//! (or uses one conditional update) for the whole read+compute+write span,
//! which is exactly the exclusive `&mut` borrow the transition takes here.
//! The unverified binary around this crate does the I/O: it loads a
//! collection, calls a transition, and writes the result back.

pub mod codec;
pub mod duress;
pub mod errors;
pub mod follows;
pub mod invites;
pub mod laws;
pub mod records;
pub mod registry;
pub mod sequences;
pub mod sources;
pub mod text;
pub mod types;
pub mod users;

pub use errors::StoreError;
pub use errors::log_error_chain;
