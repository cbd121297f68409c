//! Reconciliation engine for a cluster identity-mapping document.
//!
//! The library keeps an external key-value document (a role list and a user
//! list) in step with a set of desired identity-mapping records.  It holds the
//! placeholder renderer used to resolve templated identifiers, the identity
//! value resolver, and the prune/upsert merge algorithm, each with a proved
//! contract.  Reading and writing the document itself is left to the caller.

pub mod engine;
pub mod facts;
pub mod laws;
pub mod model;
pub mod policy;
pub mod template;
