//! A scope-based resource tracker.
//!
//! The tracker records which binding owns which resource, which borrows are
//! live on each binding, and which lexical regions are open. It enforces
//! single ownership, invalidation on move, the shared/exclusive borrowing
//! rule and deterministic teardown at scope exit, and reports every violation
//! as a typed failure at the call that would introduce it.

pub mod accounts;
pub mod basics;
pub mod coins;
pub mod error;
pub mod handles;
pub mod handoff;
pub mod laws;
pub mod lemmas;
pub mod messages;
pub mod model;
pub mod references;
pub mod resource;
pub mod shapes;
pub mod tracker;
pub mod words;
