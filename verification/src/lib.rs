//! Reconciles a machine's installed package set against a declared set of
//! named roles, each role mapping to a list of tool (package) names served by
//! a remote catalog.
//!
//! The verified core covers:
//! - normalization of role and tool names ([`text`]),
//! - deduplicated, sorted sets of names and their set algebra ([`names`]),
//! - the persisted role-file representation and its round trip ([`store`]),
//! - resolution of catalog fetch outcomes into a tool set ([`catalog`]),
//! - reconciliation planning for add / remove / update commands ([`reconcile`]),
//! - the bulk-then-per-item package-manager execution state machine
//!   ([`executor`]).
//!
//! Network access, file I/O and process invocation stay outside the library;
//! callers hand in fetched bodies, file contents and process exit statuses as
//! plain values.

#![verifier::loop_isolation(false)]

pub mod catalog;
pub mod executor;
pub mod names;
pub mod order;
pub mod reconcile;
pub mod store;
pub mod text;
