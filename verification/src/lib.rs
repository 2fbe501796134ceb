//! Core of a personal IMAP mail synchroniser: identifiers and flags of a
//! Maildir store, the incremental fetch protocol, the planner and executor of
//! the two-way synchronisation, and the conversation graph of a mailbox.
//!
//! Every function in this crate carries a contract that Verus proves. Network,
//! disk and database access are left to the caller, which hands plain values in
//! and performs the commands that come out.

pub mod config;
pub mod exec;
pub mod fetch;
pub mod flags;
pub mod graph;
pub mod id;
pub mod index;
pub mod listing;
pub mod mail;
pub mod mid;
pub mod order;
pub mod parts;
pub mod plan;
pub mod replan;
pub mod settle;
pub mod text;
pub mod thread;
