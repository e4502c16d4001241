//! A verified core for a log-watching daemon: records read from the host's
//! journal run through a compiled graph of filters and actions that count
//! events, observe and undo NAT rewrites, render notifications, and install
//! firewall bans. Every data structure and rule here carries a contract
//! checked by Verus; the thin adapters around it — journal, mailer,
//! subprocesses, files — live in the accompanying binary crate.

pub mod actions;
pub mod assoc;
pub mod clock;
pub mod counter;
pub mod dnat;
pub mod email;
pub mod error;
pub mod filters;
pub mod log;
pub mod modules;
pub mod netfilter;
pub mod record;
pub mod template;
pub mod text;
pub mod value;
pub mod workflow;
