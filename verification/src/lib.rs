//! Incremental parser for an append-only game chat log.
//!
//! Raw log lines are classified into chat messages (plain chat, trade chat,
//! global chat, tells), battle-lifecycle events (a melee starting, greedy
//! hits landing, a battle ending) and date-separator markers.  The
//! `ParsedChatLog` aggregate owns all parsed state, supports resuming a
//! parse where the previous call stopped, and answers queries over the
//! collected messages.

pub mod text;
pub mod battle;
pub mod calendar;
pub mod classify;
pub mod message;
pub mod model;
pub mod parser;
pub mod query;
