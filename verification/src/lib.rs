//! A small library for a chat bot that tracks, per conversation, the set of
//! participants who opted in to be mentioned, a reference to the active poll
//! message, and a reverse index from poll identifier to conversation.
//!
//! The store itself is [`store::ChatStorage`]: a keyed store over three
//! collections with exact contracts on every operation. The snapshot format
//! used to survive restarts is a directory of per-conversation JSON files;
//! [`store::ChatStorage::dump`] produces those files as in-memory name/body
//! pairs and [`store::ChatStorage::load`] rebuilds a store from them, so that
//! the surrounding process only performs the actual file reads and writes.

pub mod commands;
pub mod json;
pub mod kvlist;
pub mod laws;
pub mod numeral;
pub mod snapshot;
pub mod store;
pub mod text;
