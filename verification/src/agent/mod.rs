//! The agent: messages, events, file changes, context compaction and the
//! turn loop.
pub mod change;
pub mod message;
pub mod event;
pub mod compaction;
pub mod rounds;
pub mod state;
pub mod turn;
pub mod history;
