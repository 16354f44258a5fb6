//! Addressable memory: observations kept outside the context and reached by
//! their IDs.
pub mod hash;
pub mod ids;
pub mod number;
pub mod readback;
pub mod record;
pub mod index;
pub mod cache;
pub mod config;
pub mod pointers;
pub mod session;
pub mod retention;
pub mod listing;
pub mod runtime;
pub mod actions;
