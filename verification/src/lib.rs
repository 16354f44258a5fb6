//! Zex: the decisions, formats and state of a minimal coding-agent harness.
pub mod text;
pub mod json;
pub mod agent;
pub mod command;
pub mod headless;
pub mod instructions;
pub mod secure;
pub mod textmap;
pub mod memory;
pub mod provider;
pub mod config;
pub mod session;
pub mod session_store;
pub mod tools;
