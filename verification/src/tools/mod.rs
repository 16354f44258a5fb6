//! Tools: what a model is told of them, what they are given, and what they
//! give back.
pub mod arguments;
pub mod files;
pub mod definitions;
pub mod registry;
pub mod shell;
pub mod search;
