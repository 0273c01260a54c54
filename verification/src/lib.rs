//! A Git-backed store of ideas, todos and notes: the verified core.
pub mod text;
pub mod time;
pub mod entry;
pub mod store;
pub mod git;
pub mod extensions;
pub mod cli;
pub mod commands;
