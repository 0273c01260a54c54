//! The logic of the subcommands.
pub mod ls;
pub mod find;
pub mod grep;
pub mod git_cmd;
pub mod insert;
pub mod edit;
pub mod prompt;
pub mod show;
