//! The command line of `mind`, as plain values.
use vstd::prelude::*;

verus! {

/// The command line: a subcommand, or none (which lists the store).
pub struct Cli {
    pub command: Option<Commands>,
}

/// The subcommands.
pub enum Commands {
    /// Initialize a new mind store.
    Init { remote: Option<String> },
    /// List entries in the store.
    Ls {
        namespace_prefix: Option<String>,
        group: String,
        json: bool,
        kind: Option<String>,
        priority: Option<String>,
        status: Option<String>,
        tag: Vec<String>,
        deadline: Option<String>,
        before: Option<String>,
        after: Option<String>,
    },
    /// Show an entry.
    Show { identifier: String, json: bool },
    /// Insert a new entry.
    Insert {
        identifier: String,
        title: Option<String>,
        namespace: Option<String>,
        kind: Option<String>,
        description: Option<String>,
        priority: Option<String>,
        status: Option<String>,
        deadline: Option<String>,
        tags: Option<String>,
    },
    /// Edit an existing entry.
    Edit {
        identifier: String,
        title: Option<String>,
        namespace: Option<String>,
        kind: Option<String>,
        description: Option<String>,
        append_description: Option<String>,
        priority: Option<String>,
        status: Option<String>,
        deadline: Option<String>,
        tags: Option<String>,
    },
    /// Remove an entry.
    Rm { identifier: String, force: bool },
    /// Search entry names.
    Find { pattern: String, json: bool },
    /// Search entry contents.
    Grep { pattern: String, json: bool },
    /// Run git commands in the store directory.
    Git { args: Vec<String> },
    /// A subcommand that an external `mind-<name>` binary provides.
    External(Vec<String>),
}

} // verus!
