//! The shapes of the command-line surface. The argument parsing itself
//! lives in the surrounding program; these are the values it produces.

use vstd::prelude::*;

verus! {

/// A parsed command line.
#[derive(Debug)]
pub struct Cli {
    /// The subcommand asked for.
    pub command: Commands,
}

/// The subcommands the database offers.
#[derive(Debug)]
pub enum Commands {
    /// Start the database server.
    Start {
        /// Port to listen on.
        port: u16,
    },
    /// Insert a value for an entity.
    Insert {
        /// The entity to write under.
        entity: String,
        /// The value to write.
        value: String,
    },
    /// Query an entity's value.
    Query {
        /// The entity to read.
        entity: String,
        /// The timestamp to read as of, if any.
        timestamp: Option<String>,
    },
}

} // verus!
