//! The request of the `partition` command: which database and partition a
//! subcommand is about.
use vstd::prelude::*;

verus! {

/// List all known partition keys for a database.
pub struct List {
    pub db_name: String,
}

/// Get details of a specific partition.
pub struct Get {
    pub db_name: String,
    pub partition_key: String,
}

/// Create a new, open chunk in a partition.
pub struct NewChunk {
    pub db_name: String,
    pub partition_key: String,
}

/// The subcommands of `partition`.
pub enum Command {
    List(List),
    Get(Get),
    NewChunk(NewChunk),
}

/// Manage partitions.
pub struct Config {
    pub command: Command,
}

impl Config {
    /// The database the command is about.
    pub fn db_name(&self) -> (r: &String)
        ensures
            r == match &self.command {
                Command::List(l) => &l.db_name,
                Command::Get(g) => &g.db_name,
                Command::NewChunk(n) => &n.db_name,
            },
    {
        match &self.command {
            Command::List(l) => &l.db_name,
            Command::Get(g) => &g.db_name,
            Command::NewChunk(n) => &n.db_name,
        }
    }

    /// The partition the command is about, where it names one.
    pub fn partition_key(&self) -> (r: Option<&String>)
        ensures
            r == match &self.command {
                Command::List(_) => None,
                Command::Get(g) => Some(&g.partition_key),
                Command::NewChunk(n) => Some(&n.partition_key),
            },
    {
        match &self.command {
            Command::List(_) => None,
            Command::Get(g) => Some(&g.partition_key),
            Command::NewChunk(n) => Some(&n.partition_key),
        }
    }
}

} // verus!
