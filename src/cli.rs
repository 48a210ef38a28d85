//! The command-line surface, as plain data: what the client, the server and
//! the local tool take from their arguments. Parsing the arguments is left to
//! the binaries.
use vstd::prelude::*;
use crate::codec::{Command, Record};
use crate::errors::KvsError;

verus! {

/// The local tool: one subcommand.
pub struct Cli {
    pub command: Commands,
}

/// The client: one subcommand and the server's address.
pub struct Client {
    pub command: Commands,
    pub addr: String,
}

/// The server: the address to listen on and the engine to use.
pub struct Server {
    pub addr: String,
    pub engine: String,
}

/// The subcommands of the client and of the local tool.
#[allow(non_camel_case_types)]
pub enum Commands {
    set(SetArgs),
    get(Get),
    rm(Rm),
}

/// `get <key>`
pub struct Get {
    pub key: Option<String>,
}

/// `set <key> <value>`
pub struct SetArgs {
    pub key: Option<String>,
    pub value: Option<String>,
}

/// `rm <key>`
pub struct Rm {
    pub key: Option<String>,
}

impl Commands {
    /// The command that a subcommand asks for, or `None` where one of its
    /// arguments is missing.
    pub fn to_command(&self) -> (r: Option<Command>)
        ensures
            match self {
                Commands::set(a) => match (a.key, a.value) {
                    (Some(k), Some(v)) => r matches Some(c) && c@ == Record::Put(k@, v@),
                    _ => r is None,
                },
                Commands::get(a) => match a.key {
                    Some(k) => r matches Some(c) && c@ == Record::Get(k@),
                    None => r is None,
                },
                Commands::rm(a) => match a.key {
                    Some(k) => r matches Some(c) && c@ == Record::Rm(k@),
                    None => r is None,
                },
            },
    {
        match self {
            Commands::set(a) => match (&a.key, &a.value) {
                (Some(k), Some(v)) => Some(Command::Put { key: k.clone(), value: v.clone() }),
                _ => None,
            },
            Commands::get(a) => match &a.key {
                Some(k) => Some(Command::Get { key: k.clone() }),
                None => None,
            },
            Commands::rm(a) => match &a.key {
                Some(k) => Some(Command::Rm { key: k.clone() }),
                None => None,
            },
        }
    }
}

/// The storage engines a server can run.
#[derive(Debug, Clone, Copy, PartialEq, Eq, Structural)]
pub enum EngineKind {
    /// The log-structured store of this crate.
    Kvs,
    /// An embedded B-tree store.
    Sled,
}

impl Server {
    /// The engine named by `--engine`: `kvs` or `sled`; any other name is a
    /// configuration error.
    pub fn engine_kind(&self) -> (r: Result<EngineKind, KvsError>)
        ensures
            self.engine@ == "kvs"@ ==> r == Ok::<EngineKind, KvsError>(EngineKind::Kvs),
            self.engine@ == "sled"@ ==> r == Ok::<EngineKind, KvsError>(EngineKind::Sled),
            self.engine@ != "kvs"@ && self.engine@ != "sled"@ ==> (r matches Err(
                KvsError::Config(name),
            ) && name@ == self.engine@),
    {
        proof {
            reveal_strlit("kvs");
            reveal_strlit("sled");
            assert("kvs"@.len() != "sled"@.len());
        }
        if self.engine == String::from_str("kvs") {
            Ok(EngineKind::Kvs)
        } else if self.engine == String::from_str("sled") {
            Ok(EngineKind::Sled)
        } else {
            Err(KvsError::Config(self.engine.clone()))
        }
    }
}

} // verus!
