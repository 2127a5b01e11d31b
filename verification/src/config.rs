//! The configuration: the directory under which repositories live.

use crate::path::{join, pushed};
use vstd::prelude::*;

verus! {

/// The settings of the program.
#[derive(Debug)]
pub struct Config {
    /// The directory under which every local repository lives.
    pub root: String,
}

/// The root used where none is configured.
pub open spec fn default_root_of(home: Seq<char>) -> Seq<char> {
    pushed(home, ".clg"@)
}

/// Where the configuration file is looked for.
pub open spec fn config_file_of(home: Seq<char>) -> Seq<char> {
    pushed(home, ".clg.toml"@)
}

/// The root used where none is configured: `.clg` in the home directory.
pub fn default_root(home: &str) -> (r: String)
    ensures
        r@ == default_root_of(home@),
{
    join(home, ".clg")
}

impl Config {
    /// The configuration used where none is stored.
    pub fn default_in(home: &str) -> (r: Config)
        ensures
            r.root@ == default_root_of(home@),
    {
        Config { root: default_root(home) }
    }

    /// Where the configuration file is looked for: `.clg.toml` in the
    /// home directory.
    pub fn file_path(home: &str) -> (r: String)
        ensures
            r@ == config_file_of(home@),
    {
        join(home, ".clg.toml")
    }

    /// The configuration to work with, given what the configuration file
    /// held: `stored` where the file was there and could be read as a
    /// configuration, the default otherwise.
    pub fn load_from_file(home: &str, stored: Option<Config>) -> (r: Config)
        ensures
            r.root@ == match stored {
                Some(c) => c.root@,
                None => default_root_of(home@),
            },
    {
        match stored {
            Some(c) => c,
            None => Config::default_in(home),
        }
    }
}

} // verus!
