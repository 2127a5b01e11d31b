//! The commands and their arguments.

use vstd::prelude::*;

verus! {

/// What the program was asked to do.
#[derive(Debug)]
pub struct Args {
    pub command: Command,
}

/// One of the four commands.
#[derive(Debug)]
pub enum Command {
    /// Clone a repository to its place under the root.
    Clone(CloneArgs),
    /// Open a shell in a local repository.
    Look(LookArgs),
    /// Print the local repositories.
    List(ListArgs),
    /// Print the root directory.
    Root,
}

#[derive(Debug)]
pub struct CloneArgs {
    /// Name of the local repository, in place of the URL's last segment.
    pub name: Option<String>,
    /// Where the repository is: a URL, `user@host:path`, or `owner/repo`.
    pub url: String,
}

#[derive(Debug)]
pub struct LookArgs {
    /// The last components of the repository's path.
    pub repository: String,
}

#[derive(Debug)]
pub struct ListArgs {
    /// Print names for completion instead of paths.
    pub completion: bool,
}

} // verus!
