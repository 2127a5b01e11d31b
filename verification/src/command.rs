//! The commands: what each one works out before anything is run or
//! printed.

use crate::cli::{CloneArgs, ListArgs, LookArgs};
use crate::config::Config;
use crate::error::Error;
use crate::normalize::{normalized, parse_git_url};
use crate::path::{file_name, file_name_of, parent, parent_of, relative_to, strip_prefix};
use crate::resolve::{destination, destination_path_for};
use crate::select::{select, selected, Selection, SelectionView};
use crate::text::{append_all, chars_of, string_of, texts};
use vstd::prelude::*;

verus! {

/// What `clone` hands to the version-control tool.
#[derive(Debug)]
pub struct ClonePlan {
    /// The canonical URL to clone from.
    pub url: String,
    /// The directory to clone into.
    pub path: String,
}

/// What is said of a URL that names no host.
pub open spec fn no_host() -> Seq<char> {
    "the URL has no host"@
}

/// Works out what to clone and where to: the canonical URL that
/// `args.url` stands for, and its place under the configured root. A
/// URL without a host has no place there.
pub fn clone(config: &Config, args: &CloneArgs) -> (r: Result<ClonePlan, Error>)
    ensures
        match normalized(args.url@) {
            Ok(u) => match u.host {
                Some(host) => r matches Ok(plan) && plan.url@ == u.text && plan.path@
                    == destination(
                    config.root@,
                    host,
                    u.path,
                    match args.name {
                        Some(n) => Some(n@),
                        None => None,
                    },
                ),
                None => r matches Err(Error::Custom(why)) && why@ == no_host(),
            },
            Err(e) => r == Err::<ClonePlan, Error>(e),
        },
{
    let uri = match parse_git_url(args.url.as_str()) {
        Ok(uri) => uri,
        Err(e) => {
            return Err(e);
        },
    };
    let name = match &args.name {
        Some(n) => Some(n.as_str()),
        None => None,
    };
    if uri.host_str().is_none() {
        return Err(Error::Custom("the URL has no host".to_owned()));
    }
    match destination_path_for(config, &uri, name) {
        Ok(path) => Ok(ClonePlan { url: uri.as_str().to_owned(), path }),
        Err(e) => Err(e),
    }
}

/// The status to exit with after a program has run: its own, or 1
/// where it gave none.
pub fn exit_status(code: Option<i32>) -> (r: i32)
    ensures
        r == match code {
            Some(c) => c,
            None => 1,
        },
{
    match code {
        Some(c) => c,
        None => 1,
    }
}

/// Decides which of the local repositories `args.repository` stands
/// for.
pub fn look(args: &LookArgs, local_repos: &Vec<String>) -> (r: Selection)
    ensures
        r@ == selected(texts(local_repos@), args.repository@),
{
    select(local_repos, args.repository.as_str())
}

/// The status with which `look` ends where it opens no shell: 1 where
/// no repository was found, and 1 where several were.
pub fn look_status(found: &Selection) -> (r: Option<i32>)
    ensures
        r == match found@ {
            SelectionView::Unique(_) => None,
            _ => Some(1i32),
        },
{
    match found {
        Selection::Unique(_) => None,
        _ => Some(1),
    }
}

/// The shell to open in a repository: the configured one, or the
/// system's own.
pub open spec fn shell_of(configured: Option<Seq<char>>, windows: bool) -> Seq<char> {
    match configured {
        Some(shell) => shell,
        None => if windows {
            "powershell.exe"@
        } else {
            "/bin/sh"@
        },
    }
}

/// Picks the shell to open in a repository.
pub fn shell_program(configured: Option<String>, windows: bool) -> (r: String)
    ensures
        r@ == shell_of(
            match configured {
                Some(s) => Some(s@),
                None => None,
            },
            windows,
        ),
{
    match configured {
        Some(shell) => shell,
        None => if windows {
            "powershell.exe".to_owned()
        } else {
            "/bin/sh".to_owned()
        },
    }
}

/// The line printed before a shell is opened in `dir`.
pub fn chdir_line(dir: &str) -> (r: String)
    ensures
        r@ == "chdir "@ + dir@,
{
    let mut buf = chars_of("chdir ");
    append_all(&mut buf, &chars_of(dir));
    string_of(&buf)
}

/// The names offered for completion for a repository at `rel` below
/// the root: the repository's own name, and after it `owner/name` where
/// the directory it lies in has a name without a dot.
pub open spec fn completions(rel: Seq<char>) -> Seq<Seq<char>> {
    match file_name(rel) {
        Some(repo) => match parent(rel) {
            Some(dir) => match file_name(dir) {
                Some(owner) => if owner.contains('.') {
                    seq![repo]
                } else {
                    seq![repo, owner.push('/') + repo]
                },
                None => seq![repo],
            },
            None => seq![repo],
        },
        None => Seq::empty(),
    }
}

/// Whether `text` holds the character `c`.
pub fn holds(text: &str, c: char) -> (r: bool)
    ensures
        r == text@.contains(c),
{
    let s = chars_of(text);
    let mut i: usize = 0;
    while i < s.len()
        invariant
            s@ == text@,
            i <= s.len(),
            forall|j: int| 0 <= j < i ==> s@[j] != c,
        decreases s.len() - i,
    {
        if s[i] == c {
            assert(text@[i as int] == c);
            return true;
        }
        i = i + 1;
    }
    false
}

/// The names offered for completion for a repository at `rel` below
/// the root.
pub fn completion_lines(rel: &str) -> (r: Vec<String>)
    ensures
        texts(r@) == completions(rel@),
{
    let mut lines: Vec<String> = Vec::new();
    let repo = match file_name_of(rel) {
        Some(repo) => repo,
        None => {
            assert(texts(lines@) =~= Seq::<Seq<char>>::empty());
            return lines;
        },
    };
    lines.push(repo.clone());
    assert(texts(lines@) =~= seq![repo@]);
    match parent_of(rel) {
        Some(dir) => match file_name_of(dir.as_str()) {
            Some(owner) => {
                if !holds(owner.as_str(), '.') {
                    let mut buf = chars_of(owner.as_str());
                    buf.push('/');
                    append_all(&mut buf, &chars_of(repo.as_str()));
                    lines.push(string_of(&buf));
                    assert(texts(lines@) =~= seq![repo@, owner@.push('/') + repo@]);
                }
            },
            None => {},
        },
        None => {},
    }
    lines
}

/// Whether `path` is a repository that `list` can name: it lies below
/// `root`.
pub open spec fn lies_below(path: Seq<char>, root: Seq<char>) -> bool {
    strip_prefix(path, root) is Some
}

/// The lines that `list` prints for one repository that lies below the
/// root: its path from there, and after it, for completion, the names
/// offered for it.
pub open spec fn lines_for(completion: bool, root: Seq<char>, path: Seq<char>) -> Seq<Seq<char>> {
    let rel = strip_prefix(path, root)->Some_0;
    if completion {
        seq![rel] + completions(rel)
    } else {
        seq![rel]
    }
}

/// The lines that `list` prints for the repositories `paths`, in their
/// order.
pub open spec fn listing(completion: bool, root: Seq<char>, paths: Seq<Seq<char>>) -> Seq<
    Seq<char>,
>
    decreases paths.len(),
{
    if paths.len() == 0 {
        Seq::empty()
    } else {
        listing(completion, root, paths.drop_last()) + lines_for(completion, root, paths.last())
    }
}

/// Works out what `list` prints for the repositories found under the
/// configured root: for each its path below the root and, for
/// completion, the names offered for it.
pub fn list(args: &ListArgs, config: &Config, local_repos: &Vec<String>) -> (r: Vec<String>)
    requires
        forall|i: int|
            0 <= i < local_repos.len() ==> lies_below(
                (#[trigger] local_repos@[i])@,
                config.root@,
            ),
    ensures
        texts(r@) == listing(args.completion, config.root@, texts(local_repos@)),
{
    let mut lines: Vec<String> = Vec::new();
    let ghost all = texts(local_repos@);
    let mut i: usize = 0;
    assert(all.take(0) =~= Seq::<Seq<char>>::empty());
    assert(texts(lines@) =~= Seq::<Seq<char>>::empty());
    while i < local_repos.len()
        invariant
            i <= local_repos.len(),
            all == texts(local_repos@),
            forall|i: int|
                0 <= i < local_repos.len() ==> lies_below(
                    (#[trigger] local_repos@[i])@,
                    config.root@,
                ),
            texts(lines@) == listing(args.completion, config.root@, all.take(i as int)),
        decreases local_repos.len() - i,
    {
        let ghost before = texts(lines@);
        proof {
            let upto = all.take(i + 1);
            assert(upto.drop_last() =~= all.take(i as int));
            assert(upto.last() == local_repos@[i as int]@);
            assert(lies_below(local_repos@[i as int]@, config.root@));
        }
        let rel = relative_to(local_repos[i].as_str(), config.root.as_str()).unwrap();
        if args.completion {
            let mut more = completion_lines(rel.as_str());
            let ghost added = texts(more@);
            lines.push(rel);
            lines.append(&mut more);
            assert(texts(lines@) =~= before + (seq![rel@] + added));
        } else {
            lines.push(rel);
            assert(texts(lines@) =~= before + seq![rel@]);
        }
        i = i + 1;
    }
    assert(all.take(local_repos.len() as int) =~= all);
    lines
}

/// The configured root directory, as `root` prints it.
pub fn root(config: &Config) -> (r: String)
    ensures
        r@ == config.root@,
{
    config.root.clone()
}

} // verus!
