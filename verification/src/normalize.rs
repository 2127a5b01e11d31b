//! Reading a repository reference.
//!
//! A reference is an absolute URL, the shorthand `user@host:path` for an
//! `ssh` URL, or the shorthand `owner/repo` for a repository on the
//! default host. Whatever its form, it stands for one canonical URL.

use crate::error::Error;
use crate::locator::{outcome, parsed, resolved, CanonicalUrl, UrlParts};
use crate::text::{append_range, chars_of, string_of};
use vstd::prelude::*;

verus! {

/// The URL against which `owner/repo` is read.
pub open spec fn default_base() -> Seq<char> {
    "https://github.com"@
}

/// Whether position `i` of `u` holds a colon with neither a colon nor a
/// slash before it: the colon of `user@host:path`.
pub open spec fn is_scp_colon(u: Seq<char>, i: int) -> bool {
    &&& 0 <= i < u.len()
    &&& u[i] == ':'
    &&& forall|j: int| 0 <= j < i ==> u[j] != ':' && u[j] != '/'
}

/// Whether `u` has the shape `user@host:path`: its first colon comes
/// before any slash.
pub open spec fn scp_like(u: Seq<char>) -> bool {
    exists|i: int| is_scp_colon(u, i)
}

/// The position of the colon that makes `u` scp-like.
pub open spec fn scp_colon(u: Seq<char>) -> int {
    choose|i: int| is_scp_colon(u, i)
}

/// The `ssh` URL that `user@host:path` stands for, the colon being at
/// position `i`: `ssh://user@host/path`.
pub open spec fn scp_expanded(u: Seq<char>, i: int) -> Seq<char> {
    "ssh://"@ + u.subrange(0, i) + seq!['/'] + u.subrange(i + 1, u.len() as int)
}

/// At most one position holds the colon of an scp-like text.
pub proof fn lemma_scp_colon_unique(u: Seq<char>, i: int, j: int)
    requires
        is_scp_colon(u, i),
        is_scp_colon(u, j),
    ensures
        i == j,
{
    if i < j {
        assert(u[i] != ':');
    } else if j < i {
        assert(u[j] != ':');
    }
}

/// Finds the colon of `user@host:path`, as a position among the
/// characters of `u`.
pub fn find_scp_colon(u: &str) -> (r: Option<usize>)
    ensures
        match r {
            Some(i) => is_scp_colon(u@, i as int) && scp_colon(u@) == i,
            None => !scp_like(u@),
        },
{
    let s = chars_of(u);
    let mut i: usize = 0;
    while i < s.len()
        invariant
            s@ == u@,
            i <= s.len(),
            forall|j: int| 0 <= j < i ==> s@[j] != ':' && s@[j] != '/',
        decreases s.len() - i,
    {
        if s[i] == ':' {
            proof {
                assert(is_scp_colon(u@, i as int));
                lemma_scp_colon_unique(u@, i as int, scp_colon(u@));
            }
            return Some(i);
        }
        if s[i] == '/' {
            assert forall|k: int| !is_scp_colon(u@, k) by {
                if is_scp_colon(u@, k) {
                    if k < i {
                        assert(s@[k] != ':');
                    } else if k > i {
                        assert(u@[i as int] != '/');
                    }
                }
            }
            return None;
        }
        i = i + 1;
    }
    assert forall|k: int| !is_scp_colon(u@, k) by {
        if is_scp_colon(u@, k) {
            assert(s@[k] != ':');
        }
    }
    None
}

/// The `ssh` URL that `user@host:path` stands for, the colon being the
/// character of `u` at position `colon_idx`.
pub fn scp_like_url(u: &str, colon_idx: usize) -> (r: String)
    requires
        colon_idx < u@.len(),
    ensures
        r@ == scp_expanded(u@, colon_idx as int),
{
    let s = chars_of(u);
    let mut buf = chars_of("ssh://");
    assert(colon_idx < s.len());
    append_range(&mut buf, &s, 0, colon_idx);
    buf.push('/');
    append_range(&mut buf, &s, colon_idx + 1, s.len());
    string_of(&buf)
}

/// What to try once a text has been refused as an absolute URL.
#[derive(Debug)]
pub enum Retry {
    /// Read this `ssh` URL instead: the text was `user@host:path`.
    Ssh(String),
    /// Read the text as `owner/repo` on the default host.
    DefaultHost,
    /// Nothing: the text is malformed.
    Nothing,
}

/// A `Retry` in terms of plain text.
pub enum RetryView {
    Ssh(Seq<char>),
    DefaultHost,
    Nothing,
}

impl View for Retry {
    type V = RetryView;

    open spec fn view(&self) -> RetryView {
        match self {
            Retry::Ssh(t) => RetryView::Ssh(t@),
            Retry::DefaultHost => RetryView::DefaultHost,
            Retry::Nothing => RetryView::Nothing,
        }
    }
}

/// What to try once `u` has been refused as an absolute URL for the
/// reason `e`. Only a text that lacks a scheme is read again: as an
/// `ssh` URL where it is scp-like, on the default host otherwise.
pub open spec fn retry(u: Seq<char>, e: url::ParseError) -> RetryView {
    if e == url::ParseError::RelativeUrlWithoutBase {
        if scp_like(u) {
            RetryView::Ssh(scp_expanded(u, scp_colon(u)))
        } else {
            RetryView::DefaultHost
        }
    } else {
        RetryView::Nothing
    }
}

/// Decides what to try once `u` has been refused as an absolute URL for
/// the reason `e`.
pub fn retry_after(u: &str, e: url::ParseError) -> (r: Retry)
    ensures
        r@ == retry(u@, e),
{
    match e {
        url::ParseError::RelativeUrlWithoutBase => match find_scp_colon(u) {
            Some(i) => Retry::Ssh(scp_like_url(u, i)),
            None => Retry::DefaultHost,
        },
        _ => Retry::Nothing,
    }
}

/// A parse that failed, as an error of this library.
pub open spec fn lifted(r: Result<UrlParts, url::ParseError>) -> Result<UrlParts, Error> {
    match r {
        Ok(u) => Ok(u),
        Err(e) => Err(Error::UrlParseError(e)),
    }
}

/// The canonical URL that a text stands for: the text itself where it
/// is an absolute URL; failing that for want of a scheme, the `ssh` URL
/// of `user@host:path`, or else `owner/repo` on the default host.
pub open spec fn normalized(u: Seq<char>) -> Result<UrlParts, Error> {
    match parsed(u) {
        Ok(url) => Ok(url),
        Err(e) => match retry(u, e) {
            RetryView::Ssh(t) => lifted(parsed(t)),
            RetryView::DefaultHost => lifted(resolved(default_base(), u)),
            RetryView::Nothing => Err(Error::UrlParseError(e)),
        },
    }
}

/// The result of a command step, with the URL seen as its parts.
pub open spec fn url_outcome(r: Result<CanonicalUrl, Error>) -> Result<UrlParts, Error> {
    match r {
        Ok(u) => Ok(u@),
        Err(e) => Err(e),
    }
}

/// Takes the outcome of a parse as the outcome of a command step: a
/// failure becomes an error of this library.
pub fn lift(r: Result<CanonicalUrl, url::ParseError>) -> (l: Result<CanonicalUrl, Error>)
    ensures
        url_outcome(l) == lifted(outcome(r)),
{
    match r {
        Ok(url) => Ok(url),
        Err(e) => Err(Error::UrlParseError(e)),
    }
}

/// Reads `user@host:path` as the `ssh` URL it stands for, the colon
/// being the character of `u` at position `colon_idx`.
pub fn parse_scp_like_url(u: &str, colon_idx: usize) -> (r: Result<CanonicalUrl, Error>)
    requires
        colon_idx < u@.len(),
    ensures
        url_outcome(r) == lifted(parsed(scp_expanded(u@, colon_idx as int))),
{
    let text = scp_like_url(u, colon_idx);
    lift(CanonicalUrl::parse(text.as_str()))
}

/// Reads a repository reference: an absolute URL, `user@host:path`, or
/// `owner/repo` on the default host.
pub fn parse_git_url(u: &str) -> (r: Result<CanonicalUrl, Error>)
    ensures
        url_outcome(r) == normalized(u@),
{
    match CanonicalUrl::parse(u) {
        Ok(url) => Ok(url),
        Err(e) => match retry_after(u, e) {
            Retry::Ssh(text) => lift(CanonicalUrl::parse(text.as_str())),
            Retry::DefaultHost => lift(CanonicalUrl::parse_with_base("https://github.com", u)),
            Retry::Nothing => Err(Error::UrlParseError(e)),
        },
    }
}

/// A text that is an absolute URL stands for that URL.
pub proof fn lemma_absolute_url_unchanged(u: Seq<char>)
    requires
        parsed(u) is Ok,
    ensures
        normalized(u) == Ok::<UrlParts, Error>(parsed(u)->Ok_0),
{
}

/// A text without a scheme whose first colon comes before any slash
/// stands for the `ssh` URL with the colon turned into a slash.
pub proof fn lemma_scp_like_reads_as_ssh(u: Seq<char>, i: int)
    requires
        parsed(u) == Err::<UrlParts, url::ParseError>(url::ParseError::RelativeUrlWithoutBase),
        is_scp_colon(u, i),
    ensures
        normalized(u) == lifted(parsed(scp_expanded(u, i))),
{
    lemma_scp_colon_unique(u, i, scp_colon(u));
}

/// A text without a scheme that is not scp-like is read against the
/// default host.
pub proof fn lemma_shorthand_reads_on_default_host(u: Seq<char>)
    requires
        parsed(u) == Err::<UrlParts, url::ParseError>(url::ParseError::RelativeUrlWithoutBase),
        !scp_like(u),
    ensures
        normalized(u) == lifted(resolved(default_base(), u)),
{
}

} // verus!
