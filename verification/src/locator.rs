//! Repository locations as canonical URLs.
//!
//! Parsing is the work of the `url` crate. A parsed URL is kept here as
//! the three texts that the rest of the library reads: the whole URL,
//! its host and its path.

use vstd::prelude::*;

verus! {

/// What a canonical URL is made of.
pub struct UrlParts {
    /// The whole URL, as one text.
    pub text: Seq<char>,
    /// The host, where the URL has one.
    pub host: Option<Seq<char>>,
    /// The path.
    pub path: Seq<char>,
}

/// An absolute URL that names a repository.
#[derive(Debug, PartialEq, Eq)]
pub struct CanonicalUrl {
    text: String,
    host: Option<String>,
    path: String,
}

impl View for CanonicalUrl {
    type V = UrlParts;

    closed spec fn view(&self) -> UrlParts {
        UrlParts {
            text: self.text@,
            host: match self.host {
                Some(h) => Some(h@),
                None => None,
            },
            path: self.path@,
        }
    }
}

/// What `url::Url::parse` makes of a text: the parts of the URL, or why
/// the text is no absolute URL.
pub uninterp spec fn parsed(input: Seq<char>) -> Result<UrlParts, url::ParseError>;

/// What `url::Url::join` makes of the reference `input` against the URL
/// that `url::Url::parse` makes of `base`. It says nothing of a `base`
/// that is no URL.
pub uninterp spec fn joined(base: Seq<char>, input: Seq<char>) -> Result<UrlParts, url::ParseError>;

/// What reading `input` against `base` gives: the reason for which
/// `base` is no URL where it is none, and else what the join gives.
pub open spec fn resolved(base: Seq<char>, input: Seq<char>) -> Result<UrlParts, url::ParseError> {
    match parsed(base) {
        Ok(_) => joined(base, input),
        Err(e) => Err(e),
    }
}

/// The outcome of a parse, with the URL seen as its parts.
pub open spec fn outcome(r: Result<CanonicalUrl, url::ParseError>) -> Result<
    UrlParts,
    url::ParseError,
> {
    match r {
        Ok(u) => Ok(u@),
        Err(e) => Err(e),
    }
}

/// Calls `url::Url::parse` on `input`. Trusted: the result is the one
/// that `parsed` names, the URL being kept as its serialization
/// (`as_str`), its host (`host_str`) and its path (`path`).
#[verifier::external_body]
fn parse_url(input: &str) -> (r: Result<CanonicalUrl, url::ParseError>)
    ensures
        outcome(r) == parsed(input@),
{
    match url::Url::parse(input) {
        Ok(u) => Ok(
            CanonicalUrl {
                text: u.as_str().to_owned(),
                host: u.host_str().map(str::to_owned),
                path: u.path().to_owned(),
            },
        ),
        Err(e) => Err(e),
    }
}

/// Calls `url::Url::parse` on `base` and, where that gives a URL,
/// `url::Url::join` on it with `input`. Trusted: where `base` is no URL
/// the result is the error that `parsed` names for it; where it is one,
/// the result is the one that `joined` names, the URL being kept as for
/// `parse_url`.
#[verifier::external_body]
fn join_url(base: &str, input: &str) -> (r: Result<CanonicalUrl, url::ParseError>)
    ensures
        outcome(r) == match parsed(base@) {
            Ok(_) => joined(base@, input@),
            Err(e) => Err(e),
        },
{
    let base = match url::Url::parse(base) {
        Ok(b) => b,
        Err(e) => return Err(e),
    };
    match base.join(input) {
        Ok(u) => Ok(
            CanonicalUrl {
                text: u.as_str().to_owned(),
                host: u.host_str().map(str::to_owned),
                path: u.path().to_owned(),
            },
        ),
        Err(e) => Err(e),
    }
}

impl CanonicalUrl {
    /// Reads `input` as an absolute URL.
    pub fn parse(input: &str) -> (r: Result<CanonicalUrl, url::ParseError>)
        ensures
            outcome(r) == parsed(input@),
    {
        parse_url(input)
    }

    /// Reads `input` as a reference relative to the URL in `base`.
    pub fn parse_with_base(base: &str, input: &str) -> (r: Result<CanonicalUrl, url::ParseError>)
        ensures
            outcome(r) == resolved(base@, input@),
    {
        join_url(base, input)
    }

    /// The whole URL.
    pub fn as_str(&self) -> (r: &str)
        ensures
            r@ == self@.text,
    {
        self.text.as_str()
    }

    /// The host, where the URL has one.
    pub fn host_str(&self) -> (r: Option<&str>)
        ensures
            match r {
                Some(h) => self@.host == Some(h@),
                None => self@.host is None,
            },
    {
        match &self.host {
            Some(h) => Some(h.as_str()),
            None => None,
        }
    }

    /// The path.
    pub fn path(&self) -> (r: &str)
        ensures
            r@ == self@.path,
    {
        self.path.as_str()
    }
}

} // verus!
