//! The errors of parsing and expansion.
use vstd::prelude::*;

use crate::text::{chars_of, push_str, string_of};

verus! {

/// An error of parsing or expanding a command line.
#[derive(Debug)]
pub struct Error {
    kind: ErrorKind,
}

#[derive(Debug)]
enum ErrorKind {
    Msg(String),
    GlobNoMatch(String),
    CommandNotFound(String),
    BadSubstitution(String),
}

/// What an error says.
pub enum ErrorView {
    Msg(Seq<char>),
    GlobNoMatch(Seq<char>),
    CommandNotFound(Seq<char>),
    BadSubstitution(Seq<char>),
}

impl View for Error {
    type V = ErrorView;

    closed spec fn view(&self) -> ErrorView {
        match self.kind {
            ErrorKind::Msg(s) => ErrorView::Msg(s@),
            ErrorKind::GlobNoMatch(s) => ErrorView::GlobNoMatch(s@),
            ErrorKind::CommandNotFound(s) => ErrorView::CommandNotFound(s@),
            ErrorKind::BadSubstitution(s) => ErrorView::BadSubstitution(s@),
        }
    }
}

impl ErrorView {
    /// The text shown to the user.
    pub open spec fn message(self) -> Seq<char> {
        match self {
            ErrorView::Msg(s) => s,
            ErrorView::GlobNoMatch(p) => "no matches for glob: "@ + p,
            ErrorView::CommandNotFound(c) => "command not found: "@ + c,
            ErrorView::BadSubstitution(m) => "bad substitution: "@ + m,
        }
    }
}

fn prefixed(head: &str, tail: &str) -> (r: String)
    ensures
        r@ == head@ + tail@,
{
    let mut v = chars_of(head);
    push_str(&mut v, tail);
    string_of(v.as_slice())
}

impl Clone for Error {
    fn clone(&self) -> (r: Self)
        ensures
            r@ == self@,
    {
        let kind = match &self.kind {
            ErrorKind::Msg(s) => ErrorKind::Msg(s.clone()),
            ErrorKind::GlobNoMatch(s) => ErrorKind::GlobNoMatch(s.clone()),
            ErrorKind::CommandNotFound(s) => ErrorKind::CommandNotFound(s.clone()),
            ErrorKind::BadSubstitution(s) => ErrorKind::BadSubstitution(s.clone()),
        };
        Self { kind }
    }
}

impl Error {
    pub fn msg(s: &str) -> (r: Self)
        ensures
            r@ == ErrorView::Msg(s@),
    {
        Self { kind: ErrorKind::Msg(s.to_owned()) }
    }

    pub fn glob_no_match(pattern: &str) -> (r: Self)
        ensures
            r@ == ErrorView::GlobNoMatch(pattern@),
    {
        Self { kind: ErrorKind::GlobNoMatch(pattern.to_owned()) }
    }

    pub fn command_not_found(cmd: &str) -> (r: Self)
        ensures
            r@ == ErrorView::CommandNotFound(cmd@),
    {
        Self { kind: ErrorKind::CommandNotFound(cmd.to_owned()) }
    }

    pub fn bad_substitution(msg: &str) -> (r: Self)
        ensures
            r@ == ErrorView::BadSubstitution(msg@),
    {
        Self { kind: ErrorKind::BadSubstitution(msg.to_owned()) }
    }

    /// The text shown to the user.
    pub fn message(&self) -> (r: String)
        ensures
            r@ == self@.message(),
    {
        match &self.kind {
            ErrorKind::Msg(s) => s.clone(),
            ErrorKind::GlobNoMatch(p) => prefixed("no matches for glob: ", p.as_str()),
            ErrorKind::CommandNotFound(c) => prefixed("command not found: ", c.as_str()),
            ErrorKind::BadSubstitution(m) => prefixed("bad substitution: ", m.as_str()),
        }
    }
}

} // verus!
