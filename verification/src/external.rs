//! Commands that the evaluator hands out: those the shell answers itself, and what becomes of the
//! others' processes.
use vstd::prelude::*;

use crate::builtin::text3;
use crate::exec::{exit_status, exit_status_of, WaitStatus};
use crate::text::{clone_strings, str_eq, strs};

verus! {

/// How a command is answered.
pub enum External {
    /// `l`, with its arguments.
    List(Vec<String>),
    /// `c`.
    Clear,
    /// `history`.
    History,
    /// A program.
    Spawn,
}

#[verifier::ext_equal]
pub enum ExternalView {
    List(Seq<Seq<char>>),
    Clear,
    History,
    Spawn,
}

impl View for External {
    type V = ExternalView;

    open spec fn view(&self) -> ExternalView {
        match self {
            External::List(args) => ExternalView::List(strs(args@)),
            External::Clear => ExternalView::Clear,
            External::History => ExternalView::History,
            External::Spawn => ExternalView::Spawn,
        }
    }
}

pub open spec fn answered(args: Seq<Seq<char>>) -> ExternalView {
    if args[0] == "l"@ {
        ExternalView::List(args.skip(1))
    } else if args[0] == "c"@ {
        ExternalView::Clear
    } else if args[0] == "history"@ {
        ExternalView::History
    } else {
        ExternalView::Spawn
    }
}

/// How a command is answered.
pub fn external(args: &Vec<String>) -> (r: External)
    requires
        args.len() > 0,
    ensures
        r@ == answered(strs(args@)),
{
    let ghost all = strs(args@);
    assert(all.len() == args@.len());
    assert(all[0] == args@[0]@);
    if str_eq(args[0].as_str(), "l") {
        let n = args.len();
        let tail = vstd::slice::slice_subrange(args.as_slice(), 1, n);
        let r = clone_strings(tail);
        assert(strs(tail@) =~= all.skip(1));
        External::List(r)
    } else if str_eq(args[0].as_str(), "c") {
        External::Clear
    } else if str_eq(args[0].as_str(), "history") {
        External::History
    } else {
        External::Spawn
    }
}

/// What the terminal is sent to clear it.
pub fn clear_screen() -> (r: String)
    ensures
        r@ == "\x1b[H\x1b[2J"@,
{
    String::from_str("\x1b[H\x1b[2J")
}

/// Why a program could not be started.
#[derive(Debug, Clone, Copy, PartialEq, Eq, Structural)]
pub enum SpawnError {
    NotFound,
    PermissionDenied,
    Other,
}

/// What is told, and the status, where a program could not be started.
pub open spec fn spawn_told(name: Seq<char>, error: SpawnError) -> Option<(i32, Seq<char>)> {
    match error {
        SpawnError::NotFound => Some((127i32, name + ": "@ + "not found\n"@)),
        SpawnError::PermissionDenied => Some((126i32, name + ": "@ + "permission denied\n"@)),
        SpawnError::Other => None,
    }
}

/// What is told, and the status, where a program could not be started. Other errors are the
/// evaluator's to tell.
pub fn spawn_failure(name: &str, error: SpawnError) -> (r: Option<(i32, String)>)
    ensures
        (match r {
            Some(f) => Some((f.0, f.1@)),
            None => None,
        }) == spawn_told(name@, error),
        match error {
            SpawnError::NotFound => r matches Some(f) && f.0 == 127 && f.1@ == name@ + ": "@
                + "not found\n"@,
            SpawnError::PermissionDenied => r matches Some(f) && f.0 == 126 && f.1@ == name@
                + ": "@ + "permission denied\n"@,
            SpawnError::Other => r is None,
        },
{
    match error {
        SpawnError::NotFound => Some((127, text3(name, ": ", "not found\n"))),
        SpawnError::PermissionDenied => Some((126, text3(name, ": ", "permission denied\n"))),
        SpawnError::Other => None,
    }
}

/// The status of a program in the foreground, where it ended.
pub open spec fn foreground_status(end: WaitStatus) -> Option<i32> {
    if end == WaitStatus::Stopped {
        None
    } else {
        Some(exit_status_of(end))
    }
}

/// What became of a program in the foreground: its status, or none where it was stopped and is
/// now the suspended job.
pub fn foreground_end(end: WaitStatus) -> (r: Option<i32>)
    ensures
        r == foreground_status(end),
        r == (if end == WaitStatus::Stopped {
            None
        } else {
            Some(exit_status_of(end))
        }),
{
    if end == WaitStatus::Stopped {
        None
    } else {
        Some(exit_status(end))
    }
}

/// The status of a program in a pipeline's own process.
pub open spec fn child_status(code: Option<i32>) -> i32 {
    match code {
        Some(c) => c,
        None => 128,
    }
}

/// The status of a program in a pipeline's own process: its code, or 128 where a signal ended
/// it.
pub fn pipeline_child_end(code: Option<i32>) -> (r: i32)
    ensures
        r == child_status(code),
        r == (match code {
            Some(c) => c,
            None => 128,
        }),
{
    match code {
        Some(c) => c,
        None => 128,
    }
}

/// What is told of a job that was stopped.
pub open spec fn stopped_text(cmd: Seq<char>, pgid: Seq<char>) -> Seq<char> {
    "ish: stopped: "@ + cmd + (" (pgid="@ + pgid + ")\n"@)
}

/// What is told of a job that was stopped.
pub fn stopped_report(cmd: &str, pgid: u32) -> (r: String)
    ensures
        r@ == stopped_text(cmd@, crate::text::decimal(pgid as nat)),
{
    let digits = crate::text::string_of(crate::text::decimal_of(pgid as u64).as_slice());
    let tail = text3(" (pgid=", digits.as_str(), ")\n");
    text3("ish: stopped: ", cmd, tail.as_str())
}

} // verus!
