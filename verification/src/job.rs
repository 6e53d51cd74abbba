//! The one suspended job: how it is kept and resumed.
//!
//! The caller gives the job the terminal, wakes it and waits for it.
use vstd::prelude::*;

use crate::exec::{
    exit_status, exit_status_of, opt_continuation, Continuation, ContinuationView, WaitStatus,
    SUSPENDED,
};
use crate::text::{chars_of, push_str, string_of};

verus! {

/// A suspended job.
pub struct Job {
    pub pgid: i32,
    pub cmd: String,
    /// What is left of the command line it was suspended in.
    pub continuation: Option<Continuation>,
}

#[verifier::ext_equal]
pub struct JobView {
    pub pgid: i32,
    pub cmd: Seq<char>,
    pub continuation: Option<ContinuationView>,
}

impl View for Job {
    type V = JobView;

    open spec fn view(&self) -> JobView {
        JobView {
            pgid: self.pgid,
            cmd: self.cmd@,
            continuation: opt_continuation(self.continuation),
        }
    }
}

pub open spec fn opt_job(job: Option<Job>) -> Option<JobView> {
    match job {
        Some(j) => Some(j@),
        None => None,
    }
}

/// How resuming starts.
pub enum ResumeStart {
    /// There is no job, or none that can be woken: what is said, and the status.
    Refused { report: String, status: i32 },
    /// The job to be woken and waited for, and what is said before.
    Wake { job: Job, report: String },
}

pub enum StartView {
    Refused { report: Seq<char>, status: i32 },
    Wake { job: JobView, report: Seq<char> },
}

impl View for ResumeStart {
    type V = StartView;

    open spec fn view(&self) -> StartView {
        match self {
            ResumeStart::Refused { report, status } => StartView::Refused {
                report: report@,
                status: *status,
            },
            ResumeStart::Wake { job, report } => StartView::Wake { job: job@, report: report@ },
        }
    }
}

pub open spec fn resuming(cmd: Seq<char>) -> Seq<char> {
    "ish: resuming: "@ + cmd + "\n"@
}

pub open spec fn resume_start(job: Option<JobView>) -> StartView {
    match job {
        None => StartView::Refused { report: "ish: fg: no suspended job\n"@, status: 1 },
        Some(j) => if j.pgid == 0 {
            StartView::Refused { report: resuming(j.cmd), status: 1 }
        } else {
            StartView::Wake { job: j, report: resuming(j.cmd) }
        },
    }
}

/// Takes the job to resume it.
pub fn resume_job(job: &mut Option<Job>) -> (r: ResumeStart)
    ensures
        r@ == resume_start(opt_job(*old(job))),
        *final(job) is None,
{
    let mut taken: Option<Job> = None;
    core::mem::swap(&mut taken, job);
    match taken {
        None => ResumeStart::Refused {
            report: String::from_str("ish: fg: no suspended job\n"),
            status: 1,
        },
        Some(j) => {
            let mut out = chars_of("ish: resuming: ");
            push_str(&mut out, j.cmd.as_str());
            push_str(&mut out, "\n");
            let report = string_of(out.as_slice());
            if j.pgid == 0 {
                ResumeStart::Refused { report, status: 1 }
            } else {
                ResumeStart::Wake { job: j, report }
            }
        },
    }
}

/// The status, what is left to be run, and the job that is kept, when a resumed job was waited for
/// and `kept` was in its place.
pub open spec fn resume_end(kept: Option<Job>, resumed: Job, end: WaitStatus) -> (
    i32,
    Option<Continuation>,
    Option<Job>,
) {
    if end == WaitStatus::Stopped {
        (SUSPENDED, None, Some(resumed))
    } else {
        (exit_status_of(end), resumed.continuation, kept)
    }
}

/// What follows when the job was waited for. One that was stopped again is kept with what is left
/// of its command line; for one that ended this returns its status and what is left to be run.
pub fn finish_resume(job: &mut Option<Job>, resumed: Job, end: WaitStatus) -> (r: (
    i32,
    Option<Continuation>,
))
    ensures
        (r.0, r.1, *final(job)) == resume_end(*old(job), resumed, end),
        end == WaitStatus::Stopped ==> {
            &&& r.0 == SUSPENDED
            &&& r.1 is None
            &&& *final(job) == Some(resumed)
        },
        end != WaitStatus::Stopped ==> {
            &&& r.0 == exit_status_of(end)
            &&& r.1 == resumed.continuation
            &&& *final(job) == *old(job)
        },
{
    if end == WaitStatus::Stopped {
        *job = Some(resumed);
        (SUSPENDED, None)
    } else {
        (exit_status(end), resumed.continuation)
    }
}

} // verus!
