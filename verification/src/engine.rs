//! The engine under test: how it is called, and what a run of it gives.
//!
//! Starting the process and waiting for it is the caller's part. What the
//! caller acts on is decided here: the arguments of the call, when to give
//! up waiting, and what is recorded of the run.
use crate::text::views;
use std::time::Duration;
use vstd::prelude::*;

verus! {

/// How the engine is called.
#[derive(Debug, Clone)]
pub struct Engine {
    /// The command.
    pub cmd: String,
    /// The arguments that every call starts with.
    pub args: Vec<String>,
    /// How long a run may take.
    pub timeout: Duration,
}

/// What a run gave.
#[derive(Debug, Clone)]
pub struct RunOutcome {
    /// The exit status; -1 where there is none.
    pub status: i32,
    /// Whether the run was ended because it took too long.
    pub timed_out: bool,
    pub stderr: String,
    pub stdout: String,
}

/// What to do with a running engine.
#[derive(Debug, Clone, Copy, PartialEq, Eq, Structural)]
pub enum PollStep {
    /// It has ended: read its output.
    Collect,
    /// Its time is up: end it.
    Kill,
    /// Look again after `POLL_INTERVAL_MS`.
    Wait,
}

/// The pause between two looks at a running engine, in milliseconds.
pub const POLL_INTERVAL_MS: u64 = 10;

/// The length of a span of time in nanoseconds, as `Duration::as_nanos`
/// gives it.
pub uninterp spec fn nanos_of(d: Duration) -> u128;

/// `Duration::as_nanos`: the whole span in nanoseconds.
pub assume_specification[ Duration::as_nanos ](d: &Duration) -> (n: u128)
    ensures
        n == nanos_of(*d),
;

/// `clone` on a `Duration`, which is a copy: the same span.
pub assume_specification[ <Duration as Clone>::clone ](d: &Duration) -> (r: Duration)
    ensures
        r == *d,
;

/// What is recorded of a run that was ended for taking too long.
pub open spec fn timeout_text() -> Seq<char> {
    "timeout"@
}

impl Engine {
    /// The arguments of one call: the fixed ones, then the extra ones, then
    /// the path of the program.
    pub fn arguments(&self, extra: &Vec<String>, path: &str) -> (r: Vec<String>)
        ensures
            views(r@) == views(self.args@) + views(extra@) + seq![path@],
    {
        let mut out: Vec<String> = Vec::new();
        let mut i: usize = 0;
        while i < self.args.len()
            invariant
                i <= self.args.len(),
                out@.len() == i,
                forall|k: int| 0 <= k < i ==> (#[trigger] out@[k])@ == self.args@[k]@,
            decreases self.args.len() - i,
        {
            out.push(self.args[i].clone());
            i += 1;
        }
        let mut j: usize = 0;
        while j < extra.len()
            invariant
                j <= extra.len(),
                out@.len() == self.args.len() + j,
                forall|k: int| 0 <= k < self.args.len() ==> (#[trigger] out@[k])@ == self.args@[k]@,
                forall|k: int|
                    0 <= k < j ==> (#[trigger] out@[self.args.len() + k])@ == extra@[k]@,
            decreases extra.len() - j,
        {
            out.push(extra[j].clone());
            j += 1;
        }
        out.push(path.to_owned());
        proof {
            let want = views(self.args@) + views(extra@) + seq![path@];
            assert(views(out@).len() == want.len());
            assert forall|k: int| 0 <= k < want.len() implies views(out@)[k] == want[k] by {
                if k < self.args.len() {
                    assert(out@[k]@ == self.args@[k]@);
                } else if k < self.args.len() + extra.len() {
                    assert(out@[self.args.len() + (k - self.args.len())]@ == extra@[k
                        - self.args.len()]@);
                }
            }
            assert(views(out@) =~= want);
        }
        out
    }

    /// What to do with the engine, given whether it has ended and how long
    /// it has run. An engine that has ended is collected even if its time is
    /// up; one that has run for the timeout or longer is killed.
    pub fn next_step(&self, ended: bool, elapsed: &Duration) -> (step: PollStep)
        ensures
            ended ==> step == PollStep::Collect,
            !ended && nanos_of(*elapsed) >= nanos_of(self.timeout) ==> step == PollStep::Kill,
            !ended && nanos_of(*elapsed) < nanos_of(self.timeout) ==> step == PollStep::Wait,
    {
        if ended {
            PollStep::Collect
        } else if elapsed.as_nanos() >= self.timeout.as_nanos() {
            PollStep::Kill
        } else {
            PollStep::Wait
        }
    }
}

impl RunOutcome {
    /// What is recorded of a run that ended by itself: its output and its
    /// exit code, or -1 where it has none.
    pub fn finished(code: Option<i32>, stdout: String, stderr: String) -> (r: RunOutcome)
        ensures
            r.status == (match code {
                Some(c) => c,
                None => -1i32,
            }),
            !r.timed_out,
            r.stdout@ == stdout@,
            r.stderr@ == stderr@,
    {
        let status: i32 = match code {
            Some(c) => c,
            None => -1,
        };
        RunOutcome { status, timed_out: false, stderr, stdout }
    }

    /// What is recorded of a run that was ended for taking too long: no
    /// status, no output, and the word `timeout` in place of its errors.
    pub fn timeout() -> (r: RunOutcome)
        ensures
            r.status == -1,
            r.timed_out,
            r.stdout@.len() == 0,
            r.stderr@ == timeout_text(),
    {
        RunOutcome {
            status: -1,
            timed_out: true,
            stderr: "timeout".to_owned(),
            stdout: String::new(),
        }
    }
}

} // verus!
