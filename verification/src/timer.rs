//! A stopwatch for the log of the command-line tools.

use vstd::prelude::*;
use vstd::string::StringExecFns;
use std::time::{Duration, Instant};

verus! {

#[verifier::external_type_specification]
#[verifier::external_body]
pub struct ExInstant(Instant);

/// `Instant::now`: the current time.  Nothing is stated of it.
#[verifier::external_body]
fn now() -> (r: Instant) {
    Instant::now()
}

/// `Instant::elapsed`: the time gone by since `start`.  Nothing is stated of
/// it: it depends on the clock.
#[verifier::external_body]
fn elapsed(start: &Instant) -> (r: Duration) {
    start.elapsed()
}

/// The label of a log line of a timer: `TIMER ` and the message.
pub open spec fn timer_label(msg: Seq<char>) -> Seq<char> {
    "TIMER "@ + msg
}

/// A stopwatch.
pub struct Timer {
    start: Instant,
}

impl Timer {
    /// A stopwatch started now.
    pub fn new() -> (t: Timer) {
        Timer { start: now() }
    }

    /// The label of the log line for `msg`, and the time since the
    /// stopwatch started; the line shows the time in milliseconds, with
    /// three decimals, after the label and `: `.
    pub fn record_elapsed(&self, msg: &str) -> (r: (String, Duration))
        ensures
            r.0@ == timer_label(msg@),
    {
        let d = elapsed(&self.start);
        let mut label = String::from_str("TIMER ");
        label.append(msg);
        (label, d)
    }

    /// Starts the stopwatch again.
    pub fn restart(&mut self) {
        self.start = now();
    }
}

} // verus!
