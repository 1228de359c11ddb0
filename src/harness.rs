//! Configuration of the in-process harness and the decisions of its
//! polling wait loop.

use vstd::prelude::*;

use std::time::Duration;

verus! {

/// Relies on `Duration::from_secs`: a span of whole seconds.
pub assume_specification[ core::time::Duration::from_secs ](secs: u64) -> core::time::Duration;

/// Relies on `Duration::from_millis`: a span of milliseconds.
pub assume_specification[ core::time::Duration::from_millis ](millis: u64) -> core::time::Duration;

/// Relies on `Duration` being `Copy`: a clone is the same span.
pub assume_specification[ <core::time::Duration as Clone>::clone ](d: &core::time::Duration) -> (r: core::time::Duration)
    ensures
        r == *d,
;

/// Default wait timeout, in seconds.
pub const DEFAULT_TIMEOUT_SECS: u64 = 5;

/// Default pause between polls, in milliseconds.
pub const DEFAULT_POLL_INTERVAL_MS: u64 = 100;

/// Default size of the PTY read buffer, in bytes.
pub const DEFAULT_BUFFER_SIZE: usize = 4096;

/// Options for an in-process harness.
#[derive(Debug, Clone)]
pub struct TuiTestHarnessBuilder {
    pub width: u16,
    pub height: u16,
    pub timeout: Duration,
    pub poll_interval: Duration,
    pub buffer_size: usize,
}

impl Default for TuiTestHarnessBuilder {
    /// 80 x 24, 5 s timeout, 100 ms poll interval, 4 KiB buffer.
    fn default() -> (r: Self)
        ensures
            r.width == 80,
            r.height == 24,
            r.buffer_size == DEFAULT_BUFFER_SIZE,
    {
        TuiTestHarnessBuilder {
            width: 80,
            height: 24,
            timeout: Duration::from_secs(DEFAULT_TIMEOUT_SECS),
            poll_interval: Duration::from_millis(DEFAULT_POLL_INTERVAL_MS),
            buffer_size: DEFAULT_BUFFER_SIZE,
        }
    }
}

impl TuiTestHarnessBuilder {
    pub fn with_size(self, width: u16, height: u16) -> (r: Self)
        ensures
            r == (TuiTestHarnessBuilder { width, height, ..self }),
    {
        TuiTestHarnessBuilder { width, height, ..self }
    }

    pub fn with_timeout(self, timeout: Duration) -> (r: Self)
        ensures
            r == (TuiTestHarnessBuilder { timeout, ..self }),
    {
        TuiTestHarnessBuilder { timeout, ..self }
    }

    pub fn with_poll_interval(self, interval: Duration) -> (r: Self)
        ensures
            r == (TuiTestHarnessBuilder { poll_interval: interval, ..self }),
    {
        TuiTestHarnessBuilder { poll_interval: interval, ..self }
    }

    pub fn with_buffer_size(self, size: usize) -> (r: Self)
        ensures
            r == (TuiTestHarnessBuilder { buffer_size: size, ..self }),
    {
        TuiTestHarnessBuilder { buffer_size: size, ..self }
    }
}

/// What a polling wait does after sampling the state.
#[derive(Debug, Clone, Copy, PartialEq, Eq, Structural)]
pub enum WaitStep {
    /// The condition holds: stop waiting.
    Done,
    /// The time is up: fail with a timeout.
    TimedOut,
    /// Sleep one poll interval and sample again.
    Sleep,
}

/// The decision after one sample: done when the condition holds, timed out
/// once the elapsed time reaches the timeout, otherwise sleep and retry.
pub fn next_wait_step(condition_met: bool, elapsed_ms: u64, timeout_ms: u64) -> (r: WaitStep)
    ensures
        condition_met ==> r == WaitStep::Done,
        !condition_met && elapsed_ms >= timeout_ms ==> r == WaitStep::TimedOut,
        !condition_met && elapsed_ms < timeout_ms ==> r == WaitStep::Sleep,
{
    if condition_met {
        WaitStep::Done
    } else if elapsed_ms >= timeout_ms {
        WaitStep::TimedOut
    } else {
        WaitStep::Sleep
    }
}

/// Time left of a shared budget, or `None` once it is used up.
pub fn remaining_budget(timeout_ms: u64, elapsed_ms: u64) -> (r: Option<u64>)
    ensures
        elapsed_ms >= timeout_ms ==> r is None,
        elapsed_ms < timeout_ms ==> r == Some((timeout_ms - elapsed_ms) as u64),
{
    if elapsed_ms >= timeout_ms {
        None
    } else {
        Some(timeout_ms - elapsed_ms)
    }
}

/// What a PTY read returned.
#[derive(Debug, Clone, Copy, PartialEq, Eq, Structural)]
pub enum ReadOutcome {
    /// `n` bytes were read.
    Data(usize),
    /// Nothing was available yet (a zero-length read or would-block).
    Empty,
    /// The read failed.
    Failed,
}

/// What the update loop does after a PTY read.
#[derive(Debug, Clone, Copy, PartialEq, Eq, Structural)]
pub enum DrainStep {
    /// Feed the first `n` bytes of the buffer to the grid, then read again.
    Feed(usize),
    /// No more output for now.
    Stop,
    /// Report the read error.
    Fail,
}

/// The update loop reads until a read returns nothing, feeding each chunk.
pub fn next_drain_step(outcome: ReadOutcome, buffer_size: usize) -> (r: DrainStep)
    ensures
        outcome == ReadOutcome::Empty ==> r == DrainStep::Stop,
        outcome == ReadOutcome::Failed ==> r == DrainStep::Fail,
        forall|n: usize| outcome == ReadOutcome::Data(n) ==> r == (if n == 0 {
            DrainStep::Stop
        } else if n <= buffer_size {
            DrainStep::Feed(n)
        } else {
            DrainStep::Feed(buffer_size)
        }),
{
    match outcome {
        ReadOutcome::Data(n) => if n == 0 {
            DrainStep::Stop
        } else if n <= buffer_size {
            DrainStep::Feed(n)
        } else {
            DrainStep::Feed(buffer_size)
        },
        ReadOutcome::Empty => DrainStep::Stop,
        ReadOutcome::Failed => DrainStep::Fail,
    }
}

/// The label a text wait reports on timeout: `text '<s>'`.
pub fn text_wait_label(text: &str) -> (r: String)
    ensures
        r@ == "text '"@ + text@ + "'"@,
{
    let head = "text '".to_string();
    head.concat(text).concat("'")
}

} // verus!
