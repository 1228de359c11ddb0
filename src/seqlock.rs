//! The seqlock discipline for reading a snapshot that another process
//! writes: a read is accepted only when the sequence number was even before
//! it and unchanged after it.

use vstd::prelude::*;

verus! {

/// Retries allowed for one synchronized read before it gives up.
pub const MAX_RETRIES: u32 = 100;

/// Statistics over synchronized reads.
#[derive(Debug, Clone, Copy, PartialEq, Eq, Structural)]
pub struct SeqlockReport {
    /// Reads accepted.
    pub total_reads: u64,
    /// Reads rejected because the sequence changed while reading.
    pub torn_read_detections: u64,
    /// Attempts put off because a write was in progress (odd sequence).
    pub odd_sequence_detections: u64,
    /// The most retries one accepted read needed.
    pub max_retry_count: u32,
}

pub open spec fn bump(x: u64) -> u64 {
    if x < u64::MAX { (x + 1) as u64 } else { x }
}

pub open spec fn empty_report() -> SeqlockReport {
    SeqlockReport { total_reads: 0, torn_read_detections: 0, odd_sequence_detections: 0, max_retry_count: 0 }
}

impl SeqlockReport {
    /// An empty report.
    pub fn new() -> (r: Self)
        ensures
            r == empty_report(),
    {
        SeqlockReport { total_reads: 0, torn_read_detections: 0, odd_sequence_detections: 0, max_retry_count: 0 }
    }

    pub fn has_torn_reads(&self) -> (r: bool)
        ensures
            r == (self.torn_read_detections > 0),
    {
        self.torn_read_detections > 0
    }

    pub fn has_odd_sequences(&self) -> (r: bool)
        ensures
            r == (self.odd_sequence_detections > 0),
    {
        self.odd_sequence_detections > 0
    }

    /// Retries per accepted read, as a ratio (numerator, denominator);
    /// (0, 1) before any read.
    pub fn avg_retry_ratio(&self) -> (r: (u64, u64))
        ensures
            self.total_reads == 0 ==> r == (0u64, 1u64),
            self.total_reads > 0 ==> r.1 == self.total_reads
                && r.0 as int == if self.torn_read_detections + self.odd_sequence_detections > u64::MAX { u64::MAX as int } else { self.torn_read_detections + self.odd_sequence_detections },
    {
        if self.total_reads == 0 {
            (0, 1)
        } else {
            (self.torn_read_detections.saturating_add(self.odd_sequence_detections), self.total_reads)
        }
    }
}

impl Default for SeqlockReport {
    fn default() -> (r: Self)
        ensures
            r == empty_report(),
    {
        SeqlockReport::new()
    }
}

/// What the reader does next.
#[derive(Debug, Clone, Copy, PartialEq, Eq, Structural)]
pub enum SeqlockStep {
    /// The sequence was even: read the fields, then report the sequence again.
    ReadFields,
    /// Start over: load the sequence again.
    Retry,
    /// The fields just read form one consistent snapshot.
    Accept { retries: u32 },
    /// The retry limit was reached.
    LimitExceeded,
}

/// The verifier's state: statistics, the last accepted sequence number,
/// retries of the read in progress, and the even sequence number observed
/// before it (its window), if any.
pub struct SeqlockState {
    pub report: SeqlockReport,
    pub last_seq: u32,
    pub retries: u32,
    pub window: Option<u32>,
}

/// After a rejected attempt: retry, or give up at the limit.
pub open spec fn after_retry(st: SeqlockState, report: SeqlockReport) -> (SeqlockState, SeqlockStep) {
    if st.retries + 1 >= MAX_RETRIES {
        (SeqlockState { report, retries: 0, window: None, ..st }, SeqlockStep::LimitExceeded)
    } else {
        (SeqlockState { report, retries: (st.retries + 1) as u32, window: None, ..st }, SeqlockStep::Retry)
    }
}

/// The sequence number loaded before reading: even opens a window, odd
/// (a write in progress) is counted and retried.
pub open spec fn spec_observe_before(st: SeqlockState, seq: u32) -> (SeqlockState, SeqlockStep) {
    if seq % 2 == 1 {
        after_retry(st, SeqlockReport { odd_sequence_detections: bump(st.report.odd_sequence_detections), ..st.report })
    } else {
        (SeqlockState { window: Some(seq), ..st }, SeqlockStep::ReadFields)
    }
}

/// The sequence number loaded after reading: equal to the window accepts
/// the read, anything else is a torn read, counted and retried.
pub open spec fn spec_observe_after(st: SeqlockState, seq: u32) -> (SeqlockState, SeqlockStep) {
    if st.window == Some(seq) {
        (
            SeqlockState {
                report: SeqlockReport {
                    total_reads: bump(st.report.total_reads),
                    max_retry_count: if st.retries > st.report.max_retry_count { st.retries } else { st.report.max_retry_count },
                    ..st.report
                },
                last_seq: seq,
                retries: 0,
                window: None,
            },
            SeqlockStep::Accept { retries: st.retries },
        )
    } else {
        after_retry(st, SeqlockReport { torn_read_detections: bump(st.report.torn_read_detections), ..st.report })
    }
}

/// Decides, from the sequence numbers observed around each attempt, when a
/// read of the snapshot may be trusted, and keeps statistics.
#[derive(Debug, Clone)]
pub struct SeqlockVerifier {
    last_seq: u32,
    report: SeqlockReport,
    retry_count: u32,
    seq_before: Option<u32>,
}

impl View for SeqlockVerifier {
    type V = SeqlockState;

    closed spec fn view(&self) -> SeqlockState {
        SeqlockState { report: self.report, last_seq: self.last_seq, retries: self.retry_count, window: self.seq_before }
    }
}

pub open spec fn fresh_state() -> SeqlockState {
    SeqlockState { report: empty_report(), last_seq: 0, retries: 0, window: None }
}

impl SeqlockVerifier {
    pub open spec fn wf(&self) -> bool {
        self@.retries < MAX_RETRIES
    }

    pub fn new() -> (r: Self)
        ensures
            r@ == fresh_state(),
            r.wf(),
    {
        SeqlockVerifier { last_seq: 0, report: SeqlockReport::new(), retry_count: 0, seq_before: None }
    }

    /// Starts a new synchronized read.
    pub fn begin_read(&mut self)
        ensures
            final(self)@ == (SeqlockState { retries: 0, window: None, ..old(self)@ }),
            final(self).wf(),
    {
        self.retry_count = 0;
        self.seq_before = None;
    }

    /// Whether a sequence number marks a write in progress.
    pub fn is_write_in_progress(seq: u32) -> (r: bool)
        ensures
            r == (seq % 2 == 1),
    {
        seq % 2 == 1
    }

    fn note_retry(&mut self) -> (r: SeqlockStep)
        requires
            old(self).wf(),
        ensures
            (final(self)@, r) == after_retry(old(self)@, old(self)@.report),
            final(self).wf(),
    {
        self.seq_before = None;
        if self.retry_count + 1 >= MAX_RETRIES {
            self.retry_count = 0;
            SeqlockStep::LimitExceeded
        } else {
            self.retry_count = self.retry_count + 1;
            SeqlockStep::Retry
        }
    }

    /// Reports the sequence number loaded before reading.
    pub fn observe_before(&mut self, seq: u32) -> (r: SeqlockStep)
        requires
            old(self).wf(),
        ensures
            (final(self)@, r) == spec_observe_before(old(self)@, seq),
            final(self).wf(),
    {
        if seq % 2 == 1 {
            self.report.odd_sequence_detections = self.report.odd_sequence_detections.saturating_add(1);
            self.note_retry()
        } else {
            self.seq_before = Some(seq);
            SeqlockStep::ReadFields
        }
    }

    /// Reports the sequence number loaded again after reading.
    pub fn observe_after(&mut self, seq: u32) -> (r: SeqlockStep)
        requires
            old(self).wf(),
        ensures
            (final(self)@, r) == spec_observe_after(old(self)@, seq),
            final(self).wf(),
    {
        let matches = match self.seq_before {
            Some(s) => s == seq,
            None => false,
        };
        if !matches {
            self.report.torn_read_detections = self.report.torn_read_detections.saturating_add(1);
            self.note_retry()
        } else {
            let retries = self.retry_count;
            self.report.total_reads = self.report.total_reads.saturating_add(1);
            if retries > self.report.max_retry_count {
                self.report.max_retry_count = retries;
            }
            self.last_seq = seq;
            self.retry_count = 0;
            self.seq_before = None;
            SeqlockStep::Accept { retries }
        }
    }

    /// The statistics so far.
    pub fn report(&self) -> (r: &SeqlockReport)
        ensures
            *r == self@.report,
    {
        &self.report
    }

    /// The sequence number of the last accepted read.
    pub fn last_sequence(&self) -> (r: u32)
        ensures
            r == self@.last_seq,
    {
        self.last_seq
    }

    /// Clears the statistics and the last sequence number.
    pub fn reset(&mut self)
        ensures
            final(self)@ == fresh_state(),
            final(self).wf(),
    {
        self.report = SeqlockReport::new();
        self.last_seq = 0;
        self.retry_count = 0;
        self.seq_before = None;
    }
}

impl Default for SeqlockVerifier {
    fn default() -> (r: Self)
        ensures
            r@ == fresh_state(),
            r.wf(),
    {
        SeqlockVerifier::new()
    }
}

/// A read is accepted only inside an even-sequence window: whatever the
/// writer did, if some attempt is accepted, the sequence number observed
/// before that attempt's read was even and the one observed after it equal,
/// so no write began or ended while the fields were read. A rejected
/// attempt changes no accepted-read statistic but the retry counters.
pub proof fn law_accepted_reads_are_consistent(st: SeqlockState, s0: u32, s1: u32)
    ensures
        ({
            let (st1, step0) = spec_observe_before(st, s0);
            let (st2, step1) = spec_observe_after(st1, s1);
            (step0 == SeqlockStep::ReadFields && step1 is Accept) ==> (s0 % 2 == 0 && s1 == s0 && st2.last_seq == s0)
        }),
        ({
            let (st1, step0) = spec_observe_before(st, s0);
            s0 % 2 == 1 ==> step0 != SeqlockStep::ReadFields && st1.window == None::<u32>
        }),
        ({
            let (st2, step1) = spec_observe_after(st, s1);
            st.window != Some(s1) ==> !(step1 is Accept) && st2.report.total_reads == st.report.total_reads
        }),
{
}

} // verus!
