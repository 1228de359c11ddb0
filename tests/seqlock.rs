use term_test::seqlock::{SeqlockReport, SeqlockStep, SeqlockVerifier, MAX_RETRIES};

#[test]
fn test_seqlock_report_default() {
    let report = SeqlockReport::default();
    assert_eq!(report.total_reads, 0);
    assert_eq!(report.torn_read_detections, 0);
    assert_eq!(report.odd_sequence_detections, 0);
    assert_eq!(report.max_retry_count, 0);
    assert_eq!(report.avg_retry_ratio(), (0, 1));
}

#[test]
fn test_seqlock_report_new() {
    let report = SeqlockReport::new();
    assert_eq!(report.total_reads, 0);
    assert!(!report.has_torn_reads());
    assert!(!report.has_odd_sequences());
}

#[test]
fn test_seqlock_report_has_torn_reads() {
    let mut report = SeqlockReport::default();
    assert!(!report.has_torn_reads());
    report.torn_read_detections = 1;
    assert!(report.has_torn_reads());
}

#[test]
fn test_seqlock_report_has_odd_sequences() {
    let mut report = SeqlockReport::default();
    assert!(!report.has_odd_sequences());
    report.odd_sequence_detections = 1;
    assert!(report.has_odd_sequences());
}

#[test]
fn test_verifier_new() {
    let verifier = SeqlockVerifier::new();
    assert_eq!(verifier.last_sequence(), 0);
    assert_eq!(verifier.report().total_reads, 0);
}

#[test]
fn seqlock_test_verifier_default() {
    let verifier = SeqlockVerifier::default();
    assert_eq!(verifier.last_sequence(), 0);
}

#[test]
fn seqlock_test_verifier_reset() {
    let mut verifier = SeqlockVerifier::new();
    verifier.begin_read();
    assert_eq!(verifier.observe_before(42), SeqlockStep::ReadFields);
    assert_eq!(verifier.observe_after(44), SeqlockStep::Retry);
    assert_eq!(verifier.observe_before(44), SeqlockStep::ReadFields);
    assert_eq!(verifier.observe_after(44), SeqlockStep::Accept { retries: 1 });
    assert_eq!(verifier.report().total_reads, 1);
    verifier.reset();
    assert_eq!(verifier.report().total_reads, 0);
    assert_eq!(verifier.report().torn_read_detections, 0);
    assert_eq!(verifier.last_sequence(), 0);
}

#[test]
fn test_report_access() {
    let verifier = SeqlockVerifier::new();
    let report = verifier.report();
    assert_eq!(report.total_reads, 0);
}

/// A writer that bumps the sequence around each write, and a snapshot of
/// two fields that the writer keeps equal.
struct SimulatedWriter {
    sequence: u32,
    a: u32,
    b: u32,
    loads: u32,
}

impl SimulatedWriter {
    /// Loading the sequence; on the second load the writer has started and
    /// finished a write in between, so the first attempt is torn.
    fn load_sequence(&mut self) -> u32 {
        self.loads += 1;
        self.sequence
    }

    fn write(&mut self, v: u32) {
        self.sequence += 1;
        self.a = v;
        self.b = v;
        self.sequence += 1;
    }
}

#[test]
fn seqlock_torn_read_is_retried() {
    let mut w = SimulatedWriter { sequence: 2, a: 1, b: 1, loads: 0 };
    let mut v = SeqlockVerifier::new();
    v.begin_read();
    let mut result = None;
    let mut attempt = 0;
    while result.is_none() {
        let s0 = w.load_sequence();
        match v.observe_before(s0) {
            SeqlockStep::ReadFields => {}
            SeqlockStep::Retry => continue,
            other => panic!("unexpected {:?}", other),
        }
        let a = w.a;
        if attempt == 0 {
            w.write(7);
        }
        let b = w.b;
        attempt += 1;
        let s1 = w.load_sequence();
        match v.observe_after(s1) {
            SeqlockStep::Accept { retries } => result = Some((a, b, retries, s1)),
            SeqlockStep::Retry => {}
            other => panic!("unexpected {:?}", other),
        }
    }
    let (a, b, retries, seq) = result.unwrap();
    assert_eq!((a, b), (7, 7));
    assert_eq!(retries, 1);
    assert_eq!(seq % 2, 0);
    assert!(v.report().has_torn_reads());
    assert_eq!(v.report().torn_read_detections, 1);
    assert_eq!(v.report().total_reads, 1);
    assert_eq!(v.report().max_retry_count, 1);
    assert_eq!(v.last_sequence(), 4);
    assert_eq!(w.loads, 4);
}

#[test]
fn seqlock_odd_sequence_is_put_off() {
    let mut v = SeqlockVerifier::new();
    v.begin_read();
    assert_eq!(v.observe_before(5), SeqlockStep::Retry);
    assert!(v.report().has_odd_sequences());
    assert_eq!(v.observe_before(6), SeqlockStep::ReadFields);
    assert_eq!(v.observe_after(6), SeqlockStep::Accept { retries: 1 });
    assert_eq!(v.report().avg_retry_ratio(), (1, 1));
}

#[test]
fn seqlock_gives_up_at_retry_limit() {
    let mut v = SeqlockVerifier::new();
    v.begin_read();
    let mut steps = 0;
    loop {
        steps += 1;
        match v.observe_before(1) {
            SeqlockStep::Retry => {}
            SeqlockStep::LimitExceeded => break,
            other => panic!("unexpected {:?}", other),
        }
    }
    assert_eq!(steps, MAX_RETRIES);
    assert_eq!(v.report().odd_sequence_detections, MAX_RETRIES as u64);
    assert!(SeqlockVerifier::is_write_in_progress(1));
    assert!(!SeqlockVerifier::is_write_in_progress(2));
}

#[test]
fn test_seqlock_report_construction() {
    let report = SeqlockReport::new();
    assert_eq!(report.total_reads, 0);
    assert_eq!(report.torn_read_detections, 0);
    assert_eq!(report.odd_sequence_detections, 0);
    assert_eq!(report.max_retry_count, 0);
    assert_eq!(report.avg_retry_ratio(), (0, 1));
    assert!(!report.has_torn_reads());
    assert!(!report.has_odd_sequences());
}

#[test]
fn test_report_clone() {
    let mut report1 = SeqlockReport::new();
    report1.total_reads = 42;
    report1.torn_read_detections = 5;
    let report2 = report1.clone();
    assert_eq!(report2.total_reads, 42);
    assert_eq!(report2.torn_read_detections, 5);
}

#[test]
fn test_report_debug() {
    let report = SeqlockReport::new();
    let debug_str = format!("{:?}", report);
    assert!(debug_str.contains("SeqlockReport"));
}

#[test]
fn test_verifier_debug() {
    let verifier = SeqlockVerifier::new();
    let debug_str = format!("{:?}", verifier);
    assert!(debug_str.contains("SeqlockVerifier"));
}

#[test]
fn test_report_statistics_accuracy() {
    let mut report = SeqlockReport::new();
    report.total_reads = 1000;
    report.torn_read_detections = 50;
    report.odd_sequence_detections = 25;
    report.max_retry_count = 3;
    assert_eq!(report.avg_retry_ratio(), (75, 1000));
    assert!(report.has_torn_reads());
    assert!(report.has_odd_sequences());
    assert_eq!(report.max_retry_count, 3);
}
