//! OSC 133 shell-integration markers and the semantic zones built from them.

use vstd::prelude::*;

use crate::decimal::{parse_i32, spec_parse_i32};

verus! {

/// Escape byte.
pub const ESC: u8 = 0x1b;

/// Bell byte, one of the two OSC terminators.
pub const BEL: u8 = 0x07;

/// Type of semantic zone.
#[derive(Debug, Clone, Copy, PartialEq, Eq, Structural)]
pub enum ZoneType {
    /// Prompt area (from A to B).
    Prompt,
    /// Command text (from B to C).
    Command,
    /// Command output (from C to D).
    Output,
}

/// A zone of terminal output delimited by two consecutive markers.
#[derive(Debug, Clone, PartialEq, Eq)]
pub struct SemanticZone {
    pub zone_type: ZoneType,
    pub start_row: u16,
    pub start_col: u16,
    pub end_row: u16,
    pub end_col: u16,
    /// Exit code, present only on an Output zone closed by `D;<code>`.
    pub exit_code: Option<i32>,
}

/// One OSC 133 marker.
#[derive(Debug, Clone, Copy, PartialEq, Eq)]
pub enum Osc133Marker {
    /// `A`: fresh line, start of prompt.
    FreshLine,
    /// `B`: start of command input.
    CommandStart,
    /// `C`: command executed, start of output.
    CommandExecuted,
    /// `D` or `D;<code>`: end of output.
    CommandFinished(Option<i32>),
}

/// A marker together with the (row, col) at which it was seen.
pub type MarkerAt = (Osc133Marker, u16, u16);

// ---------------------------------------------------------------------------
// Marker payloads
// ---------------------------------------------------------------------------

/// Whether a byte string is valid UTF-8 (what `std::str::from_utf8` accepts).
pub uninterp spec fn utf8_valid(b: Seq<u8>) -> bool;

/// Relies on `std::str::from_utf8`: it succeeds exactly on valid UTF-8, and
/// every ASCII byte string is valid UTF-8.
#[verifier::external_body]
fn is_valid_utf8(b: &[u8]) -> (r: bool)
    ensures
        r == utf8_valid(b@),
        (forall|k: int| 0 <= k < b@.len() ==> b@[k] < 128) ==> r,
{
    std::str::from_utf8(b).is_ok()
}

/// Whether every byte is ASCII.
pub open spec fn all_ascii(b: Seq<u8>) -> bool {
    forall|k: int| 0 <= k < b.len() ==> b[k] < 128
}

/// Whether a payload is text: ASCII, or otherwise valid UTF-8.
pub open spec fn payload_valid(b: Seq<u8>) -> bool {
    all_ascii(b) || utf8_valid(b)
}

/// Index of the first `;` at or after `k`, or the length.
pub open spec fn next_semi(p: Seq<u8>, k: int) -> int
    decreases p.len() - k,
{
    if k >= p.len() {
        p.len() as int
    } else if p[k] == 59 {
        k
    } else {
        next_semi(p, k + 1)
    }
}

/// The marker that a payload (the bytes after `133;`) stands for: its first
/// `;`-separated field is `A`, `B`, `C` or `D`; a `D` carries the exit code
/// written in its second field, when there is one and it is a valid number.
pub open spec fn marker_of(p: Seq<u8>) -> Option<Osc133Marker> {
    let f = next_semi(p, 0);
    if f != 1 {
        None
    } else if p[0] == 65 {
        Some(Osc133Marker::FreshLine)
    } else if p[0] == 66 {
        Some(Osc133Marker::CommandStart)
    } else if p[0] == 67 {
        Some(Osc133Marker::CommandExecuted)
    } else if p[0] == 68 {
        let code = if f < p.len() {
            spec_parse_i32(p.subrange(f + 1, next_semi(p, f + 1)))
        } else {
            None
        };
        Some(Osc133Marker::CommandFinished(code))
    } else {
        None
    }
}

/// The marker of a payload, given whether the payload is valid UTF-8:
/// payloads that are not text stand for no marker.
pub open spec fn marker_of_checked(p: Seq<u8>, valid_utf8: bool) -> Option<Osc133Marker> {
    if valid_utf8 {
        marker_of(p)
    } else {
        None
    }
}

proof fn lemma_next_semi_bounds(p: Seq<u8>, k: int)
    requires
        0 <= k <= p.len(),
    ensures
        k <= next_semi(p, k) <= p.len(),
        next_semi(p, k) < p.len() ==> p[next_semi(p, k)] == 59,
        forall|j: int| k <= j < next_semi(p, k) ==> p[j] != 59,
    decreases p.len() - k,
{
    if k < p.len() && p[k] != 59 {
        lemma_next_semi_bounds(p, k + 1);
    }
}

fn find_semi(p: &[u8], k: usize) -> (r: usize)
    requires
        k <= p@.len(),
    ensures
        r == next_semi(p@, k as int),
{
    let mut j = k;
    while j < p.len() && p[j] != 59
        invariant
            k <= j <= p@.len(),
            next_semi(p@, k as int) == next_semi(p@, j as int),
        decreases p@.len() - j,
    {
        j += 1;
    }
    j
}

impl Osc133Marker {
    /// Classifies a payload once its UTF-8 validity is known.
    pub fn classify(params: &[u8], valid_utf8: bool) -> (r: Option<Osc133Marker>)
        ensures
            r == marker_of_checked(params@, valid_utf8),
    {
        if !valid_utf8 {
            return None;
        }
        let f = find_semi(params, 0);
        if f != 1 {
            return None;
        }
        let c = params[0];
        if c == 65 {
            Some(Osc133Marker::FreshLine)
        } else if c == 66 {
            Some(Osc133Marker::CommandStart)
        } else if c == 67 {
            Some(Osc133Marker::CommandExecuted)
        } else if c == 68 {
            let code = if f < params.len() {
                proof {
                    lemma_next_semi_bounds(params@, 0);
                }
                let g = find_semi(params, f + 1);
                proof {
                    lemma_next_semi_bounds(params@, f as int + 1);
                }
                let field = vstd::slice::slice_subrange(params, f + 1, g);
                parse_i32(field)
            } else {
                None
            };
            Some(Osc133Marker::CommandFinished(code))
        } else {
            None
        }
    }

    /// Parses a marker from the payload that follows `133;`.
    pub fn from_params(params: &[u8]) -> (r: Option<Osc133Marker>)
        ensures
            r == marker_of_checked(params@, payload_valid(params@)),
    {
        let ok = is_valid_utf8(params);
        Self::classify(params, ok)
    }
}

// ---------------------------------------------------------------------------
// Scanning a byte stream
// ---------------------------------------------------------------------------

pub open spec fn sat_inc(x: u16) -> u16 {
    if x < u16::MAX { (x + 1) as u16 } else { x }
}

/// Whether an OSC terminator (`BEL`, or `ESC \`) starts at `e`.
pub open spec fn is_terminator(d: Seq<u8>, e: int) -> bool {
    d[e] == BEL || (e + 1 < d.len() && d[e] == ESC && d[e + 1] == 92)
}

/// Index of the first terminator at or after `e`, or the length.
pub open spec fn term_at(d: Seq<u8>, e: int) -> int
    decreases d.len() - e,
{
    if e >= d.len() {
        d.len() as int
    } else if is_terminator(d, e) {
        e
    } else {
        term_at(d, e + 1)
    }
}

/// Where scanning resumes after a terminator found at `e`.
pub open spec fn after_terminator(d: Seq<u8>, e: int) -> int {
    if e >= d.len() {
        d.len() as int
    } else if d[e] == BEL {
        e + 1
    } else {
        e + 2
    }
}

/// Index of the first byte at or after `k` outside the CSI parameter range
/// 0x20..0x3F, or the length.
pub open spec fn csi_end(d: Seq<u8>, k: int) -> int
    decreases d.len() - k,
{
    if k >= d.len() {
        d.len() as int
    } else if 0x20 <= d[k] < 0x40 {
        csi_end(d, k + 1)
    } else {
        k
    }
}

/// Whether `ESC ] 1 3 3 ;` followed by at least one byte starts at `i`.
pub open spec fn osc133_at(d: Seq<u8>, i: int) -> bool {
    &&& i + 6 < d.len()
    &&& d[i] == ESC && d[i + 1] == 93
    &&& d[i + 2] == 49 && d[i + 3] == 51 && d[i + 4] == 51 && d[i + 5] == 59
}

/// One byte (or skipped escape) of position tracking at `i`: the next index
/// and the new (row, col).
pub open spec fn track(d: Seq<u8>, i: int, row: u16, col: u16) -> (int, u16, u16) {
    let b = d[i];
    if b == 10 {
        (i + 1, sat_inc(row), 0)
    } else if b == 13 {
        (i + 1, row, 0)
    } else if b == ESC {
        if i + 1 < d.len() && d[i + 1] == 91 {
            let c = csi_end(d, i + 2);
            (if c < d.len() { c + 1 } else { c }, row, col)
        } else if i + 1 < d.len() {
            (i + 2, row, col)
        } else {
            (i + 1, row, col)
        }
    } else if b >= 0x20 {
        (i + 1, row, sat_inc(col))
    } else {
        (i + 1, row, col)
    }
}

/// The markers emitted by one step at `i`, and where the scan resumes.
pub open spec fn step(d: Seq<u8>, i: int, row: u16, col: u16) -> (Seq<MarkerAt>, int, u16, u16) {
    if osc133_at(d, i) {
        let s = i + 6;
        let e = term_at(d, s);
        let found = if e > s {
            match marker_of_checked(d.subrange(s, e), payload_valid(d.subrange(s, e))) {
                Some(m) => seq![(m, row, col)],
                None => Seq::empty(),
            }
        } else {
            Seq::empty()
        };
        (found, after_terminator(d, e), row, col)
    } else if i + 1 < d.len() && d[i] == ESC && d[i + 1] == 93 {
        if i + 2 < d.len() {
            let t = track(d, i + 2, row, col);
            (Seq::empty(), t.0, t.1, t.2)
        } else {
            (Seq::empty(), d.len() as int, row, col)
        }
    } else {
        let t = track(d, i, row, col);
        (Seq::empty(), t.0, t.1, t.2)
    }
}

proof fn lemma_term_at_bounds(d: Seq<u8>, e: int)
    requires
        0 <= e,
    ensures
        e <= d.len() ==> e <= term_at(d, e) <= d.len(),
        term_at(d, e) < d.len() ==> is_terminator(d, term_at(d, e)),
        forall|k: int| e <= k < term_at(d, e) ==> !is_terminator(d, k),
    decreases d.len() - e,
{
    if e < d.len() && !is_terminator(d, e) {
        lemma_term_at_bounds(d, e + 1);
    }
}

proof fn lemma_csi_end_bounds(d: Seq<u8>, k: int)
    requires
        0 <= k,
    ensures
        k <= d.len() ==> k <= csi_end(d, k) <= d.len(),
    decreases d.len() - k,
{
    if k < d.len() && 0x20 <= d[k] < 0x40 {
        lemma_csi_end_bounds(d, k + 1);
    }
}

proof fn lemma_step_advances(d: Seq<u8>, i: int, row: u16, col: u16)
    requires
        0 <= i < d.len(),
    ensures
        i < step(d, i, row, col).1 <= d.len(),
{
    lemma_term_at_bounds(d, i + 6);
    if i + 2 <= d.len() {
        lemma_csi_end_bounds(d, i + 2);
    }
    if i + 4 <= d.len() {
        lemma_csi_end_bounds(d, i + 4);
    }
}

fn find_terminator(d: &[u8], e: usize) -> (r: usize)
    requires
        e <= d@.len(),
    ensures
        r == term_at(d@, e as int),
{
    let mut k = e;
    while k < d.len() && !(d[k] == BEL || (k + 1 < d.len() && d[k] == ESC && d[k + 1] == 92))
        invariant
            e <= k <= d@.len(),
            term_at(d@, e as int) == term_at(d@, k as int),
        decreases d@.len() - k,
    {
        k += 1;
    }
    k
}

fn skip_csi_params(d: &[u8], k: usize) -> (r: usize)
    requires
        k <= d@.len(),
    ensures
        r == csi_end(d@, k as int),
{
    let mut j = k;
    while j < d.len() && d[j] >= 0x20 && d[j] < 0x40
        invariant
            k <= j <= d@.len(),
            csi_end(d@, k as int) == csi_end(d@, j as int),
        decreases d@.len() - j,
    {
        j += 1;
    }
    j
}

fn track_exec(d: &[u8], i: usize, row: u16, col: u16) -> (r: (usize, u16, u16))
    requires
        i < d@.len(),
    ensures
        r.0 as int == track(d@, i as int, row, col).0,
        r.1 == track(d@, i as int, row, col).1,
        r.2 == track(d@, i as int, row, col).2,
{
    let b = d[i];
    let inc_row: u16 = if row < u16::MAX { row + 1 } else { row };
    let inc_col: u16 = if col < u16::MAX { col + 1 } else { col };
    if b == 10 {
        (i + 1, inc_row, 0)
    } else if b == 13 {
        (i + 1, row, 0)
    } else if b == ESC {
        if i + 1 < d.len() && d[i + 1] == 91 {
            let c = skip_csi_params(d, i + 2);
            proof {
                lemma_csi_end_bounds(d@, i as int + 2);
            }
            (if c < d.len() { c + 1 } else { c }, row, col)
        } else if i + 1 < d.len() {
            (i + 2, row, col)
        } else {
            (i + 1, row, col)
        }
    } else if b >= 0x20 {
        (i + 1, row, inc_col)
    } else {
        (i + 1, row, col)
    }
}

/// The scanner's state: the markers found so far, the bytes not yet
/// consumed (a sequence cut off by the end of the input so far), and the
/// position reached.
pub struct ScanState {
    pub markers: Seq<MarkerAt>,
    pub pending: Seq<u8>,
    pub row: u16,
    pub col: u16,
}

/// A scanner that has seen nothing.
pub open spec fn fresh_scan() -> ScanState {
    ScanState { markers: Seq::empty(), pending: Seq::empty(), row: 0, col: 0 }
}

/// Runs steps over `d` from `i` while each one can be decided from the
/// bytes at hand: the markers found, where it stopped, and the position.
pub open spec fn consume(d: Seq<u8>, i: int, row: u16, col: u16) -> (Seq<MarkerAt>, int, u16, u16)
    decreases d.len() - i,
    via consume_decreases
{
    if i < 0 || i >= d.len() || step_peeks(d, i) {
        (Seq::empty(), i, row, col)
    } else {
        let st = step(d, i, row, col);
        let rest = consume(d, st.1, st.2, st.3);
        (st.0 + rest.0, rest.1, rest.2, rest.3)
    }
}

#[via_fn]
proof fn consume_decreases(d: Seq<u8>, i: int, row: u16, col: u16) {
    if 0 <= i < d.len() {
        lemma_step_advances(d, i, row, col);
    }
}

proof fn lemma_consume_bounds(d: Seq<u8>, i: int, row: u16, col: u16)
    requires
        0 <= i <= d.len(),
    ensures
        i <= consume(d, i, row, col).1 <= d.len(),
    decreases d.len() - i,
{
    if i < d.len() && !step_peeks(d, i) {
        lemma_step_advances(d, i, row, col);
        let st = step(d, i, row, col);
        lemma_consume_bounds(d, st.1, st.2, st.3);
    }
}

/// The state after feeding `data`: the pending bytes and `data` are scanned
/// as one stream, continuing from the position reached.
pub open spec fn parse_spec(st: ScanState, data: Seq<u8>) -> ScanState {
    let buf = st.pending + data;
    let c = consume(buf, 0, st.row, st.col);
    ScanState { markers: st.markers + c.0, pending: buf.subrange(c.1, buf.len() as int), row: c.2, col: c.3 }
}

fn track_peeks_exec(d: &Vec<u8>, i: usize) -> (r: bool)
    requires
        i < d@.len(),
    ensures
        r == track_peeks(d@, i as int),
{
    let n = d.len();
    if d[i] != ESC {
        false
    } else if i + 1 >= n {
        true
    } else if d[i + 1] == 91 {
        skip_csi_params(d.as_slice(), i + 2) >= n
    } else {
        false
    }
}

fn step_peeks_exec(d: &Vec<u8>, i: usize) -> (r: bool)
    requires
        i < d@.len(),
    ensures
        r == step_peeks(d@, i as int),
{
    let n = d.len();
    if d[i] == ESC && i + 1 >= n {
        true
    } else if d[i] == ESC && d[i + 1] == 93 {
        if n - i <= 6 {
            true
        } else if d[i + 2] == 49 && d[i + 3] == 51 && d[i + 4] == 51 && d[i + 5] == 59 {
            find_terminator(d.as_slice(), i + 6) >= n
        } else {
            track_peeks_exec(d, i + 2)
        }
    } else {
        track_peeks_exec(d, i)
    }
}

/// Scans a stream for OSC 133 markers and records where each one was seen.
/// The stream may arrive in pieces: position tracking continues across
/// calls, and a sequence cut off by the end of one piece is completed by the
/// next.
#[derive(Debug)]
pub struct Osc133Parser {
    markers: Vec<MarkerAt>,
    pending: Vec<u8>,
    row: u16,
    col: u16,
}

impl View for Osc133Parser {
    type V = ScanState;

    closed spec fn view(&self) -> ScanState {
        ScanState { markers: self.markers@, pending: self.pending@, row: self.row, col: self.col }
    }
}

impl Osc133Parser {
    /// A parser that has seen nothing.
    pub fn new() -> (r: Self)
        ensures
            r@ == fresh_scan(),
    {
        let r = Osc133Parser { markers: Vec::new(), pending: Vec::new(), row: 0, col: 0 };
        proof {
            assert(r@.markers =~= Seq::<MarkerAt>::empty());
        }
        r
    }

    /// Scans the next piece of the stream and appends each marker found,
    /// with the position at which it was seen.
    pub fn parse(&mut self, data: &[u8])
        ensures
            final(self)@ == parse_spec(old(self)@, data@),
    {
        let mut buf: Vec<u8> = Vec::new();
        buf.append(&mut self.pending);
        let mut k: usize = 0;
        while k < data.len()
            invariant
                k <= data@.len(),
                buf@ == old(self)@.pending + data@.take(k as int),
            decreases data@.len() - k,
        {
            buf.push(data[k]);
            proof {
                assert(data@.take(k as int + 1) =~= data@.take(k as int).push(data@[k as int]));
                assert(buf@ =~= old(self)@.pending + data@.take(k as int + 1));
            }
            k += 1;
        }
        proof {
            assert(data@.take(k as int) =~= data@);
        }
        let ghost d = buf@;
        let ghost target = consume(d, 0, old(self)@.row, old(self)@.col);
        let mut row: u16 = self.row;
        let mut col: u16 = self.col;
        let mut i: usize = 0;
        let n = buf.len();
        while i < n && !step_peeks_exec(&buf, i)
            invariant
                d == buf@,
                n == d.len(),
                i <= n,
                consume(d, i as int, row, col).1 == target.1,
                consume(d, i as int, row, col).2 == target.2,
                consume(d, i as int, row, col).3 == target.3,
                old(self)@.markers + target.0 == self.markers@ + consume(d, i as int, row, col).0,
            decreases n - i,
        {
            let ghost before = self.markers@;
            let ghost (i0, r0, c0) = (i as int, row, col);
            proof {
                lemma_step_advances(d, i as int, row, col);
            }
            if n - i > 6 && buf[i] == ESC && buf[i + 1] == 93 && buf[i + 2] == 49
                && buf[i + 3] == 51 && buf[i + 4] == 51 && buf[i + 5] == 59 {
                let s = i + 6;
                let e = find_terminator(buf.as_slice(), s);
                proof {
                    lemma_term_at_bounds(d, s as int);
                }
                if e > s {
                    let payload = vstd::slice::slice_subrange(buf.as_slice(), s, e);
                    match Osc133Marker::from_params(payload) {
                        Some(m) => {
                            self.markers.push((m, row, col));
                        },
                        None => {},
                    }
                }
                i = if e >= n {
                    n
                } else if buf[e] == BEL {
                    e + 1
                } else {
                    e + 2
                };
            } else if i + 1 < n && buf[i] == ESC && buf[i + 1] == 93 {
                if i + 2 < n {
                    let t = track_exec(buf.as_slice(), i + 2, row, col);
                    i = t.0;
                    row = t.1;
                    col = t.2;
                } else {
                    i = n;
                }
            } else {
                let t = track_exec(buf.as_slice(), i, row, col);
                i = t.0;
                row = t.1;
                col = t.2;
            }
            proof {
                let st = step(d, i0, r0, c0);
                assert(self.markers@ == before + st.0);
                assert(st.1 == i as int && st.2 == row && st.3 == col);
                assert(consume(d, i0, r0, c0).0 == st.0 + consume(d, i as int, row, col).0);
                assert(before + (st.0 + consume(d, i as int, row, col).0) =~= self.markers@ + consume(d, i as int, row, col).0);
            }
        }
        proof {
            assert(consume(d, i as int, row, col).0 =~= Seq::<MarkerAt>::empty());
            assert(self.markers@ + Seq::<MarkerAt>::empty() =~= self.markers@);
        }
        let mut rest: Vec<u8> = Vec::new();
        let mut j: usize = i;
        while j < n
            invariant
                d == buf@,
                n == d.len(),
                i <= j <= n,
                rest@ == d.subrange(i as int, j as int),
            decreases n - j,
        {
            rest.push(buf[j]);
            proof {
                assert(d.subrange(i as int, j as int + 1) =~= d.subrange(i as int, j as int).push(d[j as int]));
            }
            j += 1;
        }
        self.pending = rest;
        self.row = row;
        self.col = col;
    }

    /// Forgets every marker, the pending bytes and the position.
    pub fn clear(&mut self)
        ensures
            final(self)@ == fresh_scan(),
    {
        self.markers.clear();
        self.pending.clear();
        self.row = 0;
        self.col = 0;
        proof {
            assert(self@.markers =~= Seq::<MarkerAt>::empty());
            assert(self@.pending =~= Seq::<u8>::empty());
        }
    }

    /// The recorded markers, in the order they were seen.
    pub fn markers(&self) -> (r: &[MarkerAt])
        ensures
            r@ == self@.markers,
    {
        self.markers.as_slice()
    }
}

/// The zone that two consecutive markers delimit: A then B is a prompt, B then
/// C a command, C then D an output carrying D's exit code; any other pair
/// delimits nothing.
pub open spec fn zone_between(a: MarkerAt, b: MarkerAt) -> Option<SemanticZone> {
    let ty = match (a.0, b.0) {
        (Osc133Marker::FreshLine, Osc133Marker::CommandStart) => Some((ZoneType::Prompt, None)),
        (Osc133Marker::CommandStart, Osc133Marker::CommandExecuted) => Some((ZoneType::Command, None)),
        (Osc133Marker::CommandExecuted, Osc133Marker::CommandFinished(code)) => Some((ZoneType::Output, code)),
        _ => None,
    };
    match ty {
        Some((t, code)) => Some(
            SemanticZone {
                zone_type: t,
                start_row: a.1,
                start_col: a.2,
                end_row: b.1,
                end_col: b.2,
                exit_code: code,
            },
        ),
        None => None,
    }
}

/// The zones delimited by the consecutive pairs among the first `n` markers.
pub open spec fn zones_upto(ms: Seq<MarkerAt>, n: int) -> Seq<SemanticZone>
    decreases n,
{
    if n < 2 || n > ms.len() {
        Seq::empty()
    } else {
        let prev = zones_upto(ms, n - 1);
        match zone_between(ms[n - 2], ms[n - 1]) {
            Some(z) => prev.push(z),
            None => prev,
        }
    }
}

/// The zones delimited by consecutive markers of `ms`, in order.
pub open spec fn zones_of(ms: Seq<MarkerAt>) -> Seq<SemanticZone> {
    zones_upto(ms, ms.len() as int)
}

fn zone_between_exec(a: MarkerAt, b: MarkerAt) -> (r: Option<SemanticZone>)
    ensures
        r == zone_between(a, b),
{
    let ty = match (a.0, b.0) {
        (Osc133Marker::FreshLine, Osc133Marker::CommandStart) => Some((ZoneType::Prompt, None)),
        (Osc133Marker::CommandStart, Osc133Marker::CommandExecuted) => Some((ZoneType::Command, None)),
        (Osc133Marker::CommandExecuted, Osc133Marker::CommandFinished(code)) => Some((ZoneType::Output, code)),
        _ => None,
    };
    match ty {
        Some((t, code)) => Some(
            SemanticZone {
                zone_type: t,
                start_row: a.1,
                start_col: a.2,
                end_row: b.1,
                end_col: b.2,
                exit_code: code,
            },
        ),
        None => None,
    }
}

impl Osc133Parser {
    /// The zones built from each pair of consecutive markers.
    pub fn zones(&self) -> (r: Vec<SemanticZone>)
        ensures
            r@ == zones_of(self@.markers),
    {
        let mut out: Vec<SemanticZone> = Vec::new();
        let n = self.markers.len();
        let mut i: usize = 1;
        while i < n
            invariant
                n == self@.markers.len(),
                1 <= i,
                i <= n || n == 0,
                out@ == zones_upto(self@.markers, i as int),
            decreases n - i,
        {
            match zone_between_exec(self.markers[i - 1], self.markers[i]) {
                Some(z) => out.push(z),
                None => {},
            }
            i += 1;
        }
        out
    }
}

impl Default for Osc133Parser {
    fn default() -> (r: Self)
        ensures
            r@ == fresh_scan(),
    {
        Self::new()
    }
}

// ---------------------------------------------------------------------------
// Looking zones up
// ---------------------------------------------------------------------------

/// Whether (row, col) lies within the zone's row and column ranges.
pub open spec fn zone_covers(z: SemanticZone, row: u16, col: u16) -> bool {
    z.start_row <= row <= z.end_row && z.start_col <= col <= z.end_col
}

/// The first zone that covers (row, col), if any.
pub fn zone_at(zones: &Vec<SemanticZone>, row: u16, col: u16) -> (r: Option<SemanticZone>)
    ensures
        r is None <==> forall|k: int| 0 <= k < zones@.len() ==> !zone_covers(#[trigger] zones@[k], row, col),
        r is Some ==> exists|k: int| 0 <= k < zones@.len() && r->0 == #[trigger] zones@[k] && zone_covers(zones@[k], row, col)
            && forall|j: int| 0 <= j < k ==> !zone_covers(#[trigger] zones@[j], row, col),
{
    let mut k: usize = 0;
    while k < zones.len()
        invariant
            k <= zones@.len(),
            forall|j: int| 0 <= j < k ==> !zone_covers(#[trigger] zones@[j], row, col),
        decreases zones@.len() - k,
    {
        let z = &zones[k];
        if z.start_row <= row && row <= z.end_row && z.start_col <= col && col <= z.end_col {
            let found = SemanticZone {
                zone_type: z.zone_type,
                start_row: z.start_row,
                start_col: z.start_col,
                end_row: z.end_row,
                end_col: z.end_col,
                exit_code: z.exit_code,
            };
            proof {
                assert(found == zones@[k as int]);
            }
            return Some(found);
        }
        k += 1;
    }
    None
}

/// The last zone of the given type, if any.
pub fn last_zone_of(zones: &Vec<SemanticZone>, zone_type: ZoneType) -> (r: Option<SemanticZone>)
    ensures
        r is None <==> forall|k: int| 0 <= k < zones@.len() ==> (#[trigger] zones@[k]).zone_type != zone_type,
        r is Some ==> exists|k: int| 0 <= k < zones@.len() && r->0 == #[trigger] zones@[k] && zones@[k].zone_type == zone_type
            && forall|j: int| k < j < zones@.len() ==> (#[trigger] zones@[j]).zone_type != zone_type,
{
    let mut k: usize = zones.len();
    while k > 0
        invariant
            k <= zones@.len(),
            forall|j: int| k <= j < zones@.len() ==> (#[trigger] zones@[j]).zone_type != zone_type,
        decreases k,
    {
        let z = &zones[k - 1];
        if z.zone_type == zone_type {
            let found = SemanticZone {
                zone_type: z.zone_type,
                start_row: z.start_row,
                start_col: z.start_col,
                end_row: z.end_row,
                end_col: z.end_col,
                exit_code: z.exit_code,
            };
            proof {
                assert(found == zones@[k - 1]);
            }
            return Some(found);
        }
        k -= 1;
    }
    None
}

// ---------------------------------------------------------------------------
// Streaming
// ---------------------------------------------------------------------------

/// Whether tracking at `i` needs a byte past the end of `d`.
pub open spec fn track_peeks(d: Seq<u8>, i: int) -> bool {
    d[i] == ESC && (i + 1 >= d.len() || (d[i + 1] == 91 && csi_end(d, i + 2) >= d.len()))
}

/// Whether the step at `i` needs a byte past the end of `d`: an escape or
/// marker cut off by the end, or a marker whose terminator is missing.
pub open spec fn step_peeks(d: Seq<u8>, i: int) -> bool {
    if d[i] == ESC && i + 1 >= d.len() {
        true
    } else if d[i] == ESC && d[i + 1] == 93 {
        if i + 6 >= d.len() {
            true
        } else if osc133_at(d, i) {
            term_at(d, i + 6) >= d.len()
        } else {
            track_peeks(d, i + 2)
        }
    } else {
        track_peeks(d, i)
    }
}

proof fn lemma_term_at_shift(p: Seq<u8>, q: Seq<u8>, j: int)
    requires
        0 <= j,
    ensures
        term_at(p + q, p.len() + j) == p.len() + term_at(q, j),
    decreases q.len() - j,
{
    let d = p + q;
    if j < q.len() {
        assert(d[p.len() + j] == q[j]);
        if j + 1 < q.len() {
            assert(d[p.len() + j + 1] == q[j + 1]);
        }
        if !is_terminator(q, j) {
            lemma_term_at_shift(p, q, j + 1);
        }
    }
}

proof fn lemma_csi_end_shift(p: Seq<u8>, q: Seq<u8>, j: int)
    requires
        0 <= j,
    ensures
        csi_end(p + q, p.len() + j) == p.len() + csi_end(q, j),
    decreases q.len() - j,
{
    let d = p + q;
    if j < q.len() {
        assert(d[p.len() + j] == q[j]);
        if 0x20 <= q[j] < 0x40 {
            lemma_csi_end_shift(p, q, j + 1);
        }
    }
}

proof fn lemma_step_shift(p: Seq<u8>, q: Seq<u8>, j: int, row: u16, col: u16)
    requires
        0 <= j < q.len(),
    ensures
        ({
            let s1 = step(p + q, p.len() + j, row, col);
            let s2 = step(q, j, row, col);
            s1.0 == s2.0 && s1.1 == p.len() + s2.1 && s1.2 == s2.2 && s1.3 == s2.3
        }),
{
    let d = p + q;
    let i = p.len() + j;
    assert forall|k: int| 0 <= k < q.len() implies d[p.len() + k] == q[k] by {}
    lemma_term_at_shift(p, q, j + 6);
    lemma_csi_end_shift(p, q, j + 2);
    lemma_csi_end_shift(p, q, j + 4);
    if osc133_at(q, j) {
        let s = j + 6;
        let e = term_at(q, s);
        lemma_term_at_bounds(q, s);
        assert(d.subrange(p.len() + s, p.len() + e) =~= q.subrange(s, e));
    }
}

proof fn lemma_term_at_prefix(a: Seq<u8>, b: Seq<u8>, e: int)
    requires
        0 <= e,
        term_at(a, e) < a.len(),
    ensures
        term_at(a + b, e) == term_at(a, e),
    decreases a.len() - e,
{
    let d = a + b;
    assert(d[e] == a[e]);
    if e + 1 < a.len() {
        assert(d[e + 1] == a[e + 1]);
    }
    if !is_terminator(a, e) {
        if e + 1 >= a.len() {
            assert(term_at(a, e + 1) == a.len());
        }
        lemma_term_at_prefix(a, b, e + 1);
    }
}

proof fn lemma_csi_end_prefix(a: Seq<u8>, b: Seq<u8>, k: int)
    requires
        0 <= k,
        csi_end(a, k) < a.len(),
    ensures
        csi_end(a + b, k) == csi_end(a, k),
    decreases a.len() - k,
{
    let d = a + b;
    assert(d[k] == a[k]);
    if 0x20 <= a[k] < 0x40 {
        lemma_csi_end_prefix(a, b, k + 1);
    }
}

proof fn lemma_step_prefix(a: Seq<u8>, b: Seq<u8>, i: int, row: u16, col: u16)
    requires
        0 <= i < a.len(),
        !step_peeks(a, i),
    ensures
        step(a + b, i, row, col) == step(a, i, row, col),
{
    let d = a + b;
    assert forall|k: int| 0 <= k < a.len() implies d[k] == a[k] by {}
    if a[i] == ESC && a[i + 1] == 93 && osc133_at(a, i) {
        let s = i + 6;
        lemma_term_at_prefix(a, b, s);
        let e = term_at(a, s);
        lemma_term_at_bounds(a, s);
        assert(d.subrange(s, e) =~= a.subrange(s, e));
        if e + 1 < a.len() {
            assert(d[e + 1] == a[e + 1]);
        }
    } else if a[i] == ESC && a[i + 1] == 93 {
        if a[i + 2] == ESC && a[i + 3] == 91 {
            lemma_csi_end_prefix(a, b, i + 4);
        }
    } else if a[i] == ESC && a[i + 1] == 91 {
        lemma_csi_end_prefix(a, b, i + 2);
    }
}

proof fn lemma_peeks_shift(p: Seq<u8>, q: Seq<u8>, j: int)
    requires
        0 <= j < q.len(),
    ensures
        step_peeks(p + q, p.len() + j) == step_peeks(q, j),
{
    let d = p + q;
    assert forall|k: int| 0 <= k < q.len() implies d[p.len() + k] == q[k] by {}
    lemma_term_at_shift(p, q, j + 6);
    lemma_csi_end_shift(p, q, j + 2);
    lemma_csi_end_shift(p, q, j + 4);
}

proof fn lemma_peeks_prefix(a: Seq<u8>, b: Seq<u8>, i: int)
    requires
        0 <= i < a.len(),
        !step_peeks(a, i),
    ensures
        !step_peeks(a + b, i),
{
    let d = a + b;
    assert forall|k: int| 0 <= k < a.len() implies d[k] == a[k] by {}
    if a[i] == ESC && a[i + 1] == 93 {
        if osc133_at(a, i) {
            lemma_term_at_prefix(a, b, i + 6);
        } else if a[i + 2] == ESC && a[i + 3] == 91 {
            lemma_csi_end_prefix(a, b, i + 4);
        }
    } else if a[i] == ESC && a[i + 1] == 91 {
        lemma_csi_end_prefix(a, b, i + 2);
    }
}

proof fn lemma_consume_shift(p: Seq<u8>, q: Seq<u8>, j: int, row: u16, col: u16)
    requires
        0 <= j <= q.len(),
    ensures
        ({
            let c1 = consume(p + q, p.len() + j, row, col);
            let c2 = consume(q, j, row, col);
            c1.0 == c2.0 && c1.1 == p.len() + c2.1 && c1.2 == c2.2 && c1.3 == c2.3
        }),
    decreases q.len() - j,
{
    if j < q.len() {
        lemma_peeks_shift(p, q, j);
        if !step_peeks(q, j) {
            lemma_step_shift(p, q, j, row, col);
            lemma_step_advances(q, j, row, col);
            let st = step(q, j, row, col);
            lemma_consume_shift(p, q, st.1, st.2, st.3);
        }
    }
}

proof fn lemma_consume_prefix(a: Seq<u8>, b: Seq<u8>, i: int, row: u16, col: u16)
    requires
        0 <= i <= a.len(),
    ensures
        ({
            let c1 = consume(a, i, row, col);
            let x = consume(a.subrange(c1.1, a.len() as int) + b, 0, c1.2, c1.3);
            let c = consume(a + b, i, row, col);
            c.0 == c1.0 + x.0 && c.1 == c1.1 + x.1 && c.2 == x.2 && c.3 == x.3
        }),
    decreases a.len() - i,
{
    lemma_consume_bounds(a, i, row, col);
    if i >= a.len() || step_peeks(a, i) {
        let t = a.subrange(0, i);
        let u = a.subrange(i, a.len() as int) + b;
        assert(a + b =~= t + u);
        lemma_consume_shift(t, u, 0, row, col);
        let x = consume(u, 0, row, col);
        assert(Seq::<MarkerAt>::empty() + x.0 =~= x.0);
    } else {
        lemma_peeks_prefix(a, b, i);
        lemma_step_prefix(a, b, i, row, col);
        lemma_step_advances(a, i, row, col);
        let st = step(a, i, row, col);
        lemma_consume_prefix(a, b, st.1, st.2, st.3);
        let c1 = consume(a, st.1, st.2, st.3);
        let x = consume(a.subrange(c1.1, a.len() as int) + b, 0, c1.2, c1.3);
        assert(st.0 + (c1.0 + x.0) =~= (st.0 + c1.0) + x.0);
    }
}

/// Parsing `a` and then `b` leaves the parser exactly as parsing `a ++ b`
/// does, wherever the split falls: inside a line, inside an escape or
/// inside an OSC 133 sequence.
pub proof fn law_parse_streams(st: ScanState, a: Seq<u8>, b: Seq<u8>)
    ensures
        parse_spec(parse_spec(st, a), b) == parse_spec(st, a + b),
        zones_of(parse_spec(parse_spec(st, a), b).markers) == zones_of(parse_spec(st, a + b).markers),
{
    let buf1 = st.pending + a;
    lemma_consume_prefix(buf1, b, 0, st.row, st.col);
    lemma_consume_bounds(buf1, 0, st.row, st.col);
    let c1 = consume(buf1, 0, st.row, st.col);
    let mid = parse_spec(st, a);
    let buf2 = mid.pending + b;
    let x = consume(buf2, 0, c1.2, c1.3);
    assert(st.pending + (a + b) =~= buf1 + b);
    lemma_consume_bounds(buf2, 0, c1.2, c1.3);
    let whole = buf1 + b;
    assert(whole.subrange(c1.1 + x.1, whole.len() as int) =~= buf2.subrange(x.1, buf2.len() as int));
    assert(st.markers + (c1.0 + x.0) =~= (st.markers + c1.0) + x.0);
    assert(parse_spec(parse_spec(st, a), b) =~= parse_spec(st, a + b));
}

/// Clearing a parser and then parsing `data` leaves the state, and so the
/// markers and zones, that a new parser has after parsing `data`.
pub proof fn law_clear_then_parse(cleared: ScanState, data: Seq<u8>)
    requires
        cleared == fresh_scan(),
    ensures
        parse_spec(cleared, data) == parse_spec(fresh_scan(), data),
        zones_of(parse_spec(cleared, data).markers) == zones_of(parse_spec(fresh_scan(), data).markers),
{
}

} // verus!
