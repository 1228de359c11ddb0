//! The terminal grid: cells, cursor and Sixel regions, updated by the events
//! of a VT parser.

use vstd::prelude::*;
use vtparse::VTAction;

use crate::decimal::{all_digits, is_digit, parse_u32_digits, spec_parse_u32};

verus! {

/// One CSI parameter: a number, or a separator byte such as `;`.
#[derive(Debug, Clone, Copy, PartialEq, Eq, Structural)]
pub enum CsiArg {
    Integer(i64),
    P(u8),
}

/// An event of the VT parser.
#[derive(Debug, Clone, PartialEq, Eq)]
pub enum VtEvent {
    /// A printable character.
    Print(char),
    /// A C0 or C1 control byte.
    Control(u8),
    /// Start of a device control string with its mode byte and parameters.
    DcsHook { mode: u8, params: Vec<i64> },
    /// One byte of a device control string.
    DcsPut(u8),
    /// End of a device control string.
    DcsUnhook,
    /// An escape sequence with its final byte.
    Esc(u8),
    /// A control sequence with its parameters and final byte.
    Csi { params: Vec<CsiArg>, byte: u8 },
    /// An operating system command (ignored by the grid).
    Osc,
    /// An application program command (ignored by the grid).
    Apc,
}

/// A Sixel image seen in the stream.
#[derive(Debug, Clone)]
pub struct SixelRegion {
    /// Cursor row when the image began (0-indexed).
    pub start_row: u16,
    /// Cursor column when the image began (0-indexed).
    pub start_col: u16,
    /// Width in pixels, from the raster attribute; absent when unresolved.
    pub width: Option<u32>,
    /// Height in pixels, from the raster attribute; absent when unresolved.
    pub height: Option<u32>,
    /// The image payload.
    pub data: Vec<u8>,
}

/// What a Sixel region holds: origin, pixel size, payload.
pub struct SixelView {
    pub start_row: u16,
    pub start_col: u16,
    pub width: Option<u32>,
    pub height: Option<u32>,
    pub data: Seq<u8>,
}

impl View for SixelRegion {
    type V = SixelView;

    open spec fn view(&self) -> SixelView {
        SixelView {
            start_row: self.start_row,
            start_col: self.start_col,
            width: self.width,
            height: self.height,
            data: self.data@,
        }
    }
}

// ---------------------------------------------------------------------------
// Raster attributes and cell sizes
// ---------------------------------------------------------------------------

/// First index at or after `k` holding byte `b`, or the length.
pub open spec fn find_byte(d: Seq<u8>, k: int, b: u8) -> int
    decreases d.len() - k,
{
    if k >= d.len() {
        d.len() as int
    } else if d[k] == b {
        k
    } else {
        find_byte(d, k + 1, b)
    }
}

/// First index at or after `k` whose byte is neither a digit nor `;`, or the length.
pub open spec fn raster_end(d: Seq<u8>, k: int) -> int
    decreases d.len() - k,
{
    if k >= d.len() {
        d.len() as int
    } else if is_digit(d[k]) || d[k] == 59 {
        raster_end(d, k + 1)
    } else {
        k
    }
}

/// First index in `[k, e)` where `digit` tells the byte apart, or `e`.
pub open spec fn scan_until(d: Seq<u8>, k: int, e: int, digit: bool) -> int
    decreases e - k,
{
    if k >= e {
        e
    } else if is_digit(d[k]) == digit {
        k
    } else {
        scan_until(d, k + 1, e, digit)
    }
}

/// The next run of digits in `[k, e)`: its start and end (`(e, e)` if none).
pub open spec fn next_run(d: Seq<u8>, k: int, e: int) -> (int, int) {
    let s = scan_until(d, k, e, true);
    (s, scan_until(d, s, e, false))
}

/// The digit runs of `[k, e)`, in order.
pub open spec fn runs_from(d: Seq<u8>, k: int, e: int) -> Seq<(int, int)>
    decreases e - k,
    via runs_from_decreases
{
    let (s, t) = next_run(d, k, e);
    if k >= e || s >= e {
        Seq::empty()
    } else {
        seq![(s, t)] + runs_from(d, t, e)
    }
}

/// Pixel size from the raster attribute `"Pa;Pb;Ph;Pv` of a Sixel payload:
/// after the first `"`, the numbers of the run of digits and `;` that
/// follows; the third and fourth are the width and height. Absent when
/// there is no `"`, fewer than four numbers, or a number over 32 bits.
pub open spec fn raster_dims(d: Seq<u8>) -> Option<(u32, u32)> {
    let q = find_byte(d, 0, 34);
    let e = raster_end(d, q + 1);
    let rs = runs_from(d, q + 1, e);
    if q < d.len() && rs.len() >= 4 {
        match (spec_parse_u32(d.subrange(rs[2].0, rs[2].1)), spec_parse_u32(d.subrange(rs[3].0, rs[3].1))) {
            (Some(w), Some(h)) => Some((w, h)),
            _ => None,
        }
    } else {
        None
    }
}

proof fn lemma_scan_until(d: Seq<u8>, k: int, e: int, digit: bool)
    requires
        k <= e,
    ensures
        k <= scan_until(d, k, e, digit) <= e,
        scan_until(d, k, e, digit) < e ==> is_digit(d[scan_until(d, k, e, digit)]) == digit,
        forall|j: int| k <= j < scan_until(d, k, e, digit) ==> is_digit(#[trigger] d[j]) != digit,
    decreases e - k,
{
    if k < e && is_digit(d[k]) != digit {
        lemma_scan_until(d, k + 1, e, digit);
    }
}

#[via_fn]
proof fn runs_from_decreases(d: Seq<u8>, k: int, e: int) {
    if k < e {
        lemma_scan_until(d, k, e, true);
        let s = scan_until(d, k, e, true);
        lemma_scan_until(d, s, e, false);
    }
}

fn scan_until_exec(d: &[u8], k: usize, e: usize, digit: bool) -> (r: usize)
    requires
        k <= e <= d@.len(),
    ensures
        r == scan_until(d@, k as int, e as int, digit),
{
    let mut j = k;
    while j < e && (d[j] >= 48 && d[j] <= 57) != digit
        invariant
            k <= j <= e <= d@.len(),
            scan_until(d@, k as int, e as int, digit) == scan_until(d@, j as int, e as int, digit),
        decreases e - j,
    {
        j += 1;
    }
    j
}

/// Reads the pixel size from a Sixel payload's raster attribute.
pub fn parse_raster_attributes(data: &[u8]) -> (r: Option<(u32, u32)>)
    ensures
        r == raster_dims(data@),
{
    let ghost d = data@;
    let n = data.len();
    let mut q: usize = 0;
    while q < n && data[q] != 34
        invariant
            q <= n == d.len(),
            d == data@,
            find_byte(d, 0, 34) == find_byte(d, q as int, 34),
        decreases n - q,
    {
        q += 1;
    }
    if q >= n {
        return None;
    }
    let mut e: usize = q + 1;
    while e < n && ((data[e] >= 48 && data[e] <= 57) || data[e] == 59)
        invariant
            q < e <= n == d.len(),
            d == data@,
            raster_end(d, q + 1) == raster_end(d, e as int),
        decreases n - e,
    {
        e += 1;
    }
    let ghost all = runs_from(d, q + 1, e as int);
    let mut k: usize = q + 1;
    let mut found: Vec<(usize, usize)> = Vec::new();
    let mut exhausted = false;
    while found.len() < 4 && !exhausted
        invariant
            exhausted ==> runs_from(d, k as int, e as int).len() == 0,
            q + 1 <= k <= e <= n == d.len(),
            d == data@,
            found@.len() <= 4,
            all == runs_from(d, q + 1, e as int),
            all.len() >= found@.len(),
            forall|i: int| 0 <= i < found@.len() ==> (found@[i].0 as int, found@[i].1 as int) == #[trigger] all[i],
            all.subrange(found@.len() as int, all.len() as int) == runs_from(d, k as int, e as int),
            forall|i: int| 0 <= i < found@.len() ==> found@[i].0 <= found@[i].1 <= e
                && all_digits(d.subrange(found@[i].0 as int, found@[i].1 as int)),
        decreases 4 - found@.len() + (if exhausted { 0int } else { 1int }),
    {
        let s = scan_until_exec(data, k, e, true);
        proof {
            lemma_scan_until(d, k as int, e as int, true);
        }
        if s >= e {
            exhausted = true;
        } else {
            let t = scan_until_exec(data, s, e, false);
            proof {
                lemma_scan_until(d, s as int, e as int, false);
                let rest = runs_from(d, k as int, e as int);
                assert(rest == seq![(s as int, t as int)] + runs_from(d, t as int, e as int));
                assert(rest.len() > 0);
                assert(all[found@.len() as int] == rest[0]);
                assert(all.subrange(found@.len() as int + 1, all.len() as int) =~= rest.drop_first());
                assert(all_digits(d.subrange(s as int, t as int)));
            }
            found.push((s, t));
            k = t;
        }
    }
    if found.len() < 4 {
        proof {
            assert(runs_from(d, k as int, e as int).len() == 0);
        }
        return None;
    }
    let (s2, t2) = found[2];
    let (s3, t3) = found[3];
    match (parse_u32_digits(data, s2, t2), parse_u32_digits(data, s3, t3)) {
        (Some(w), Some(h)) => Some((w, h)),
        _ => None,
    }
}

/// Cell size assumed for Sixel images: 8 pixels wide.
pub const CELL_WIDTH_PX: u32 = 8;

/// Cell size assumed for Sixel images: 16 pixels high.
pub const CELL_HEIGHT_PX: u32 = 16;

/// The number of cells of `cell_px` pixels needed to cover `px` pixels,
/// rounded up.
pub fn cells_for_pixels(px: u32, cell_px: u32) -> (r: u32)
    requires
        cell_px > 0,
    ensures
        r as int == (px + cell_px - 1) / (cell_px as int),
{
    let q = px / cell_px;
    let rem = px % cell_px;
    proof {
        vstd::arithmetic::div_mod::lemma_fundamental_div_mod(px as int, cell_px as int);
        assert(px == cell_px * q + rem);
        assert(rem != 0 ==> q < 0xffff_ffff) by (nonlinear_arith)
            requires px == cell_px * q + rem, rem < cell_px, px <= 0xffff_ffff;
        if rem == 0 {
            assert((px + cell_px - 1) == q * cell_px + (cell_px - 1)) by (nonlinear_arith)
                requires px == cell_px * q + rem, rem == 0;
            assert((q * cell_px + (cell_px - 1)) / (cell_px as int) == q) by (nonlinear_arith)
                requires cell_px > 0;
        } else {
            assert((px + cell_px - 1) == (q + 1) * cell_px + (rem - 1)) by (nonlinear_arith)
                requires px == cell_px * q + rem;
            assert(((q + 1) * cell_px + (rem - 1)) / (cell_px as int) == q + 1) by (nonlinear_arith)
                requires cell_px > 0, 0 < rem < cell_px;
        }
    }
    if rem == 0 {
        q
    } else {
        q + 1
    }
}

/// The (columns, rows) that a `width_px` x `height_px` image covers with
/// 8x16-pixel cells.
pub fn pixels_to_cells(width_px: u32, height_px: u32) -> (r: (u32, u32))
    ensures
        r.0 as int == (width_px + 7) / 8,
        r.1 as int == (height_px + 15) / 16,
{
    (cells_for_pixels(width_px, CELL_WIDTH_PX), cells_for_pixels(height_px, CELL_HEIGHT_PX))
}

// ---------------------------------------------------------------------------
// The grid model
// ---------------------------------------------------------------------------

/// What a grid holds: its size, the cursor (row, col), the cells in
/// row-major order, the Sixel regions seen so far, and the Sixel capture in
/// progress (its origin, payload and parameters).
pub struct GridView {
    pub width: u16,
    pub height: u16,
    pub cursor: (u16, u16),
    pub cells: Seq<char>,
    pub sixels: Seq<SixelView>,
    pub capturing: bool,
    pub origin: (u16, u16),
    pub pending: Seq<u8>,
    pub params: Seq<i64>,
}

/// A fresh grid: all spaces, cursor at the origin, no Sixel regions.
pub open spec fn blank_grid(width: u16, height: u16) -> GridView {
    GridView {
        width,
        height,
        cursor: (0, 0),
        cells: Seq::new((width * height) as nat, |i: int| ' '),
        sixels: Seq::empty(),
        capturing: false,
        origin: (0, 0),
        pending: Seq::empty(),
        params: Seq::empty(),
    }
}

/// The cursor lies on the grid (at the origin when a dimension is zero),
/// and there is one cell per position.
pub open spec fn grid_wf(g: GridView) -> bool {
    &&& g.cells.len() == g.width * g.height
    &&& (g.cursor.0 < g.height || (g.height == 0 && g.cursor.0 == 0))
    &&& (g.cursor.1 < g.width || (g.width == 0 && g.cursor.1 == 0))
}

/// `v` clamped to the positions `0..dim` (0 when `dim` is zero).
pub open spec fn clamp_to(v: int, dim: u16) -> u16 {
    if dim == 0 || v <= 0 {
        0
    } else if v >= dim {
        (dim - 1) as u16
    } else {
        v as u16
    }
}

/// A CSI count: the parameter, or 1 when it is absent or zero.
pub open spec fn count_or_one(p: Option<i64>) -> int {
    match p {
        Some(v) => if v > 0 { v as int } else { 1 },
        None => 1,
    }
}

/// The numeric parameters, separators left out.
pub open spec fn ints_of(ps: Seq<CsiArg>) -> Seq<i64>
    decreases ps.len(),
{
    if ps.len() == 0 {
        Seq::empty()
    } else {
        let rest = ints_of(ps.drop_last());
        match ps.last() {
            CsiArg::Integer(v) => rest.push(v),
            CsiArg::P(_) => rest,
        }
    }
}

/// The `k`-th numeric parameter, if present.
pub open spec fn nth_int(ps: Seq<CsiArg>, k: int) -> Option<i64> {
    if 0 <= k < ints_of(ps).len() {
        Some(ints_of(ps)[k])
    } else {
        None
    }
}

pub open spec fn with_cursor(g: GridView, row: u16, col: u16) -> GridView {
    GridView { cursor: (row, col), ..g }
}

/// CSI dispatch: `H`/`f` position the cursor (1-based, default 1), `A`
/// `B` `C` `D` move it up, down, forward, back by a count (default 1),
/// saturating at the edges; other finals are ignored.
pub open spec fn apply_csi(g: GridView, ps: Seq<CsiArg>, byte: u8) -> GridView {
    let (row, col) = g.cursor;
    let n = count_or_one(nth_int(ps, 0));
    if byte == 72 || byte == 102 {
        with_cursor(g, clamp_to(n - 1, g.height), clamp_to(count_or_one(nth_int(ps, 1)) - 1, g.width))
    } else if byte == 65 {
        with_cursor(g, clamp_to(row - n, g.height), col)
    } else if byte == 66 {
        with_cursor(g, clamp_to(row + n, g.height), col)
    } else if byte == 67 {
        with_cursor(g, row, clamp_to(col + n, g.width))
    } else if byte == 68 {
        with_cursor(g, row, clamp_to(col - n, g.width))
    } else {
        g
    }
}

/// The row below the cursor, or the cursor row on the last line.
pub open spec fn next_row(g: GridView) -> u16 {
    if g.cursor.0 + 1 < g.height { (g.cursor.0 + 1) as u16 } else { g.cursor.0 }
}

/// C0 controls: carriage return, line feed, horizontal tab (to the next
/// multiple of 8, clamped); others are ignored.
pub open spec fn apply_control(g: GridView, b: u8) -> GridView {
    if b == 13 {
        with_cursor(g, g.cursor.0, 0)
    } else if b == 10 {
        with_cursor(g, next_row(g), g.cursor.1)
    } else if b == 9 {
        with_cursor(g, g.cursor.0, clamp_to((g.cursor.1 / 8 + 1) * 8, g.width))
    } else {
        g
    }
}

/// ESC `D` (index) and ESC `E` (next line); others are ignored.
pub open spec fn apply_esc(g: GridView, b: u8) -> GridView {
    if b == 68 {
        with_cursor(g, next_row(g), g.cursor.1)
    } else if b == 69 {
        with_cursor(g, next_row(g), 0)
    } else {
        g
    }
}

/// Writes `ch` under the cursor and advances the column, without wrapping.
pub open spec fn apply_print(g: GridView, ch: char) -> GridView {
    let (row, col) = g.cursor;
    if row < g.height && col < g.width {
        GridView {
            cells: g.cells.update(row * g.width + col, ch),
            cursor: (row, if col + 1 < g.width { (col + 1) as u16 } else { col }),
            ..g
        }
    } else {
        g
    }
}

/// The region that the capture in progress makes when it ends.
pub open spec fn finished_sixel(g: GridView) -> SixelView {
    let dims = raster_dims(g.pending);
    SixelView {
        start_row: g.origin.0,
        start_col: g.origin.1,
        width: match dims { Some(d) => Some(d.0), None => None },
        height: match dims { Some(d) => Some(d.1), None => None },
        data: g.pending,
    }
}

/// The effect of one parser event on the grid.
pub open spec fn apply(g: GridView, ev: VtEvent) -> GridView {
    match ev {
        VtEvent::Print(ch) => apply_print(g, ch),
        VtEvent::Control(b) => apply_control(g, b),
        VtEvent::DcsHook { mode, params } => if mode == 113 {
            GridView { capturing: true, origin: g.cursor, pending: Seq::empty(), params: params@, ..g }
        } else {
            g
        },
        VtEvent::DcsPut(b) => if g.capturing {
            GridView { pending: g.pending.push(b), ..g }
        } else {
            g
        },
        VtEvent::DcsUnhook => if g.capturing {
            GridView {
                sixels: g.sixels.push(finished_sixel(g)),
                capturing: false,
                pending: Seq::empty(),
                params: Seq::empty(),
                ..g
            }
        } else {
            g
        },
        VtEvent::Esc(b) => apply_esc(g, b),
        VtEvent::Csi { params, byte } => apply_csi(g, params@, byte),
        VtEvent::Osc => g,
        VtEvent::Apc => g,
    }
}

/// The effect of a sequence of events, in order.
pub open spec fn apply_all(g: GridView, evs: Seq<VtEvent>) -> GridView
    decreases evs.len(),
{
    if evs.len() == 0 {
        g
    } else {
        apply(apply_all(g, evs.drop_last()), evs.last())
    }
}

/// Row `r` of the grid.
pub open spec fn row_of(g: GridView, r: int) -> Seq<char> {
    g.cells.subrange(r * g.width, r * g.width + g.width)
}

/// The first `n` rows joined by newlines.
pub open spec fn rows_joined(g: GridView, n: int) -> Seq<char>
    decreases n,
{
    if n <= 0 {
        Seq::empty()
    } else if n == 1 {
        row_of(g, 0)
    } else {
        rows_joined(g, n - 1) + seq!['\n'] + row_of(g, n - 1)
    }
}

/// All rows, each `width` characters, joined by newlines.
pub open spec fn contents_of(g: GridView) -> Seq<char> {
    rows_joined(g, g.height as int)
}

/// Whether `needle` occurs in `hay`.
pub open spec fn is_substring(needle: Seq<char>, hay: Seq<char>) -> bool {
    exists|i: int| 0 <= i && i + needle.len() <= hay.len() && #[trigger] hay.subrange(i, i + needle.len()) == needle
}

pub proof fn lemma_cell_index(row: int, col: int, w: int, h: int)
    requires
        0 <= row < h,
        0 <= col <= w,
    ensures
        0 <= row * w,
        col < w ==> row * w + col < w * h,
        row * w + w <= w * h,
{
    assert(0 <= row * w) by (nonlinear_arith)
        requires 0 <= row, 0 <= w;
    assert(row * w + w <= w * h) by (nonlinear_arith)
        requires row < h, 0 <= w;
}

proof fn lemma_apply_wf(g: GridView, ev: VtEvent)
    requires
        grid_wf(g),
    ensures
        grid_wf(apply(g, ev)),
        apply(g, ev).width == g.width,
        apply(g, ev).height == g.height,
{
    match ev {
        VtEvent::Print(ch) => {
            if g.cursor.0 < g.height && g.cursor.1 < g.width {
                lemma_cell_index(g.cursor.0 as int, g.cursor.1 as int, g.width as int, g.height as int);
            }
        },
        _ => {},
    }
}

proof fn lemma_apply_all_wf(g: GridView, evs: Seq<VtEvent>)
    requires
        grid_wf(g),
    ensures
        grid_wf(apply_all(g, evs)),
        apply_all(g, evs).width == g.width,
        apply_all(g, evs).height == g.height,
    decreases evs.len(),
{
    if evs.len() > 0 {
        lemma_apply_all_wf(g, evs.drop_last());
        lemma_apply_wf(apply_all(g, evs.drop_last()), evs.last());
    }
}

// ---------------------------------------------------------------------------
// The VT parser
// ---------------------------------------------------------------------------

#[verifier::external_type_specification]
#[verifier::external_body]
pub struct ExVTParser(vtparse::VTParser);

#[verifier::external_type_specification]
#[verifier::external_body]
pub struct ExVTAction(vtparse::VTAction);

#[verifier::external_type_specification]
#[verifier::external_body]
pub struct ExCsiParam(vtparse::CsiParam);

/// Relies on `vtparse::VTParser::new`: a parser in its ground state.
pub assume_specification[ vtparse::VTParser::new ]() -> vtparse::VTParser;

/// Relies on `vtparse::CsiParam`'s two variants: copies one parameter.
#[verifier::external_body]
fn csi_param_of(p: &vtparse::CsiParam) -> CsiArg {
    match p {
        vtparse::CsiParam::Integer(v) => CsiArg::Integer(*v),
        vtparse::CsiParam::P(b) => CsiArg::P(*b),
    }
}

/// Relies on `vtparse::VTAction`'s variants: converts one action to the
/// grid's event, dropping the fields the grid does not read.
#[verifier::external_body]
fn event_of_action(a: vtparse::VTAction) -> VtEvent {
    match a {
        VTAction::Print(c) => VtEvent::Print(c),
        VTAction::ExecuteC0orC1(b) => VtEvent::Control(b),
        VTAction::DcsHook { byte, params, .. } => VtEvent::DcsHook { mode: byte, params },
        VTAction::DcsPut(b) => VtEvent::DcsPut(b),
        VTAction::DcsUnhook => VtEvent::DcsUnhook,
        VTAction::EscDispatch { byte, .. } => VtEvent::Esc(byte),
        VTAction::CsiDispatch { params, byte, .. } => VtEvent::Csi { params: params.iter().map(csi_param_of).collect(), byte },
        VTAction::OscDispatch(_) => VtEvent::Osc,
        VTAction::ApcDispatch(_) => VtEvent::Apc,
    }
}

/// The events a new vtparse parser emits while reading `bytes`, each
/// action converted to a `VtEvent`.
pub uninterp spec fn vt_stream(bytes: Seq<u8>) -> Seq<VtEvent>;

/// Whether `a` is a prefix of `b`.
pub open spec fn is_prefix(a: Seq<VtEvent>, b: Seq<VtEvent>) -> bool {
    a.len() <= b.len() && b.subrange(0, a.len() as int) == a
}

/// The events emitted for `data` by a parser that has read `fed` before.
pub open spec fn vt_events(fed: Seq<u8>, data: Seq<u8>) -> Seq<VtEvent> {
    vt_stream(fed + data).subrange(vt_stream(fed).len() as int, vt_stream(fed + data).len() as int)
}

/// A vtparse parser, with a record of every byte it has read.
pub struct VtStream {
    parser: vtparse::VTParser,
    fed: Ghost<Seq<u8>>,
}

impl VtStream {
    /// The bytes read so far.
    pub closed spec fn fed(&self) -> Seq<u8> {
        self.fed@
    }

    /// A parser that has read nothing.
    pub fn new() -> (r: Self)
        ensures
            r.fed() == Seq::<u8>::empty(),
    {
        VtStream { parser: vtparse::VTParser::new(), fed: Ghost(Seq::empty()) }
    }

    /// Relies on `vtparse::VTParser::parse`, which runs `parse_byte` over
    /// `data` in order, with `vtparse::CollectingVTActor`, which appends each
    /// action: the events are what the whole stream read so far emits
    /// beyond what it had emitted before, and after each prefix of `data`
    /// the stream had emitted a prefix of them.
    #[verifier::external_body]
    pub(crate) fn parse(&mut self, data: &[u8]) -> (r: Vec<VtEvent>)
        ensures
            final(self).fed() == old(self).fed() + data@,
            vt_stream(final(self).fed()) == vt_stream(old(self).fed()) + r@,
            forall|k: int| 0 <= k <= data@.len() ==> is_prefix(
                vt_stream(old(self).fed()),
                #[trigger] vt_stream(old(self).fed() + data@.take(k)),
            ) && is_prefix(vt_stream(old(self).fed() + data@.take(k)), vt_stream(final(self).fed())),
    {
        let mut actor = vtparse::CollectingVTActor::default();
        self.parser.parse(data, &mut actor);
        actor.into_vec().into_iter().map(event_of_action).collect()
    }
}

/// Relies on `String`'s `FromIterator<char>`: the characters in order.
#[verifier::external_body]
pub(crate) fn string_from_char_vec(v: &Vec<char>) -> (r: String)
    ensures
        r@ == v@,
{
    v.iter().collect()
}

/// Relies on `str::chars`: the characters of `s` in order.
#[verifier::external_body]
pub(crate) fn text_chars(s: &str) -> (r: Vec<char>)
    ensures
        r@ == s@,
{
    s.chars().collect()
}

proof fn lemma_ints_concat(a: Seq<CsiArg>, b: Seq<CsiArg>)
    ensures
        ints_of(a + b) == ints_of(a) + ints_of(b),
    decreases b.len(),
{
    if b.len() == 0 {
        assert(a + b =~= a);
        assert(ints_of(b) =~= Seq::<i64>::empty());
        assert(ints_of(a) + ints_of(b) =~= ints_of(a));
    } else {
        lemma_ints_concat(a, b.drop_last());
        assert((a + b).drop_last() =~= a + b.drop_last());
        assert((a + b).last() == b.last());
        match b.last() {
            CsiArg::Integer(v) => {
                assert(ints_of(a) + ints_of(b.drop_last()).push(v) =~= (ints_of(a) + ints_of(b.drop_last())).push(v));
            },
            CsiArg::P(_) => {},
        }
    }
}

/// The `k`-th numeric CSI parameter.
fn nth_integer(params: &Vec<CsiArg>, k: usize) -> (r: Option<i64>)
    ensures
        r == nth_int(params@, k as int),
{
    let ghost ps = params@;
    let mut count: usize = 0;
    let mut i: usize = 0;
    while i < params.len()
        invariant
            ps == params@,
            i <= ps.len(),
            count == ints_of(ps.take(i as int)).len(),
            count <= k,
        decreases ps.len() - i,
    {
        proof {
            lemma_ints_concat(ps.take(i as int), ps.skip(i as int));
            assert(ps.take(i as int) + ps.skip(i as int) =~= ps);
            assert(ps.take(i as int + 1).drop_last() =~= ps.take(i as int));
            assert(ps.take(i as int + 1).last() == ps[i as int]);
        }
        match params[i] {
            CsiArg::Integer(v) => {
                if count == k {
                    proof {
                        let rest = ps.skip(i as int);
                        lemma_ints_concat(seq![ps[i as int]], rest.drop_first());
                        assert(seq![ps[i as int]] + rest.drop_first() =~= rest);
                        assert(ints_of(seq![ps[i as int]]) =~= seq![v]) by {
                            assert(seq![ps[i as int]].drop_last() =~= Seq::<CsiArg>::empty());
                            assert(ints_of(Seq::<CsiArg>::empty()) =~= Seq::<i64>::empty());
                            assert(seq![ps[i as int]].last() == CsiArg::Integer(v));
                        }
                        assert(ints_of(ps)[k as int] == v);
                    }
                    return Some(v);
                }
                count += 1;
            },
            CsiArg::P(_) => {},
        }
        i += 1;
    }
    proof {
        assert(ps.take(i as int) =~= ps);
    }
    None
}

/// `v` clamped to `0..dim`, for `v` given as a non-negative base plus or
/// minus a positive count.
fn clamp_move(base: u16, n: i64, forward: bool, dim: u16) -> (r: u16)
    requires
        n > 0,
    ensures
        r == clamp_to(if forward { base + n } else { base - n }, dim),
{
    if dim == 0 {
        0
    } else if forward {
        if n >= dim as i64 || base as i64 + n >= dim as i64 {
            dim - 1
        } else {
            (base as i64 + n) as u16
        }
    } else if n >= base as i64 {
        0
    } else {
        let v = (base as i64 - n) as u16;
        if v >= dim { dim - 1 } else { v }
    }
}

/// The terminal grid, fed through a VT parser.
pub struct ScreenState {
    parser: VtStream,
    width: u16,
    height: u16,
    cursor_row: u16,
    cursor_col: u16,
    cells: Vec<char>,
    sixel_regions: Vec<SixelRegion>,
    capturing: bool,
    origin_row: u16,
    origin_col: u16,
    pending: Vec<u8>,
    params: Vec<i64>,
}

impl View for ScreenState {
    type V = GridView;

    closed spec fn view(&self) -> GridView {
        GridView {
            width: self.width,
            height: self.height,
            cursor: (self.cursor_row, self.cursor_col),
            cells: self.cells@,
            sixels: self.sixel_regions@.map_values(|r: SixelRegion| r@),
            capturing: self.capturing,
            origin: (self.origin_row, self.origin_col),
            pending: self.pending@,
            params: self.params@,
        }
    }
}

impl ScreenState {
    pub open spec fn wf(&self) -> bool {
        grid_wf(self@)
    }

    /// The bytes fed so far (since creation or the last resize).
    pub closed spec fn fed(&self) -> Seq<u8> {
        self.parser.fed()
    }

    /// A blank `width` x `height` grid with a fresh parser.
    pub fn new(width: u16, height: u16) -> (r: Self)
        ensures
            r@ == blank_grid(width, height),
            r.fed() == Seq::<u8>::empty(),
            r.wf(),
    {
        proof {
            assert(width * height <= 0xffff * 0xffff) by (nonlinear_arith)
                requires width <= 0xffff, height <= 0xffff;
        }
        let n = width as usize * height as usize;
        let mut cells: Vec<char> = Vec::new();
        let mut i: usize = 0;
        while i < n
            invariant
                i <= n,
                n == width * height,
                cells@ == Seq::new(i as nat, |k: int| ' '),
            decreases n - i,
        {
            cells.push(' ');
            i += 1;
        }
        let r = ScreenState {
            parser: VtStream::new(),
            width,
            height,
            cursor_row: 0,
            cursor_col: 0,
            cells,
            sixel_regions: Vec::new(),
            capturing: false,
            origin_row: 0,
            origin_col: 0,
            pending: Vec::new(),
            params: Vec::new(),
        };
        proof {
            assert(r@.sixels =~= Seq::<SixelView>::empty());
            assert(r@ == blank_grid(width, height));
        }
        r
    }

    fn set_cursor(&mut self, row: u16, col: u16)
        ensures
            final(self).fed() == old(self).fed(),
            final(self)@ == with_cursor(old(self)@, row, col),
    {
        self.cursor_row = row;
        self.cursor_col = col;
    }

    fn next_row_exec(&self) -> (r: u16)
        ensures
            r == next_row(self@),
    {
        if self.height > 0 && self.cursor_row < self.height - 1 {
            self.cursor_row + 1
        } else {
            self.cursor_row
        }
    }

    fn put_char(&mut self, ch: char)
        requires
            old(self).wf(),
        ensures
            final(self).fed() == old(self).fed(),
            final(self)@ == apply_print(old(self)@, ch),
    {
        let row = self.cursor_row;
        let col = self.cursor_col;
        if row < self.height && col < self.width {
            proof {
                lemma_cell_index(row as int, col as int, self.width as int, self.height as int);
                assert(self.width * self.height <= 0xffff * 0xffff) by (nonlinear_arith)
                    requires self.width <= 0xffff, self.height <= 0xffff;
            }
            let idx = row as usize * self.width as usize + col as usize;
            self.cells.set(idx, ch);
            if col + 1 < self.width {
                self.cursor_col = col + 1;
            }
        }
    }

    fn csi_dispatch(&mut self, params: &Vec<CsiArg>, byte: u8)
        ensures
            final(self).fed() == old(self).fed(),
            final(self)@ == apply_csi(old(self)@, params@, byte),
    {
        let first = nth_integer(params, 0);
        let n: i64 = match first {
            Some(v) => if v > 0 { v } else { 1 },
            None => 1,
        };
        let (row, col) = (self.cursor_row, self.cursor_col);
        if byte == 72 || byte == 102 {
            let second = nth_integer(params, 1);
            let m: i64 = match second {
                Some(v) => if v > 0 { v } else { 1 },
                None => 1,
            };
            let r = if n - 1 == 0 { clamp_move(0, 1, false, self.height) } else { clamp_move(0, n - 1, true, self.height) };
            let c = if m - 1 == 0 { clamp_move(0, 1, false, self.width) } else { clamp_move(0, m - 1, true, self.width) };
            self.set_cursor(r, c);
        } else if byte == 65 {
            let r = clamp_move(row, n, false, self.height);
            self.set_cursor(r, col);
        } else if byte == 66 {
            let r = clamp_move(row, n, true, self.height);
            self.set_cursor(r, col);
        } else if byte == 67 {
            let c = clamp_move(col, n, true, self.width);
            self.set_cursor(row, c);
        } else if byte == 68 {
            let c = clamp_move(col, n, false, self.width);
            self.set_cursor(row, c);
        }
    }

    fn execute_control(&mut self, b: u8)
        ensures
            final(self).fed() == old(self).fed(),
            final(self)@ == apply_control(old(self)@, b),
    {
        if b == 13 {
            self.cursor_col = 0;
        } else if b == 10 {
            let r = self.next_row_exec();
            self.cursor_row = r;
        } else if b == 9 {
            let stop: u32 = (self.cursor_col as u32 / 8 + 1) * 8;
            let c = if self.width == 0 {
                0
            } else if stop >= self.width as u32 {
                self.width - 1
            } else {
                stop as u16
            };
            self.cursor_col = c;
        }
    }

    fn esc_dispatch(&mut self, b: u8)
        ensures
            final(self).fed() == old(self).fed(),
            final(self)@ == apply_esc(old(self)@, b),
    {
        if b == 68 {
            let r = self.next_row_exec();
            self.cursor_row = r;
        } else if b == 69 {
            let r = self.next_row_exec();
            self.cursor_row = r;
            self.cursor_col = 0;
        }
    }

    fn dcs_unhook(&mut self)
        ensures
            final(self).fed() == old(self).fed(),
            final(self)@ == apply(old(self)@, VtEvent::DcsUnhook),
    {
        if self.capturing {
            let dims = parse_raster_attributes(self.pending.as_slice());
            let region = SixelRegion {
                start_row: self.origin_row,
                start_col: self.origin_col,
                width: match dims {
                    Some(d) => Some(d.0),
                    None => None,
                },
                height: match dims {
                    Some(d) => Some(d.1),
                    None => None,
                },
                data: self.pending.clone(),
            };
            self.sixel_regions.push(region);
            self.capturing = false;
            self.pending = Vec::new();
            self.params = Vec::new();
            proof {
                assert(self@.sixels =~= old(self)@.sixels.push(finished_sixel(old(self)@)));
            }
        }
    }

    /// Applies one parser event.
    pub fn apply_event(&mut self, ev: &VtEvent)
        requires
            old(self).wf(),
        ensures
            final(self).fed() == old(self).fed(),
            final(self)@ == apply(old(self)@, *ev),
            final(self).wf(),
    {
        proof {
            lemma_apply_wf(self@, *ev);
        }
        match ev {
            VtEvent::Print(ch) => self.put_char(*ch),
            VtEvent::Control(b) => self.execute_control(*b),
            VtEvent::DcsHook { mode, params } => {
                if *mode == 113 {
                    self.capturing = true;
                    self.origin_row = self.cursor_row;
                    self.origin_col = self.cursor_col;
                    self.pending = Vec::new();
                    self.params = params.clone();
                }
            },
            VtEvent::DcsPut(b) => {
                if self.capturing {
                    self.pending.push(*b);
                }
            },
            VtEvent::DcsUnhook => self.dcs_unhook(),
            VtEvent::Esc(b) => self.esc_dispatch(*b),
            VtEvent::Csi { params, byte } => self.csi_dispatch(params, *byte),
            VtEvent::Osc => {},
            VtEvent::Apc => {},
        }
    }

    /// Applies parser events in order.
    pub fn feed_events(&mut self, events: &[VtEvent])
        requires
            old(self).wf(),
        ensures
            final(self).fed() == old(self).fed(),
            final(self)@ == apply_all(old(self)@, events@),
            final(self).wf(),
    {
        let mut i: usize = 0;
        while i < events.len()
            invariant
                i <= events@.len(),
                self@ == apply_all(old(self)@, events@.take(i as int)),
                self.fed() == old(self).fed(),
                self.wf(),
            decreases events@.len() - i,
        {
            proof {
                assert(events@.take(i as int + 1).drop_last() =~= events@.take(i as int));
            }
            self.apply_event(&events[i]);
            i += 1;
        }
        proof {
            assert(events@.take(i as int) =~= events@);
        }
    }

    /// Feeds raw output bytes through the parser and applies the events it
    /// emits. Escape sequences split across calls are completed by later
    /// calls: feeding `data` in two parts, split anywhere, leaves the grid
    /// as feeding it at once.
    pub fn feed(&mut self, data: &[u8])
        requires
            old(self).wf(),
        ensures
            final(self).fed() == old(self).fed() + data@,
            final(self)@ == apply_all(old(self)@, vt_events(old(self).fed(), data@)),
            forall|k: int| 0 <= k <= data@.len() ==> final(self)@ == apply_all(
                apply_all(old(self)@, #[trigger] vt_events(old(self).fed(), data@.take(k))),
                vt_events(old(self).fed() + data@.take(k), data@.skip(k)),
            ),
            final(self).wf(),
    {
        let ghost f = self.fed();
        let events = self.parser.parse(data);
        self.feed_events(events.as_slice());
        proof {
            let whole = vt_stream(f + data@);
            assert(vt_events(f, data@) =~= events@);
            assert forall|k: int| 0 <= k <= data@.len() implies self@ == apply_all(
                apply_all(old(self)@, #[trigger] vt_events(f, data@.take(k))),
                vt_events(f + data@.take(k), data@.skip(k)),
            ) by {
                let mid = f + data@.take(k);
                assert(mid + data@.skip(k) =~= f + data@);
                assert(f + data@.take(k) =~= mid);
                let e1 = vt_events(f, data@.take(k));
                let e2 = vt_events(mid, data@.skip(k));
                assert(is_prefix(vt_stream(mid), whole));
                assert(is_prefix(vt_stream(f), vt_stream(mid)));
                let s0 = vt_stream(f);
                let sm = vt_stream(mid);
                assert(whole =~= s0 + events@);
                assert(sm =~= whole.subrange(0, sm.len() as int));
                assert(e1 =~= whole.subrange(s0.len() as int, sm.len() as int));
                assert(e1 + e2 =~= events@);
                law_feed_concat(old(self)@, e1, e2);
            }
        }
    }
}

/// Whether `needle` occurs in `hay`, by direct comparison at each offset.
pub fn find_chars(hay: &Vec<char>, needle: &Vec<char>) -> (r: bool)
    ensures
        r == is_substring(needle@, hay@),
{
    let n = needle.len();
    let h = hay.len();
    if n > h {
        return false;
    }
    let mut i: usize = 0;
    while i <= h - n
        invariant
            n == needle@.len(),
            h == hay@.len(),
            n <= h,
            i <= h - n + 1,
            forall|k: int| 0 <= k < i ==> #[trigger] hay@.subrange(k, k + n) != needle@,
        decreases h - n + 1 - i,
    {
        let mut j: usize = 0;
        while j < n && hay[i + j] == needle[j]
            invariant
                n == needle@.len(),
                h == hay@.len(),
                i + n <= h,
                j <= n,
                forall|m: int| 0 <= m < j ==> hay@[i + m] == needle@[m],
            decreases n - j,
        {
            j += 1;
        }
        if j == n {
            proof {
                assert(hay@.subrange(i as int, i + n) =~= needle@);
            }
            return true;
        }
        proof {
            assert(hay@.subrange(i as int, i + n)[j as int] != needle@[j as int]);
        }
        i += 1;
    }
    false
}

impl ScreenState {
    /// The cells as text: each row `width` characters, rows joined by newlines.
    pub fn contents(&self) -> (r: String)
        requires
            self.wf(),
        ensures
            r@ == contents_of(self@),
    {
        let chars = self.contents_chars();
        string_from_char_vec(&chars)
    }

    fn contents_chars(&self) -> (r: Vec<char>)
        requires
            self.wf(),
        ensures
            r@ == contents_of(self@),
    {
        let w = self.width as usize;
        let mut out: Vec<char> = Vec::new();
        let mut r: usize = 0;
        while r < self.height as usize
            invariant
                self.wf(),
                w == self.width,
                r <= self.height,
                out@ == rows_joined(self@, r as int),
            decreases self.height - r,
        {
            if r > 0 {
                out.push('\n');
            }
            let ghost base = out@;
            proof {
                lemma_cell_index(r as int, 0, w as int, self.height as int);
                assert(self.width * self.height <= 0xffff * 0xffff) by (nonlinear_arith)
                    requires self.width <= 0xffff, self.height <= 0xffff;
            }
            let start = r * w;
            let mut c: usize = 0;
            while c < w
                invariant
                    self.wf(),
                    w == self.width,
                    r < self.height,
                    start == r * w,
                    start + w <= self.cells@.len(),
                    self.cells@.len() <= 0xffff * 0xffff,
                    c <= w,
                    out@ == base + row_of(self@, r as int).take(c as int),
                decreases w - c,
            {
                out.push(self.cells[start + c]);
                proof {
                    assert(row_of(self@, r as int).take(c as int + 1) =~= row_of(self@, r as int).take(c as int).push(self.cells@[start + c]));
                }
                c += 1;
            }
            proof {
                assert(row_of(self@, r as int).take(w as int) =~= row_of(self@, r as int));
                if r == 0 {
                    assert(base =~= Seq::<char>::empty());
                    assert(out@ =~= row_of(self@, 0));
                }
            }
            r += 1;
        }
        out
    }

    /// Row `row` as text, or the empty string past the last row.
    pub fn row_contents(&self, row: u16) -> (r: String)
        requires
            self.wf(),
        ensures
            r@ == (if row < self@.height { row_of(self@, row as int) } else { Seq::empty() }),
    {
        let mut out: Vec<char> = Vec::new();
        if row < self.height {
            proof {
                lemma_cell_index(row as int, 0, self.width as int, self.height as int);
                assert(self.width * self.height <= 0xffff * 0xffff) by (nonlinear_arith)
                    requires self.width <= 0xffff, self.height <= 0xffff;
            }
            let start = row as usize * self.width as usize;
            let mut c: usize = 0;
            while c < self.width as usize
                invariant
                    self.wf(),
                    row < self.height,
                    start == row * self.width,
                    start + self.width <= self.cells@.len(),
                    self.cells@.len() <= 0xffff * 0xffff,
                    c <= self.width,
                    out@ == row_of(self@, row as int).take(c as int),
                decreases self.width - c,
            {
                out.push(self.cells[start + c]);
                proof {
                    assert(row_of(self@, row as int).take(c as int + 1) =~= row_of(self@, row as int).take(c as int).push(self.cells@[start + c]));
                }
                c += 1;
            }
            proof {
                assert(row_of(self@, row as int).take(self.width as int) =~= row_of(self@, row as int));
            }
        }
        string_from_char_vec(&out)
    }

    /// The character at (row, col), or `None` off the grid.
    pub fn text_at(&self, row: u16, col: u16) -> (r: Option<char>)
        requires
            self.wf(),
        ensures
            r == (if row < self@.height && col < self@.width {
                Some(self@.cells[row * self@.width + col])
            } else {
                None
            }),
    {
        if row < self.height && col < self.width {
            proof {
                lemma_cell_index(row as int, col as int, self.width as int, self.height as int);
                assert(self.width * self.height <= 0xffff * 0xffff) by (nonlinear_arith)
                    requires self.width <= 0xffff, self.height <= 0xffff;
            }
            Some(self.cells[row as usize * self.width as usize + col as usize])
        } else {
            None
        }
    }

    /// The cursor as (row, col), 0-indexed.
    pub fn cursor_position(&self) -> (r: (u16, u16))
        ensures
            r == self@.cursor,
    {
        (self.cursor_row, self.cursor_col)
    }

    /// The size as (width, height).
    pub fn size(&self) -> (r: (u16, u16))
        ensures
            r == (self@.width, self@.height),
    {
        (self.width, self.height)
    }

    /// Every Sixel region seen so far, in order.
    pub fn sixel_regions(&self) -> (r: &[SixelRegion])
        ensures
            r@.map_values(|x: SixelRegion| x@) == self@.sixels,
    {
        self.sixel_regions.as_slice()
    }

    /// Whether some Sixel region starts exactly at (row, col).
    pub fn has_sixel_at(&self, row: u16, col: u16) -> (r: bool)
        ensures
            r == exists|k: int| 0 <= k < self@.sixels.len() && #[trigger] self@.sixels[k].start_row == row
                && self@.sixels[k].start_col == col,
    {
        let mut k: usize = 0;
        while k < self.sixel_regions.len()
            invariant
                k <= self.sixel_regions@.len(),
                self@.sixels == self.sixel_regions@.map_values(|x: SixelRegion| x@),
                forall|j: int| 0 <= j < k ==> !(#[trigger] self@.sixels[j].start_row == row && self@.sixels[j].start_col == col),
            decreases self.sixel_regions@.len() - k,
        {
            if self.sixel_regions[k].start_row == row && self.sixel_regions[k].start_col == col {
                proof {
                    assert(self@.sixels[k as int].start_row == row);
                }
                return true;
            }
            k += 1;
        }
        false
    }

    /// The contents, for diagnostics.
    pub fn debug_contents(&self) -> (r: String)
        requires
            self.wf(),
        ensures
            r@ == contents_of(self@),
    {
        self.contents()
    }

    /// Whether `text` occurs in the contents.
    pub fn contains(&self, text: &str) -> (r: bool)
        requires
            self.wf(),
        ensures
            r == is_substring(text@, contents_of(self@)),
    {
        let hay = self.contents_chars();
        let needle = text_chars(text);
        find_chars(&hay, &needle)
    }

    /// Replaces the grid with a blank one of the new size: cursor at the
    /// origin, Sixel history cleared, parser reset.
    pub fn resize(&mut self, width: u16, height: u16)
        ensures
            final(self)@ == blank_grid(width, height),
            final(self).fed() == Seq::<u8>::empty(),
            final(self).wf(),
    {
        *self = ScreenState::new(width, height);
    }
}

// ---------------------------------------------------------------------------
// Laws of the grid
// ---------------------------------------------------------------------------

/// Whatever events arrive, a well-formed grid stays well formed: every
/// position (r, c) with r < rows and c < cols has a cell, so `text_at`
/// returns a character there, and the cursor stays on the grid.
pub proof fn law_cells_always_defined(g: GridView, evs: Seq<VtEvent>, r: int, c: int)
    requires
        grid_wf(g),
        0 <= r < g.height,
        0 <= c < g.width,
    ensures
        grid_wf(apply_all(g, evs)),
        0 <= r * g.width + c < apply_all(g, evs).cells.len(),
{
    lemma_apply_all_wf(g, evs);
    lemma_cell_index(r, c, g.width as int, g.height as int);
}

/// Whether some event of `evs` printed `ch`.
pub open spec fn printed(evs: Seq<VtEvent>, ch: char) -> bool {
    exists|k: int| 0 <= k < evs.len() && #[trigger] evs[k] == VtEvent::Print(ch)
}

proof fn lemma_cells_from(g: GridView, evs: Seq<VtEvent>)
    requires
        grid_wf(g),
    ensures
        apply_all(g, evs).cells.len() == g.cells.len(),
        forall|i: int| 0 <= i < g.cells.len() ==> #[trigger] apply_all(g, evs).cells[i] == g.cells[i]
            || printed(evs, apply_all(g, evs).cells[i]),
    decreases evs.len(),
{
    lemma_apply_all_wf(g, evs);
    if evs.len() > 0 {
        let prev = evs.drop_last();
        lemma_cells_from(g, prev);
        lemma_apply_all_wf(g, prev);
        let before = apply_all(g, prev);
        let after = apply_all(g, evs);
        assert forall|i: int| 0 <= i < g.cells.len() implies #[trigger] after.cells[i] == g.cells[i]
            || printed(evs, after.cells[i]) by {
            assert(after == apply(before, evs.last()));
            if after.cells[i] != before.cells[i] {
                match evs.last() {
                    VtEvent::Print(ch) => {
                        assert(after == apply(before, evs.last()));
                        assert(after == apply_print(before, ch));
                        if before.cursor.0 < before.height && before.cursor.1 < before.width {
                            lemma_cell_index(before.cursor.0 as int, before.cursor.1 as int, before.width as int, before.height as int);
                        }
                        assert(after.cells[i] == ch);
                        assert(evs[evs.len() - 1] == VtEvent::Print(ch));
                    },
                    _ => {},
                }
            } else if before.cells[i] != g.cells[i] {
                let k = choose|k: int| 0 <= k < prev.len() && #[trigger] prev[k] == VtEvent::Print(before.cells[i]);
                assert(evs[k] == prev[k]);
            }
        }
    }
}

/// Whatever bytes arrive, every cell of a grid that started blank holds a
/// space or a character that the parser reported as printed.
pub proof fn law_cells_hold_printed(width: u16, height: u16, evs: Seq<VtEvent>, i: int)
    requires
        0 <= i < width * height,
    ensures
        apply_all(blank_grid(width, height), evs).cells[i] == ' '
            || printed(evs, apply_all(blank_grid(width, height), evs).cells[i]),
{
    let g = blank_grid(width, height);
    assert(grid_wf(g));
    lemma_cells_from(g, evs);
}

/// Feeding two batches of events one after the other leaves the grid as
/// feeding their concatenation does.
pub proof fn law_feed_concat(g: GridView, e1: Seq<VtEvent>, e2: Seq<VtEvent>)
    ensures
        apply_all(apply_all(g, e1), e2) == apply_all(g, e1 + e2),
    decreases e2.len(),
{
    if e2.len() == 0 {
        assert(e1 + e2 =~= e1);
    } else {
        law_feed_concat(g, e1, e2.drop_last());
        assert((e1 + e2).drop_last() =~= e1 + e2.drop_last());
        assert((e1 + e2).last() == e2.last());
    }
}

/// `CSI n ; m H` with 1 <= n <= rows and 1 <= m <= cols puts the cursor at
/// (n - 1, m - 1).
pub proof fn law_cursor_position(g: GridView, params: Vec<CsiArg>, n: i64, m: i64)
    requires
        grid_wf(g),
        1 <= n <= g.height,
        1 <= m <= g.width,
        params@ == seq![CsiArg::Integer(n), CsiArg::P(59), CsiArg::Integer(m)],
    ensures
        apply(g, VtEvent::Csi { params, byte: 72 }).cursor == ((n - 1) as u16, (m - 1) as u16),
{
    let ps = params@;
    let head = ps.drop_last().drop_last();
    let mid = ps.drop_last();
    assert(head =~= seq![CsiArg::Integer(n)]);
    assert(head.drop_last() =~= Seq::<CsiArg>::empty());
    assert(ints_of(Seq::<CsiArg>::empty()) =~= Seq::<i64>::empty());
    assert(ints_of(head) =~= seq![n]);
    assert(mid.drop_last() =~= head);
    assert(mid.last() == CsiArg::P(59));
    assert(ints_of(mid) =~= seq![n]);
    assert(ps.last() == CsiArg::Integer(m));
    assert(ints_of(ps) =~= seq![n, m]);
}

/// Cursor moves saturate: up and back stop at 0, down and forward stop at
/// the last row and column; the cursor never leaves the grid.
pub proof fn law_cursor_moves_saturate(g: GridView, params: Vec<CsiArg>, byte: u8)
    requires
        grid_wf(g),
        g.width > 0,
        g.height > 0,
        byte == 65 || byte == 66 || byte == 67 || byte == 68,
    ensures
        ({
            let n = count_or_one(nth_int(params@, 0));
            let (row, col) = g.cursor;
            let (r2, c2) = apply(g, VtEvent::Csi { params, byte }).cursor;
            &&& r2 < g.height && c2 < g.width
            &&& byte == 65 ==> r2 == (if n >= row { 0 } else { row - n }) && c2 == col
            &&& byte == 66 ==> r2 == (if row + n >= g.height { g.height - 1 } else { row + n }) && c2 == col
            &&& byte == 67 ==> c2 == (if col + n >= g.width { g.width - 1 } else { col + n }) && r2 == row
            &&& byte == 68 ==> c2 == (if n >= col { 0 } else { col - n }) && r2 == row
        }),
{
}

/// An absent or zero CSI parameter counts as 1.
pub proof fn law_params_default_to_one(g: GridView, empty: Vec<CsiArg>, zero: Vec<CsiArg>, one: Vec<CsiArg>, byte: u8)
    requires
        empty@ == Seq::<CsiArg>::empty(),
        zero@ == seq![CsiArg::Integer(0)],
        one@ == seq![CsiArg::Integer(1)],
    ensures
        apply(g, VtEvent::Csi { params: empty, byte }) == apply(g, VtEvent::Csi { params: one, byte }),
        apply(g, VtEvent::Csi { params: zero, byte }) == apply(g, VtEvent::Csi { params: one, byte }),
{
    assert(ints_of(empty@) =~= Seq::<i64>::empty());
    assert(zero@.drop_last() =~= Seq::<CsiArg>::empty());
    assert(one@.drop_last() =~= Seq::<CsiArg>::empty());
    assert(ints_of(zero@) =~= seq![0i64]);
    assert(ints_of(one@) =~= seq![1i64]);
}

} // verus!
