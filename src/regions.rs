//! Fixed UI regions (bars and sidebars) laid out inward from the screen edges,
//! and the content area that remains.

use vstd::prelude::*;

verus! {

/// Which screen edge a region is anchored to.
#[derive(Debug, Clone, Copy, PartialEq, Eq, Structural)]
pub enum RegionAnchor {
    Top,
    Bottom,
    Left,
    Right,
}

/// A named region: rows for Top/Bottom anchors, columns for Left/Right.
#[derive(Debug, Clone, PartialEq, Eq)]
pub struct UiRegion {
    pub name: String,
    pub anchor: RegionAnchor,
    pub size: u16,
}

/// A rectangle: first row, first column, width in columns, height in rows.
#[derive(Debug, Clone, Copy, PartialEq, Eq, Structural)]
pub struct RegionBounds {
    pub row: u16,
    pub col: u16,
    pub width: u16,
    pub height: u16,
}

pub open spec fn sat_add(a: u16, b: u16) -> int {
    if a + b > u16::MAX { u16::MAX as int } else { a + b }
}

pub open spec fn min(a: int, b: int) -> int {
    if a <= b { a } else { b }
}

impl RegionBounds {
    /// Whether (row, col) lies inside, with the far edges computed saturating.
    pub open spec fn spec_contains(self, row: u16, col: u16) -> bool {
        &&& self.row <= row < sat_add(self.row, self.height)
        &&& self.col <= col < sat_add(self.col, self.width)
    }

    /// Whether the two rectangles share a cell, with far edges saturating.
    pub open spec fn spec_intersects(self, o: RegionBounds) -> bool {
        !(sat_add(self.row, self.height) <= o.row || sat_add(o.row, o.height) <= self.row
            || sat_add(self.col, self.width) <= o.col || sat_add(o.col, o.width) <= self.col)
    }

    pub open spec fn area(self) -> int {
        self.width * self.height
    }

    pub fn new(row: u16, col: u16, width: u16, height: u16) -> (r: Self)
        ensures
            r == (RegionBounds { row, col, width, height }),
    {
        RegionBounds { row, col, width, height }
    }

    pub fn contains(&self, row: u16, col: u16) -> (r: bool)
        ensures
            r == self.spec_contains(row, col),
    {
        row >= self.row && row < self.row.saturating_add(self.height) && col >= self.col
            && col < self.col.saturating_add(self.width)
    }

    pub fn intersects(&self, other: &RegionBounds) -> (r: bool)
        ensures
            r == self.spec_intersects(*other),
    {
        !(self.row.saturating_add(self.height) <= other.row
            || other.row.saturating_add(other.height) <= self.row
            || self.col.saturating_add(self.width) <= other.col
            || other.col.saturating_add(other.width) <= self.col)
    }
}

/// Space taken from each edge: (top, bottom, left, right).
pub type Offsets = (int, int, int, int);

/// Where region `reg` sits once `o` has been taken from the edges of a
/// `w` x `h` screen: against the remaining edge, inset by the orthogonal
/// offsets, its size cut down to the space that remains.
pub open spec fn place(reg: UiRegion, o: Offsets, w: u16, h: u16) -> RegionBounds {
    let (t, b, l, r) = o;
    let avail_h = h - t - b;
    let avail_w = w - l - r;
    match reg.anchor {
        RegionAnchor::Top => RegionBounds {
            row: t as u16,
            col: l as u16,
            width: avail_w as u16,
            height: min(reg.size as int, avail_h) as u16,
        },
        RegionAnchor::Bottom => RegionBounds {
            row: (h - b - min(reg.size as int, avail_h)) as u16,
            col: l as u16,
            width: avail_w as u16,
            height: min(reg.size as int, avail_h) as u16,
        },
        RegionAnchor::Left => RegionBounds {
            row: t as u16,
            col: l as u16,
            width: min(reg.size as int, avail_w) as u16,
            height: avail_h as u16,
        },
        RegionAnchor::Right => RegionBounds {
            row: t as u16,
            col: (w - r - min(reg.size as int, avail_w)) as u16,
            width: min(reg.size as int, avail_w) as u16,
            height: avail_h as u16,
        },
    }
}

/// The offsets once `reg`, placed by `place`, has been taken.
pub open spec fn consume(reg: UiRegion, o: Offsets, w: u16, h: u16) -> Offsets {
    let bd = place(reg, o, w, h);
    let (t, b, l, r) = o;
    match reg.anchor {
        RegionAnchor::Top => (t + bd.height, b, l, r),
        RegionAnchor::Bottom => (t, b + bd.height, l, r),
        RegionAnchor::Left => (t, b, l + bd.width, r),
        RegionAnchor::Right => (t, b, l, r + bd.width),
    }
}

/// The offsets taken by the first `k` regions, in insertion order.
pub open spec fn offsets(rs: Seq<UiRegion>, k: int, w: u16, h: u16) -> Offsets
    decreases k,
{
    if k <= 0 || k > rs.len() {
        (0, 0, 0, 0)
    } else {
        consume(rs[k - 1], offsets(rs, k - 1, w, h), w, h)
    }
}

pub open spec fn offsets_fit(o: Offsets, w: u16, h: u16) -> bool {
    let (t, b, l, r) = o;
    0 <= t && 0 <= b && 0 <= l && 0 <= r && t + b <= h && l + r <= w
}

/// The bounds of the region at index `k`.
pub open spec fn bounds_at(rs: Seq<UiRegion>, k: int, w: u16, h: u16) -> RegionBounds {
    place(rs[k], offsets(rs, k, w, h), w, h)
}

/// What remains of the screen once every region has been taken.
pub open spec fn content_of(rs: Seq<UiRegion>, w: u16, h: u16) -> RegionBounds {
    let (t, b, l, r) = offsets(rs, rs.len() as int, w, h);
    RegionBounds { row: t as u16, col: l as u16, width: (w - l - r) as u16, height: (h - t - b) as u16 }
}

/// Whether `k` is the first index whose region has this name.
pub open spec fn is_first_named(rs: Seq<UiRegion>, name: Seq<char>, k: int) -> bool {
    &&& 0 <= k < rs.len()
    &&& rs[k].name@ == name
    &&& forall|j: int| 0 <= j < k ==> rs[j].name@ != name
}

/// The bounds of the first region with this name, if any.
pub open spec fn named_bounds(rs: Seq<UiRegion>, name: Seq<char>, w: u16, h: u16) -> Option<RegionBounds> {
    if exists|k: int| is_first_named(rs, name, k) {
        Some(bounds_at(rs, choose|k: int| is_first_named(rs, name, k), w, h))
    } else {
        None
    }
}

proof fn lemma_offsets_fit(rs: Seq<UiRegion>, k: int, w: u16, h: u16)
    ensures
        offsets_fit(offsets(rs, k, w, h), w, h),
    decreases k,
{
    if k > 0 && k <= rs.len() {
        lemma_offsets_fit(rs, k - 1, w, h);
    }
}

/// Computes `place` and `consume` for one region.
fn place_exec(reg: &UiRegion, t: u16, b: u16, l: u16, r: u16, w: u16, h: u16) -> (res: (RegionBounds, (u16, u16, u16, u16)))
    requires
        t + b <= h,
        l + r <= w,
    ensures
        res.0 == place(*reg, (t as int, b as int, l as int, r as int), w, h),
        (res.1.0 as int, res.1.1 as int, res.1.2 as int, res.1.3 as int) == consume(*reg, (t as int, b as int, l as int, r as int), w, h),
{
    let avail_h = h - t - b;
    let avail_w = w - l - r;
    match reg.anchor {
        RegionAnchor::Top => {
            let hh = if reg.size <= avail_h { reg.size } else { avail_h };
            (RegionBounds { row: t, col: l, width: avail_w, height: hh }, (t + hh, b, l, r))
        },
        RegionAnchor::Bottom => {
            let hh = if reg.size <= avail_h { reg.size } else { avail_h };
            (RegionBounds { row: h - b - hh, col: l, width: avail_w, height: hh }, (t, b + hh, l, r))
        },
        RegionAnchor::Left => {
            let ww = if reg.size <= avail_w { reg.size } else { avail_w };
            (RegionBounds { row: t, col: l, width: ww, height: avail_h }, (t, b, l + ww, r))
        },
        RegionAnchor::Right => {
            let ww = if reg.size <= avail_w { reg.size } else { avail_w };
            (RegionBounds { row: t, col: w - r - ww, width: ww, height: avail_h }, (t, b, l, r + ww))
        },
    }
}

/// Declarative layout of fixed regions over a screen of given size.
#[derive(Debug, Clone)]
pub struct UiRegionTester {
    regions: Vec<UiRegion>,
    screen_width: u16,
    screen_height: u16,
}

impl UiRegionTester {
    /// The regions, in insertion order.
    pub closed spec fn spec_regions(&self) -> Seq<UiRegion> {
        self.regions@
    }

    pub closed spec fn spec_width(&self) -> u16 {
        self.screen_width
    }

    pub closed spec fn spec_height(&self) -> u16 {
        self.screen_height
    }

    pub fn new(width: u16, height: u16) -> (r: Self)
        ensures
            r.spec_regions() == Seq::<UiRegion>::empty(),
            r.spec_width() == width,
            r.spec_height() == height,
    {
        UiRegionTester { regions: Vec::new(), screen_width: width, screen_height: height }
    }

    /// (width, height).
    pub fn screen_dimensions(&self) -> (r: (u16, u16))
        ensures
            r == (self.spec_width(), self.spec_height()),
    {
        (self.screen_width, self.screen_height)
    }

    /// The same regions over a screen of the new size.
    pub fn resized(self, width: u16, height: u16) -> (r: Self)
        ensures
            r.spec_regions() == self.spec_regions(),
            r.spec_width() == width,
            r.spec_height() == height,
    {
        UiRegionTester { regions: self.regions, screen_width: width, screen_height: height }
    }

    /// Appends a region; it is laid out after every region added before it.
    pub fn with_region(self, region: UiRegion) -> (r: Self)
        ensures
            r.spec_regions() == self.spec_regions().push(region),
            r.spec_width() == self.spec_width(),
            r.spec_height() == self.spec_height(),
    {
        let mut s = self;
        s.regions.push(region);
        s
    }

    /// Appends a bottom region named `status_bar` of `height` rows.
    pub fn with_status_bar(self, height: u16) -> (r: Self)
        ensures
            r.spec_regions() == self.spec_regions().push(
                UiRegion { name: r.spec_regions().last().name, anchor: RegionAnchor::Bottom, size: height },
            ),
            r.spec_regions().last().name@ == "status_bar"@,
            r.spec_width() == self.spec_width(),
            r.spec_height() == self.spec_height(),
    {
        let name = "status_bar".to_string();
        self.with_region(UiRegion { name, anchor: RegionAnchor::Bottom, size: height })
    }

    /// Appends a top region named `tab_bar` of `height` rows.
    pub fn with_tab_bar(self, height: u16) -> (r: Self)
        ensures
            r.spec_regions() == self.spec_regions().push(
                UiRegion { name: r.spec_regions().last().name, anchor: RegionAnchor::Top, size: height },
            ),
            r.spec_regions().last().name@ == "tab_bar"@,
            r.spec_width() == self.spec_width(),
            r.spec_height() == self.spec_height(),
    {
        let name = "tab_bar".to_string();
        self.with_region(UiRegion { name, anchor: RegionAnchor::Top, size: height })
    }

    /// Appends a left region named `left_sidebar` of `width` columns.
    pub fn with_left_sidebar(self, width: u16) -> (r: Self)
        ensures
            r.spec_regions() == self.spec_regions().push(
                UiRegion { name: r.spec_regions().last().name, anchor: RegionAnchor::Left, size: width },
            ),
            r.spec_regions().last().name@ == "left_sidebar"@,
            r.spec_width() == self.spec_width(),
            r.spec_height() == self.spec_height(),
    {
        let name = "left_sidebar".to_string();
        self.with_region(UiRegion { name, anchor: RegionAnchor::Left, size: width })
    }

    /// Appends a right region named `right_sidebar` of `width` columns.
    pub fn with_right_sidebar(self, width: u16) -> (r: Self)
        ensures
            r.spec_regions() == self.spec_regions().push(
                UiRegion { name: r.spec_regions().last().name, anchor: RegionAnchor::Right, size: width },
            ),
            r.spec_regions().last().name@ == "right_sidebar"@,
            r.spec_width() == self.spec_width(),
            r.spec_height() == self.spec_height(),
    {
        let name = "right_sidebar".to_string();
        self.with_region(UiRegion { name, anchor: RegionAnchor::Right, size: width })
    }
}

impl UiRegionTester {
    /// The offsets taken by the first `k` regions.
    fn offsets_before(&self, k: usize) -> (o: (u16, u16, u16, u16))
        requires
            k <= self.spec_regions().len(),
        ensures
            (o.0 as int, o.1 as int, o.2 as int, o.3 as int)
                == offsets(self.spec_regions(), k as int, self.spec_width(), self.spec_height()),
            o.0 + o.1 <= self.spec_height(),
            o.2 + o.3 <= self.spec_width(),
    {
        let (w, h) = (self.screen_width, self.screen_height);
        let mut o: (u16, u16, u16, u16) = (0, 0, 0, 0);
        let mut j: usize = 0;
        while j < k
            invariant
                j <= k <= self.regions@.len(),
                w == self.spec_width(),
                h == self.spec_height(),
                (o.0 as int, o.1 as int, o.2 as int, o.3 as int) == offsets(self.regions@, j as int, w, h),
                o.0 + o.1 <= h,
                o.2 + o.3 <= w,
            decreases k - j,
        {
            let (_, next) = place_exec(&self.regions[j], o.0, o.1, o.2, o.3, w, h);
            proof {
                lemma_offsets_fit(self.regions@, j as int + 1, w, h);
            }
            o = next;
            j += 1;
        }
        o
    }

    /// The bounds of the region at index `k`.
    fn calculate_bounds(&self, k: usize) -> (r: RegionBounds)
        requires
            k < self.spec_regions().len(),
        ensures
            r == bounds_at(self.spec_regions(), k as int, self.spec_width(), self.spec_height()),
    {
        let o = self.offsets_before(k);
        let (b, _) = place_exec(&self.regions[k], o.0, o.1, o.2, o.3, self.screen_width, self.screen_height);
        b
    }

    /// The bounds of the first region named `name`, or `None` when no region
    /// has that name.
    pub fn region_bounds(&self, name: &str) -> (r: Option<RegionBounds>)
        ensures
            r == named_bounds(self.spec_regions(), name@, self.spec_width(), self.spec_height()),
    {
        let key = name.to_string();
        let mut k: usize = 0;
        while k < self.regions.len()
            invariant
                k <= self.regions@.len(),
                key@ == name@,
                forall|j: int| 0 <= j < k ==> self.regions@[j].name@ != name@,
            decreases self.regions@.len() - k,
        {
            if self.regions[k].name == key {
                let b = self.calculate_bounds(k);
                proof {
                    let rs = self.regions@;
                    assert(is_first_named(rs, name@, k as int));
                    let c = choose|c: int| is_first_named(rs, name@, c);
                    if c < k {
                    } else if c > k {
                        assert(rs[k as int].name@ != name@);
                    }
                }
                return Some(b);
            }
            k += 1;
        }
        None
    }

    /// The part of the screen that no region takes.
    pub fn content_area(&self) -> (r: RegionBounds)
        ensures
            r == content_of(self.spec_regions(), self.spec_width(), self.spec_height()),
    {
        let o = self.offsets_before(self.regions.len());
        RegionBounds {
            row: o.0,
            col: o.2,
            width: self.screen_width - o.2 - o.3,
            height: self.screen_height - o.0 - o.1,
        }
    }

    /// Whether (row, col) lies in the content area.
    pub fn is_in_content_area(&self, row: u16, col: u16) -> (r: bool)
        ensures
            r == content_of(self.spec_regions(), self.spec_width(), self.spec_height()).spec_contains(row, col),
    {
        self.content_area().contains(row, col)
    }

    /// Whether (row, col) lies in the first region named `region_name`;
    /// false when there is none.
    pub fn is_in_region(&self, region_name: &str, row: u16, col: u16) -> (r: bool)
        ensures
            r == match named_bounds(self.spec_regions(), region_name@, self.spec_width(), self.spec_height()) {
                Some(b) => b.spec_contains(row, col),
                None => false,
            },
    {
        match self.region_bounds(region_name) {
            Some(b) => b.contains(row, col),
            None => false,
        }
    }

    /// The names of the regions, in insertion order.
    pub fn region_names(&self) -> (r: Vec<String>)
        ensures
            r@.len() == self.spec_regions().len(),
            forall|k: int| 0 <= k < r@.len() ==> r@[k]@ == self.spec_regions()[k].name@,
    {
        let mut out: Vec<String> = Vec::new();
        let mut k: usize = 0;
        while k < self.regions.len()
            invariant
                k <= self.regions@.len(),
                out@.len() == k,
                forall|j: int| 0 <= j < k ==> out@[j]@ == self.regions@[j].name@,
            decreases self.regions@.len() - k,
        {
            out.push(self.regions[k].name.clone());
            k += 1;
        }
        out
    }
}

/// The summed areas of the first `k` regions.
pub open spec fn sum_areas(rs: Seq<UiRegion>, k: int, w: u16, h: u16) -> int
    decreases k,
{
    if k <= 0 || k > rs.len() {
        0
    } else {
        sum_areas(rs, k - 1, w, h) + bounds_at(rs, k - 1, w, h).area()
    }
}

proof fn lemma_place_within(reg: UiRegion, o: Offsets, w: u16, h: u16)
    requires
        offsets_fit(o, w, h),
    ensures
        ({
            let bd = place(reg, o, w, h);
            let (t, b, l, r) = o;
            let (t2, b2, l2, r2) = consume(reg, o, w, h);
            &&& t <= bd.row && bd.row + bd.height <= h - b
            &&& l <= bd.col && bd.col + bd.width <= w - r
            &&& offsets_fit(consume(reg, o, w, h), w, h)
            &&& bd.area() + (w - l2 - r2) * (h - t2 - b2) == (w - l - r) * (h - t - b)
        }),
{
    let (t, b, l, r) = o;
    let avail_h = h - t - b;
    let avail_w = w - l - r;
    let bd = place(reg, o, w, h);
    match reg.anchor {
        RegionAnchor::Top | RegionAnchor::Bottom => {
            let hh = bd.height as int;
            assert(avail_w * hh + avail_w * (avail_h - hh) == avail_w * avail_h) by (nonlinear_arith);
        },
        RegionAnchor::Left | RegionAnchor::Right => {
            let ww = bd.width as int;
            assert(ww * avail_h + (avail_w - ww) * avail_h == avail_w * avail_h) by (nonlinear_arith);
        },
    }
}

proof fn lemma_area_accounting(rs: Seq<UiRegion>, k: int, w: u16, h: u16)
    requires
        0 <= k <= rs.len(),
    ensures
        ({
            let (t, b, l, r) = offsets(rs, k, w, h);
            sum_areas(rs, k, w, h) + (w - l - r) * (h - t - b) == w * h
        }),
    decreases k,
{
    lemma_offsets_fit(rs, k, w, h);
    if k > 0 {
        lemma_area_accounting(rs, k - 1, w, h);
        lemma_offsets_fit(rs, k - 1, w, h);
        lemma_place_within(rs[k - 1], offsets(rs, k - 1, w, h), w, h);
    }
}

/// The content area and all the regions together never cover more than the
/// screen: the regions are cut down to the space left by earlier ones, so
/// they never overlap, and with the content area they tile the screen
/// exactly.
pub proof fn law_regions_tile_screen(rs: Seq<UiRegion>, w: u16, h: u16)
    ensures
        content_of(rs, w, h).area() + sum_areas(rs, rs.len() as int, w, h) <= w * h,
        content_of(rs, w, h).area() + sum_areas(rs, rs.len() as int, w, h) == w * h,
{
    lemma_area_accounting(rs, rs.len() as int, w, h);
    lemma_offsets_fit(rs, rs.len() as int, w, h);
}

/// A region never reaches past the screen, however large its size: its
/// extent is cut down to the screen (and to what earlier regions left).
pub proof fn law_region_bounds_saturate(rs: Seq<UiRegion>, k: int, w: u16, h: u16)
    requires
        0 <= k < rs.len(),
    ensures
        bounds_at(rs, k, w, h).row + bounds_at(rs, k, w, h).height <= h,
        bounds_at(rs, k, w, h).col + bounds_at(rs, k, w, h).width <= w,
        rs[k].size >= h ==> (rs[k].anchor == RegionAnchor::Top || rs[k].anchor == RegionAnchor::Bottom)
            ==> bounds_at(rs, k, w, h).height == h - offsets(rs, k, w, h).0 - offsets(rs, k, w, h).1,
        rs[k].size >= w ==> (rs[k].anchor == RegionAnchor::Left || rs[k].anchor == RegionAnchor::Right)
            ==> bounds_at(rs, k, w, h).width == w - offsets(rs, k, w, h).2 - offsets(rs, k, w, h).3,
{
    lemma_offsets_fit(rs, k, w, h);
    lemma_place_within(rs[k], offsets(rs, k, w, h), w, h);
}

// ---------------------------------------------------------------------------
// Extracting a region's text
// ---------------------------------------------------------------------------

/// The text of columns `[c0, c1)` of a line, where columns past the line's
/// end read as spaces, up to `max(line length, screen width)`.
pub open spec fn line_slice(line: Seq<char>, screen_width: u16, c0: int, c1: int) -> Seq<char> {
    let stop = min(c1, if line.len() >= screen_width { line.len() as int } else { screen_width as int });
    Seq::new(if stop > c0 { (stop - c0) as nat } else { 0 }, |k: int| if c0 + k < line.len() { line[c0 + k] } else { ' ' })
}

/// The rows `[b.row, b.row + b.height)` that exist, each cut to the
/// region's columns, joined by newlines.
pub open spec fn region_text(lines: Seq<Seq<char>>, screen_width: u16, b: RegionBounds, n: int) -> Seq<char>
    decreases n,
{
    if n <= 0 {
        Seq::empty()
    } else {
        let r = b.row + n - 1;
        let prev = region_text(lines, screen_width, b, n - 1);
        if r >= lines.len() {
            prev
        } else {
            let piece = line_slice(lines[r], screen_width, b.col as int, b.col + b.width);
            if n == 1 { piece } else { prev + seq!['\n'] + piece }
        }
    }
}

/// The text inside `bounds`, from grid lines: rows past the last line are
/// left out, columns past a line's end read as spaces.
pub fn extract_region(lines: &Vec<Vec<char>>, screen_width: u16, bounds: RegionBounds) -> (r: Vec<char>)
    ensures
        r@ == region_text(lines@.map_values(|l: Vec<char>| l@), screen_width, bounds, bounds.height as int),
{
    let ghost ls = lines@.map_values(|l: Vec<char>| l@);
    let mut out: Vec<char> = Vec::new();
    let mut n: u16 = 0;
    while n < bounds.height
        invariant
            n <= bounds.height,
            ls == lines@.map_values(|l: Vec<char>| l@),
            out@ == region_text(ls, screen_width, bounds, n as int),
        decreases bounds.height - n,
    {
        let r: usize = bounds.row as usize + n as usize;
        if r >= lines.len() {
            proof {
                assert(ls.len() == lines@.len());
                assert forall|m: int| n <= m <= bounds.height implies region_text(ls, screen_width, bounds, m) == region_text(ls, screen_width, bounds, n as int) by {
                    lemma_region_text_stops(ls, screen_width, bounds, n as int, m);
                }
            }
            return out;
        }
        let line = &lines[r];
        if n > 0 {
            out.push('\n');
        }
        let ghost base = out@;
        let c0: usize = bounds.col as usize;
        let c1: usize = bounds.col as usize + bounds.width as usize;
        let limit: usize = if line.len() >= screen_width as usize { line.len() } else { screen_width as usize };
        let stop: usize = if c1 <= limit { c1 } else { limit };
        let count: usize = if stop > c0 { stop - c0 } else { 0 };
        let ghost full = line_slice(line@, screen_width, c0 as int, c1 as int);
        assert(full.len() == count);
        let mut k: usize = 0;
        while k < count
            invariant
                k <= count,
                count == full.len(),
                full == line_slice(line@, screen_width, c0 as int, c1 as int),
                count > 0 ==> c0 + count == stop,
                out@ == base + full.take(k as int),
            decreases count - k,
        {
            let c = c0 + k;
            let ch = if c < line.len() { line[c] } else { ' ' };
            out.push(ch);
            proof {
                assert(full.take(k as int + 1) =~= full.take(k as int).push(ch));
            }
            k += 1;
        }
        proof {
            assert(full.take(count as int) =~= full);
            assert(ls.len() == lines@.len());
            assert(ls[r as int] == line@);
            if n == 0 {
                assert(base =~= Seq::<char>::empty());
                assert(out@ =~= full);
            }
        }
        n += 1;
    }
    out
}

proof fn lemma_region_text_stops(ls: Seq<Seq<char>>, w: u16, b: RegionBounds, n: int, m: int)
    requires
        0 <= n <= m,
        b.row + n >= ls.len(),
    ensures
        region_text(ls, w, b, m) == region_text(ls, w, b, n),
    decreases m - n,
{
    if m > n {
        lemma_region_text_stops(ls, w, b, n, m - 1);
    }
}

} // verus!
