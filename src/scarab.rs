//! The daemon side: configuration, the shared-memory snapshot layout and
//! its accessors, cell attributes, and the error kinds of the daemon
//! harness.

use vstd::prelude::*;

use std::time::Duration;

use crate::theme::{add_unique, ColorScan};
use crate::grid::{find_chars, is_substring, string_from_char_vec, text_chars};

verus! {

/// Default control socket of the daemon.
pub const SCARAB_SOCKET_PATH: &'static str = "/tmp/scarab-daemon.sock";

/// Default shared-memory segment of the daemon.
pub const SCARAB_SHM_PATH: &'static str = "/scarab_shm_v1";

/// Default shared-memory segment for images.
pub const SCARAB_IMAGE_SHM_PATH: &'static str = "/scarab_img_v1";

/// Protocol identification at the start of the snapshot ("SCRA").
pub const SCARAB_MAGIC: u32 = 0x5343_5241;

/// Layout version of the snapshot.
pub const SCARAB_VERSION: u32 = 1;

/// Bytes of the snapshot header.
pub const HEADER_SIZE: usize = 20;

/// Bytes of one cell record.
pub const CELL_SIZE: usize = 16;

/// Environment variable that enables the daemon harness.
pub const SCARAB_ENV_VAR: &'static str = "SCARAB_TEST_RTL";

/// Errors of the daemon harness and its shared-memory reader.
#[derive(Debug, Clone, PartialEq, Eq)]
pub enum IpcError {
    SharedMemoryNotFound(String),
    InvalidData(String),
    SocketNotFound(String),
    ProtocolError(String),
    IoFailed(String),
    Timeout(Duration),
    TestingDisabled,
}

/// Colours and style flags of one cell.
#[derive(Debug, Clone, Copy, PartialEq, Eq, Structural)]
pub struct CellAttributes {
    pub fg: u32,
    pub bg: u32,
    pub flags: u16,
}

impl Default for CellAttributes {
    fn default() -> (r: Self)
        ensures
            r == (CellAttributes { fg: 0, bg: 0, flags: 0 }),
    {
        CellAttributes { fg: 0, bg: 0, flags: 0 }
    }
}

/// A set of style flags.
#[derive(Debug, Clone, Copy, PartialEq, Eq, Structural)]
pub struct CellFlags {
    pub bits: u16,
}

/// The seven style bits; other bits are not flags.
pub const STYLE_MASK: u16 = 0x7F;

impl CellFlags {
    pub fn bold() -> (r: CellFlags)
        ensures
            r.bits == 0x01,
    {
        CellFlags { bits: 0x01 }
    }

    pub fn italic() -> (r: CellFlags)
        ensures
            r.bits == 0x02,
    {
        CellFlags { bits: 0x02 }
    }

    pub fn underline() -> (r: CellFlags)
        ensures
            r.bits == 0x04,
    {
        CellFlags { bits: 0x04 }
    }

    pub fn reverse() -> (r: CellFlags)
        ensures
            r.bits == 0x08,
    {
        CellFlags { bits: 0x08 }
    }

    pub fn strikethrough() -> (r: CellFlags)
        ensures
            r.bits == 0x10,
    {
        CellFlags { bits: 0x10 }
    }

    pub fn dim() -> (r: CellFlags)
        ensures
            r.bits == 0x20,
    {
        CellFlags { bits: 0x20 }
    }

    pub fn blink() -> (r: CellFlags)
        ensures
            r.bits == 0x40,
    {
        CellFlags { bits: 0x40 }
    }

    /// The flags among `bits`, other bits dropped.
    pub fn from_bits_truncate(bits: u16) -> (r: CellFlags)
        ensures
            r.bits == bits & STYLE_MASK,
    {
        CellFlags { bits: bits & STYLE_MASK }
    }

    /// Whether every flag of `other` is set here.
    pub fn contains(&self, other: CellFlags) -> (r: bool)
        ensures
            r == (self.bits & other.bits == other.bits),
    {
        self.bits & other.bits == other.bits
    }

    /// The flags of both sets.
    pub fn union(self, other: CellFlags) -> (r: CellFlags)
        ensures
            r.bits == self.bits | other.bits,
    {
        CellFlags { bits: self.bits | other.bits }
    }
}

impl core::ops::BitOr for CellFlags {
    type Output = CellFlags;

    fn bitor(self, other: CellFlags) -> (r: CellFlags)
        ensures
            r.bits == self.bits | other.bits,
    {
        CellFlags { bits: self.bits | other.bits }
    }
}

impl vstd::std_specs::ops::BitOrSpecImpl for CellFlags {
    open spec fn obeys_bitor_spec() -> bool {
        true
    }

    open spec fn bitor_req(self, rhs: CellFlags) -> bool {
        true
    }

    open spec fn bitor_spec(self, rhs: CellFlags) -> CellFlags {
        CellFlags { bits: self.bits | rhs.bits }
    }
}

// ---------------------------------------------------------------------------
// Configuration
// ---------------------------------------------------------------------------

/// Where the daemon is and how long to wait for it.
#[derive(Debug, Clone)]
pub struct ScarabConfig {
    pub socket_path: String,
    pub shm_path: String,
    pub image_shm_path: Option<String>,
    /// (cols, rows).
    pub dimensions: Option<(u16, u16)>,
    pub connect_timeout: Duration,
    pub default_timeout: Duration,
    /// Texts that mark a shell prompt.
    pub prompt_patterns: Vec<String>,
}

pub open spec fn default_prompts() -> Seq<Seq<char>> {
    seq!["$ "@, "# "@, "> "@]
}

pub open spec fn views_of(v: Seq<String>) -> Seq<Seq<char>> {
    v.map_values(|s: String| s@)
}

impl Default for ScarabConfig {
    /// The daemon's standard paths, 80 x 24, 5 s to connect, 10 s per wait,
    /// and the prompts `$ `, `# `, `> `.
    fn default() -> (r: Self)
        ensures
            r.socket_path@ == SCARAB_SOCKET_PATH@,
            r.shm_path@ == SCARAB_SHM_PATH@,
            r.image_shm_path is Some && r.image_shm_path->0@ == SCARAB_IMAGE_SHM_PATH@,
            r.dimensions == Some((80u16, 24u16)),
            views_of(r.prompt_patterns@) == default_prompts(),
    {
        let mut prompts: Vec<String> = Vec::new();
        prompts.push("$ ".to_string());
        prompts.push("# ".to_string());
        prompts.push("> ".to_string());
        proof {
            assert(views_of(prompts@) =~= default_prompts());
        }
        ScarabConfig {
            socket_path: SCARAB_SOCKET_PATH.to_string(),
            shm_path: SCARAB_SHM_PATH.to_string(),
            image_shm_path: Some(SCARAB_IMAGE_SHM_PATH.to_string()),
            dimensions: Some((80, 24)),
            connect_timeout: Duration::from_secs(5),
            default_timeout: Duration::from_secs(10),
            prompt_patterns: prompts,
        }
    }
}

impl ScarabConfig {
    /// A builder that starts from the defaults.
    pub fn builder() -> (r: ScarabConfigBuilder)
        ensures
            r.config.socket_path@ == SCARAB_SOCKET_PATH@,
            r.config.shm_path@ == SCARAB_SHM_PATH@,
            r.config.image_shm_path is Some && r.config.image_shm_path->0@ == SCARAB_IMAGE_SHM_PATH@,
            r.config.dimensions == Some((80u16, 24u16)),
            views_of(r.config.prompt_patterns@) == default_prompts(),
    {
        ScarabConfigBuilder { config: ScarabConfig::default() }
    }
}

/// Builds a `ScarabConfig` from the defaults.
#[derive(Debug, Clone)]
pub struct ScarabConfigBuilder {
    pub config: ScarabConfig,
}

impl ScarabConfigBuilder {
    pub fn socket_path(self, path: &str) -> (r: Self)
        ensures
            r.config.socket_path@ == path@,
            r.config.shm_path == self.config.shm_path,
            r.config.image_shm_path == self.config.image_shm_path,
            r.config.dimensions == self.config.dimensions,
            r.config.connect_timeout == self.config.connect_timeout,
            r.config.default_timeout == self.config.default_timeout,
            r.config.prompt_patterns == self.config.prompt_patterns,
    {
        let p = path.to_string();
        ScarabConfigBuilder { config: ScarabConfig { socket_path: p, ..self.config } }
    }

    pub fn shm_path(self, path: &str) -> (r: Self)
        ensures
            r.config.shm_path@ == path@,
            r.config.socket_path == self.config.socket_path,
            r.config.image_shm_path == self.config.image_shm_path,
            r.config.dimensions == self.config.dimensions,
            r.config.connect_timeout == self.config.connect_timeout,
            r.config.default_timeout == self.config.default_timeout,
            r.config.prompt_patterns == self.config.prompt_patterns,
    {
        let p = path.to_string();
        ScarabConfigBuilder { config: ScarabConfig { shm_path: p, ..self.config } }
    }

    pub fn image_shm_path(self, path: &str) -> (r: Self)
        ensures
            r.config.image_shm_path is Some && r.config.image_shm_path->0@ == path@,
            r.config.socket_path == self.config.socket_path,
            r.config.shm_path == self.config.shm_path,
            r.config.dimensions == self.config.dimensions,
            r.config.connect_timeout == self.config.connect_timeout,
            r.config.default_timeout == self.config.default_timeout,
            r.config.prompt_patterns == self.config.prompt_patterns,
    {
        let p = path.to_string();
        ScarabConfigBuilder { config: ScarabConfig { image_shm_path: Some(p), ..self.config } }
    }

    pub fn dimensions(self, cols: u16, rows: u16) -> (r: Self)
        ensures
            r.config == (ScarabConfig { dimensions: Some((cols, rows)), ..self.config }),
    {
        ScarabConfigBuilder { config: ScarabConfig { dimensions: Some((cols, rows)), ..self.config } }
    }

    pub fn connect_timeout(self, timeout: Duration) -> (r: Self)
        ensures
            r.config == (ScarabConfig { connect_timeout: timeout, ..self.config }),
    {
        ScarabConfigBuilder { config: ScarabConfig { connect_timeout: timeout, ..self.config } }
    }

    pub fn default_timeout(self, timeout: Duration) -> (r: Self)
        ensures
            r.config == (ScarabConfig { default_timeout: timeout, ..self.config }),
    {
        ScarabConfigBuilder { config: ScarabConfig { default_timeout: timeout, ..self.config } }
    }

    /// Replaces the prompt patterns.
    pub fn prompt_patterns(self, patterns: Vec<String>) -> (r: Self)
        ensures
            r.config == (ScarabConfig { prompt_patterns: patterns, ..self.config }),
    {
        ScarabConfigBuilder { config: ScarabConfig { prompt_patterns: patterns, ..self.config } }
    }

    /// Appends one prompt pattern.
    pub fn add_prompt_pattern(self, pattern: &str) -> (r: Self)
        ensures
            r.config.prompt_patterns@.len() == self.config.prompt_patterns@.len() + 1,
            r.config.prompt_patterns@.drop_last() == self.config.prompt_patterns@,
            r.config.prompt_patterns@.last()@ == pattern@,
            r.config.socket_path == self.config.socket_path,
            r.config.shm_path == self.config.shm_path,
            r.config.image_shm_path == self.config.image_shm_path,
            r.config.dimensions == self.config.dimensions,
            r.config.connect_timeout == self.config.connect_timeout,
            r.config.default_timeout == self.config.default_timeout,
    {
        let mut c = self.config;
        c.prompt_patterns.push(pattern.to_string());
        ScarabConfigBuilder { config: c }
    }

    pub fn build(self) -> (r: ScarabConfig)
        ensures
            r == self.config,
    {
        self.config
    }
}

/// Whether the grid text shows any of the prompt patterns.
pub fn shows_prompt(grid: &Vec<char>, patterns: &Vec<Vec<char>>) -> (r: bool)
    ensures
        r == exists|k: int| 0 <= k < patterns@.len() && is_substring(#[trigger] patterns@[k]@, grid@),
{
    let mut k: usize = 0;
    while k < patterns.len()
        invariant
            k <= patterns@.len(),
            forall|j: int| 0 <= j < k ==> !is_substring(#[trigger] patterns@[j]@, grid@),
        decreases patterns@.len() - k,
    {
        if find_chars(grid, &patterns[k]) {
            return true;
        }
        k += 1;
    }
    false
}

// ---------------------------------------------------------------------------
// The shared-memory snapshot
// ---------------------------------------------------------------------------

/// Whether `i` is a Unicode scalar value.
pub open spec fn is_scalar(i: u32) -> bool {
    i < 0xD800 || (0xE000 <= i && i < 0x11_0000)
}

/// Relies on `char::from_u32`: `Some` of the character with that code
/// exactly when the number is a Unicode scalar value.
pub assume_specification[ core::char::from_u32 ](i: u32) -> (r: Option<char>)
    ensures
        r is Some <==> is_scalar(i),
        r is Some ==> r->0 == i as char,
;

/// The character with code `i`.
pub open spec fn scalar_char(i: u32) -> char {
    i as char
}

/// Little-endian 16-bit number at `o`.
pub open spec fn le16(b: Seq<u8>, o: int) -> int {
    b[o] + 256 * b[o + 1]
}

/// Little-endian 32-bit number at `o`.
pub open spec fn le32(b: Seq<u8>, o: int) -> int {
    b[o] + 256 * b[o + 1] + 65536 * b[o + 2] + 16777216 * b[o + 3]
}

/// The fixed header at the start of the snapshot.
#[derive(Debug, Clone, Copy, PartialEq, Eq, Structural)]
pub struct ShmHeader {
    pub magic: u32,
    pub version: u32,
    pub cols: u16,
    pub rows: u16,
    pub cursor_row: u16,
    pub cursor_col: u16,
    /// Even when stable, odd while the daemon writes.
    pub sequence: u32,
}

/// The header as laid out in the first 20 bytes.
pub open spec fn header_of(b: Seq<u8>) -> ShmHeader {
    ShmHeader {
        magic: le32(b, 0) as u32,
        version: le32(b, 4) as u32,
        cols: le16(b, 8) as u16,
        rows: le16(b, 10) as u16,
        cursor_row: le16(b, 12) as u16,
        cursor_col: le16(b, 14) as u16,
        sequence: le32(b, 16) as u32,
    }
}

/// Where the record of cell (r, c) starts.
pub open spec fn cell_offset(cols: int, r: int, c: int) -> int {
    HEADER_SIZE + CELL_SIZE * (r * cols + c)
}

/// A snapshot is usable when it holds a header with the expected magic
/// and version, and one record per cell.
pub open spec fn snapshot_ok(b: Seq<u8>) -> bool {
    &&& b.len() >= HEADER_SIZE
    &&& header_of(b).magic == SCARAB_MAGIC
    &&& header_of(b).version == SCARAB_VERSION
    &&& b.len() >= HEADER_SIZE + CELL_SIZE * (header_of(b).cols * header_of(b).rows)
}

/// The attributes in the record of cell (r, c).
pub open spec fn attrs_of(b: Seq<u8>, r: int, c: int) -> CellAttributes {
    let o = cell_offset(header_of(b).cols as int, r, c);
    CellAttributes { fg: le32(b, o + 4) as u32, bg: le32(b, o + 8) as u32, flags: le16(b, o + 12) as u16 }
}

/// The code in the record of cell (r, c).
pub open spec fn code_of(b: Seq<u8>, r: int, c: int) -> u32 {
    le32(b, cell_offset(header_of(b).cols as int, r, c)) as u32
}

pub open spec fn in_grid(b: Seq<u8>, r: int, c: int) -> bool {
    0 <= r < header_of(b).rows && 0 <= c < header_of(b).cols
}

/// Row `r` of the snapshot as text, if all its codes are characters.
pub open spec fn row_text(b: Seq<u8>, r: int) -> Seq<char> {
    Seq::new(header_of(b).cols as nat, |c: int| scalar_char(code_of(b, r, c)))
}

/// Whether every cell of the first `n` rows holds a character.
pub open spec fn rows_valid(b: Seq<u8>, n: int) -> bool {
    forall|r: int, c: int| 0 <= r < n && 0 <= c < header_of(b).cols ==> is_scalar(#[trigger] code_of(b, r, c))
}

/// The first `n` rows joined by newlines.
pub open spec fn snapshot_rows(b: Seq<u8>, n: int) -> Seq<char>
    decreases n,
{
    if n <= 0 {
        Seq::empty()
    } else if n == 1 {
        row_text(b, 0)
    } else {
        snapshot_rows(b, n - 1) + seq!['\n'] + row_text(b, n - 1)
    }
}

proof fn lemma_cell_offset(b: Seq<u8>, r: int, c: int)
    requires
        snapshot_ok(b),
        in_grid(b, r, c),
    ensures
        HEADER_SIZE <= cell_offset(header_of(b).cols as int, r, c),
        cell_offset(header_of(b).cols as int, r, c) + CELL_SIZE <= b.len(),
{
    let cols = header_of(b).cols as int;
    let rows = header_of(b).rows as int;
    assert(0 <= r * cols + c) by (nonlinear_arith)
        requires 0 <= r, 0 <= c, 0 <= cols;
    assert(r * cols + c + 1 <= cols * rows) by (nonlinear_arith)
        requires 0 <= r < rows, 0 <= c < cols;
    assert(CELL_SIZE * (r * cols + c) + CELL_SIZE <= CELL_SIZE * (cols * rows)) by (nonlinear_arith)
        requires r * cols + c + 1 <= cols * rows;
}

fn read_le16(b: &Vec<u8>, o: usize) -> (r: u16)
    requires
        o + 2 <= b@.len(),
    ensures
        r as int == le16(b@, o as int),
{
    let _n = b.len();
    b[o] as u16 + 256 * (b[o + 1] as u16)
}

fn read_le32(b: &Vec<u8>, o: usize) -> (r: u32)
    requires
        o + 4 <= b@.len(),
    ensures
        r as int == le32(b@, o as int),
{
    let _n = b.len();
    b[o] as u32 + 256 * (b[o + 1] as u32) + 65536 * (b[o + 2] as u32) + 16777216 * (b[o + 3] as u32)
}

/// A copy of the daemon's shared memory: header and cell records.
#[derive(Debug, Clone)]
pub struct ScarabSharedMemory {
    bytes: Vec<u8>,
    header: ShmHeader,
}

impl View for ScarabSharedMemory {
    type V = Seq<u8>;

    closed spec fn view(&self) -> Seq<u8> {
        self.bytes@
    }
}

impl ScarabSharedMemory {
    pub closed spec fn wf(&self) -> bool {
        snapshot_ok(self.bytes@) && self.header == header_of(self.bytes@)
    }

    fn validate(snapshot: &Vec<u8>) -> (r: Result<ShmHeader, IpcError>)
        ensures
            r is Ok <==> snapshot_ok(snapshot@),
            r is Ok ==> r->Ok_0 == header_of(snapshot@),
            r is Err ==> r->Err_0 is InvalidData,
    {
        if snapshot.len() < HEADER_SIZE {
            return Err(IpcError::InvalidData("shared memory shorter than its header".to_string()));
        }
        let header = ShmHeader {
            magic: read_le32(snapshot, 0),
            version: read_le32(snapshot, 4),
            cols: read_le16(snapshot, 8),
            rows: read_le16(snapshot, 10),
            cursor_row: read_le16(snapshot, 12),
            cursor_col: read_le16(snapshot, 14),
            sequence: read_le32(snapshot, 16),
        };
        if header.magic != SCARAB_MAGIC {
            return Err(IpcError::InvalidData("shared memory magic mismatch".to_string()));
        }
        if header.version != SCARAB_VERSION {
            return Err(IpcError::InvalidData("shared memory version mismatch".to_string()));
        }
        proof {
            assert(header.cols * header.rows <= 0xffff * 0xffff) by (nonlinear_arith)
                requires header.cols <= 0xffff, header.rows <= 0xffff;
        }
        let cells = header.cols as usize * header.rows as usize;
        if (snapshot.len() - HEADER_SIZE) / CELL_SIZE < cells {
            return Err(IpcError::InvalidData("shared memory shorter than its cells".to_string()));
        }
        Ok(header)
    }

    /// Takes a copy of the shared memory, checking the magic number, the
    /// layout version and that every cell record is present.
    pub fn open(snapshot: Vec<u8>) -> (r: Result<ScarabSharedMemory, IpcError>)
        ensures
            r is Ok <==> snapshot_ok(snapshot@),
            r is Ok ==> r->Ok_0@ == snapshot@ && r->Ok_0.wf(),
            r is Err ==> r->Err_0 is InvalidData,
    {
        match Self::validate(&snapshot) {
            Ok(header) => Ok(ScarabSharedMemory { bytes: snapshot, header }),
            Err(e) => Err(e),
        }
    }

    /// Replaces the copy with a newer one, if that one is valid; otherwise
    /// keeps the old copy and reports why.
    pub fn refresh(&mut self, snapshot: Vec<u8>) -> (r: Result<(), IpcError>)
        requires
            old(self).wf(),
        ensures
            final(self).wf(),
            r is Ok <==> snapshot_ok(snapshot@),
            r is Ok ==> final(self)@ == snapshot@,
            r is Err ==> final(self)@ == old(self)@ && r->Err_0 is InvalidData,
    {
        match Self::validate(&snapshot) {
            Ok(header) => {
                self.bytes = snapshot;
                self.header = header;
                Ok(())
            },
            Err(e) => Err(e),
        }
    }

    /// (cols, rows).
    pub fn dimensions(&self) -> (r: (u16, u16))
        requires
            self.wf(),
        ensures
            r == (header_of(self@).cols, header_of(self@).rows),
    {
        (self.header.cols, self.header.rows)
    }

    /// (row, col) of the cursor.
    pub fn cursor_position(&self) -> (r: (u16, u16))
        requires
            self.wf(),
        ensures
            r == (header_of(self@).cursor_row, header_of(self@).cursor_col),
    {
        (self.header.cursor_row, self.header.cursor_col)
    }

    /// The sequence number of this copy.
    pub fn sequence_number(&self) -> (r: u32)
        requires
            self.wf(),
        ensures
            r == header_of(self@).sequence,
    {
        self.header.sequence
    }

    fn offset(&self, row: u16, col: u16) -> (o: usize)
        requires
            self.wf(),
            in_grid(self@, row as int, col as int),
        ensures
            o as int == cell_offset(header_of(self@).cols as int, row as int, col as int),
            o + CELL_SIZE <= self@.len(),
    {
        let _n = self.bytes.len();
        proof {
            lemma_cell_offset(self@, row as int, col as int);
            let cols = self.header.cols as int;
            assert(row * cols + col <= (row * cols + col) * 16) by (nonlinear_arith)
                requires 0 <= row * cols + col;
            assert(0 <= row * cols) by (nonlinear_arith)
                requires 0 <= row, 0 <= cols;
        }
        HEADER_SIZE + CELL_SIZE * (row as usize * self.header.cols as usize + col as usize)
    }

    /// The character of cell (row, col).
    pub fn cell_at(&self, row: u16, col: u16) -> (r: Result<char, IpcError>)
        requires
            self.wf(),
        ensures
            r is Ok <==> in_grid(self@, row as int, col as int) && is_scalar(code_of(self@, row as int, col as int)),
            r is Ok ==> r->Ok_0 == scalar_char(code_of(self@, row as int, col as int)),
            r is Err ==> r->Err_0 is InvalidData,
    {
        if row >= self.header.rows || col >= self.header.cols {
            return Err(IpcError::InvalidData("cell position outside the grid".to_string()));
        }
        let o = self.offset(row, col);
        let code = read_le32(&self.bytes, o);
        match core::char::from_u32(code) {
            Some(c) => Ok(c),
            None => Err(IpcError::InvalidData("cell holds no character".to_string())),
        }
    }

    /// The colours and style flags of cell (row, col).
    pub fn cell_attrs_at(&self, row: u16, col: u16) -> (r: Result<CellAttributes, IpcError>)
        requires
            self.wf(),
        ensures
            r is Ok <==> in_grid(self@, row as int, col as int),
            r is Ok ==> r->Ok_0 == attrs_of(self@, row as int, col as int),
            r is Err ==> r->Err_0 is InvalidData,
    {
        if row >= self.header.rows || col >= self.header.cols {
            return Err(IpcError::InvalidData("cell position outside the grid".to_string()));
        }
        let o = self.offset(row, col);
        let _n = self.bytes.len();
        Ok(CellAttributes {
            fg: read_le32(&self.bytes, o + 4),
            bg: read_le32(&self.bytes, o + 8),
            flags: read_le16(&self.bytes, o + 12),
        })
    }

    /// The attributes of every cell of a row.
    pub fn row_attrs(&self, row: u16) -> (r: Result<Vec<CellAttributes>, IpcError>)
        requires
            self.wf(),
        ensures
            r is Ok <==> row < header_of(self@).rows,
            r is Ok ==> r->Ok_0@.len() == header_of(self@).cols
                && forall|c: int| 0 <= c < header_of(self@).cols ==> r->Ok_0@[c] == attrs_of(self@, row as int, c),
            r is Err ==> r->Err_0 is InvalidData,
    {
        if row >= self.header.rows {
            return Err(IpcError::InvalidData("row outside the grid".to_string()));
        }
        let mut out: Vec<CellAttributes> = Vec::new();
        let mut c: u16 = 0;
        while c < self.header.cols
            invariant
                self.wf(),
                row < header_of(self@).rows,
                c <= header_of(self@).cols,
                out@.len() == c,
                forall|k: int| 0 <= k < c ==> out@[k] == attrs_of(self@, row as int, k),
            decreases header_of(self@).cols - c,
        {
            match self.cell_attrs_at(row, c) {
                Ok(a) => out.push(a),
                Err(_) => {},
            }
            c += 1;
        }
        Ok(out)
    }

    fn grid_chars(&self) -> (r: Result<Vec<char>, IpcError>)
        requires
            self.wf(),
        ensures
            r is Ok <==> rows_valid(self@, header_of(self@).rows as int),
            r is Ok ==> r->Ok_0@ == snapshot_rows(self@, header_of(self@).rows as int),
            r is Err ==> r->Err_0 is InvalidData,
    {
        let rows = self.header.rows;
        let cols = self.header.cols;
        let mut out: Vec<char> = Vec::new();
        let mut r: u16 = 0;
        while r < rows
            invariant
                self.wf(),
                rows == header_of(self@).rows,
                cols == header_of(self@).cols,
                r <= rows,
                rows_valid(self@, r as int),
                out@ == snapshot_rows(self@, r as int),
            decreases rows - r,
        {
            if r > 0 {
                out.push('\n');
            }
            let ghost base = out@;
            let mut c: u16 = 0;
            while c < cols
                invariant
                    self.wf(),
                    rows == header_of(self@).rows,
                    cols == header_of(self@).cols,
                    r < rows,
                    c <= cols,
                    rows_valid(self@, r as int),
                    forall|k: int| 0 <= k < c ==> is_scalar(#[trigger] code_of(self@, r as int, k)),
                    out@ == base + row_text(self@, r as int).take(c as int),
                decreases cols - c,
            {
                match self.cell_at(r, c) {
                    Ok(ch) => {
                        proof {
                            assert(row_text(self@, r as int).take(c as int + 1) =~= row_text(self@, r as int).take(c as int).push(ch));
                        }
                        out.push(ch);
                    },
                    Err(e) => {
                        return Err(e);
                    },
                }
                c += 1;
            }
            proof {
                assert(row_text(self@, r as int).take(cols as int) =~= row_text(self@, r as int));
                if r == 0 {
                    assert(base =~= Seq::<char>::empty());
                    assert(out@ =~= row_text(self@, 0));
                }
                assert forall|i: int, k: int| 0 <= i < r + 1 && 0 <= k < cols implies is_scalar(#[trigger] code_of(self@, i, k)) by {
                    if i < r {
                    }
                }
            }
            r += 1;
        }
        Ok(out)
    }

    /// The grid as text: each row `cols` characters, rows joined by
    /// newlines; `InvalidData` when some cell holds no character.
    pub fn grid_contents(&self) -> (r: Result<String, IpcError>)
        requires
            self.wf(),
        ensures
            r is Ok <==> rows_valid(self@, header_of(self@).rows as int),
            r is Ok ==> r->Ok_0@ == snapshot_rows(self@, header_of(self@).rows as int),
            r is Err ==> r->Err_0 is InvalidData,
    {
        match self.grid_chars() {
            Ok(v) => Ok(string_from_char_vec(&v)),
            Err(e) => Err(e),
        }
    }

    /// Whether `text` occurs in the grid text.
    pub fn contains(&self, text: &str) -> (r: Result<bool, IpcError>)
        requires
            self.wf(),
        ensures
            r is Ok <==> rows_valid(self@, header_of(self@).rows as int),
            r is Ok ==> r->Ok_0 == is_substring(text@, snapshot_rows(self@, header_of(self@).rows as int)),
            r is Err ==> r->Err_0 is InvalidData,
    {
        match self.grid_chars() {
            Ok(v) => {
                let needle = text_chars(text);
                Ok(find_chars(&v, &needle))
            },
            Err(e) => Err(e),
        }
    }
}

// ---------------------------------------------------------------------------
// Colour scans
// ---------------------------------------------------------------------------

/// How many of the positions `lo..=hi` lie below `dim`.
pub open spec fn span(lo: u16, hi: u16, dim: u16) -> int {
    let top = if hi < dim { hi as int } else { dim - 1 };
    if top < lo { 0 } else { top - lo + 1 }
}

pub open spec fn no_dups(s: Seq<u32>) -> bool {
    forall|i: int, j: int| 0 <= i < j < s.len() ==> s[i] != s[j]
}

/// Whether (r, c) is a cell of the grid inside the rectangle.
pub open spec fn in_rect(b: Seq<u8>, r0: u16, c0: u16, r1: u16, c1: u16, r: int, c: int) -> bool {
    r0 <= r <= r1 && c0 <= c <= c1 && in_grid(b, r, c)
}

/// Whether (r, c) comes before (row, col) in a row-major walk of the rectangle.
pub open spec fn visited(r0: u16, c0: u16, top_c: int, row: int, col: int, r: int, c: int) -> bool {
    (r0 <= r < row && c0 <= c <= top_c) || (r == row && c0 <= c < col)
}

/// The foreground (or background) colour of cell (r, c).
pub open spec fn color_at(b: Seq<u8>, r: int, c: int, fg: bool) -> u32 {
    if fg { attrs_of(b, r, c).fg } else { attrs_of(b, r, c).bg }
}

/// Whether colour `x` was met before (row, col) in the walk.
pub open spec fn seen_color(b: Seq<u8>, r0: u16, c0: u16, top_c: int, row: int, col: int, x: u32, fg: bool) -> bool {
    exists|i: int, k: int| visited(r0, c0, top_c, row, col, i, k) && #[trigger] color_at(b, i, k, fg) == x
}

proof fn lemma_add_unique(s: Seq<u32>, x: u32)
    requires
        no_dups(s),
    ensures
        no_dups(add_unique(s, x)),
        forall|y: u32| add_unique(s, x).contains(y) <==> (s.contains(y) || y == x),
{
    if !s.contains(x) {
        let t = s.push(x);
        assert forall|y: u32| t.contains(y) <==> (s.contains(y) || y == x) by {
            if t.contains(y) {
                let k = choose|k: int| 0 <= k < t.len() && t[k] == y;
                if k < s.len() {
                    assert(s[k] == y);
                }
            }
            if s.contains(y) {
                let k = choose|k: int| 0 <= k < s.len() && s[k] == y;
                assert(t[k] == y);
            }
            if y == x {
                assert(t[s.len() as int] == y);
            }
        }
    }
}

proof fn lemma_visit_cell(b: Seq<u8>, r0: u16, c0: u16, top_c: int, row: int, col: int, fg: bool)
    requires
        r0 <= row,
        c0 <= col <= top_c,
    ensures
        forall|x: u32| seen_color(b, r0, c0, top_c, row, col + 1, x, fg)
            <==> (seen_color(b, r0, c0, top_c, row, col, x, fg) || x == color_at(b, row, col, fg)),
{
    assert forall|x: u32| seen_color(b, r0, c0, top_c, row, col + 1, x, fg)
        <==> (seen_color(b, r0, c0, top_c, row, col, x, fg) || x == color_at(b, row, col, fg)) by {
        if seen_color(b, r0, c0, top_c, row, col + 1, x, fg) {
            let (i, k) = choose|i: int, k: int| visited(r0, c0, top_c, row, col + 1, i, k) && #[trigger] color_at(b, i, k, fg) == x;
            if !(i == row && k == col) {
                assert(visited(r0, c0, top_c, row, col, i, k));
            }
        }
        if seen_color(b, r0, c0, top_c, row, col, x, fg) {
            let (i, k) = choose|i: int, k: int| visited(r0, c0, top_c, row, col, i, k) && #[trigger] color_at(b, i, k, fg) == x;
            assert(visited(r0, c0, top_c, row, col + 1, i, k));
        }
        if x == color_at(b, row, col, fg) {
            assert(visited(r0, c0, top_c, row, col + 1, row, col));
        }
    }
}

proof fn lemma_next_row(b: Seq<u8>, r0: u16, c0: u16, top_c: int, row: int, end: int, next: int, fg: bool)
    requires
        r0 <= row,
        end == top_c + 1,
        next == row + 1,
    ensures
        forall|x: u32| #[trigger] seen_color(b, r0, c0, top_c, row, end, x, fg)
            <==> seen_color(b, r0, c0, top_c, next, c0 as int, x, fg),
{
    assert forall|x: u32| #[trigger] seen_color(b, r0, c0, top_c, row, end, x, fg)
        <==> seen_color(b, r0, c0, top_c, next, c0 as int, x, fg) by {
        if seen_color(b, r0, c0, top_c, row, end, x, fg) {
            let (i, k) = choose|i: int, k: int| visited(r0, c0, top_c, row, end, i, k) && #[trigger] color_at(b, i, k, fg) == x;
            assert(visited(r0, c0, top_c, next, c0 as int, i, k));
        }
        if seen_color(b, r0, c0, top_c, next, c0 as int, x, fg) {
            let (i, k) = choose|i: int, k: int| visited(r0, c0, top_c, next, c0 as int, i, k) && #[trigger] color_at(b, i, k, fg) == x;
            assert(visited(r0, c0, top_c, row, end, i, k));
        }
    }
}

proof fn lemma_walk_done(b: Seq<u8>, r0: u16, c0: u16, r1: u16, c1: u16, top_r: int, top_c: int, end: int, fg: bool)
    requires
        top_r == (if r1 < header_of(b).rows { r1 as int } else { header_of(b).rows - 1 }),
        top_c == (if c1 < header_of(b).cols { c1 as int } else { header_of(b).cols - 1 }),
        end == top_r + 1,
    ensures
        forall|x: u32| #[trigger] seen_color(b, r0, c0, top_c, end, c0 as int, x, fg)
            <==> exists|r: int, c: int| in_rect(b, r0, c0, r1, c1, r, c) && #[trigger] color_at(b, r, c, fg) == x,
{
    assert forall|x: u32| #[trigger] seen_color(b, r0, c0, top_c, end, c0 as int, x, fg)
        <==> exists|r: int, c: int| in_rect(b, r0, c0, r1, c1, r, c) && #[trigger] color_at(b, r, c, fg) == x by {
        if seen_color(b, r0, c0, top_c, end, c0 as int, x, fg) {
            let (i, k) = choose|i: int, k: int| visited(r0, c0, top_c, end, c0 as int, i, k) && #[trigger] color_at(b, i, k, fg) == x;
            assert(in_rect(b, r0, c0, r1, c1, i, k));
        }
        if exists|r: int, c: int| in_rect(b, r0, c0, r1, c1, r, c) && #[trigger] color_at(b, r, c, fg) == x {
            let (i, k) = choose|r: int, c: int| in_rect(b, r0, c0, r1, c1, r, c) && #[trigger] color_at(b, r, c, fg) == x;
            assert(visited(r0, c0, top_c, end, c0 as int, i, k));
        }
    }
}

impl ScarabSharedMemory {
    /// The distinct foreground and background colours of the grid cells in
    /// rows `r0..=r1` and columns `c0..=c1` (cells off the grid are
    /// skipped), each listed once, and how many cells were read.
    pub fn scan_colors_in_region(&self, r0: u16, c0: u16, r1: u16, c1: u16) -> (s: ColorScan)
        requires
            self.wf(),
        ensures
            no_dups(s.foreground_colors@),
            no_dups(s.background_colors@),
            forall|x: u32| s.foreground_colors@.contains(x) <==> exists|r: int, c: int|
                in_rect(self@, r0, c0, r1, c1, r, c) && #[trigger] color_at(self@, r, c, true) == x,
            forall|x: u32| s.background_colors@.contains(x) <==> exists|r: int, c: int|
                in_rect(self@, r0, c0, r1, c1, r, c) && #[trigger] color_at(self@, r, c, false) == x,
            s.cells_scanned == span(r0, r1, header_of(self@).rows) * span(c0, c1, header_of(self@).cols),
    {
        let rows = self.header.rows;
        let cols = self.header.cols;
        let mut scan = ColorScan::new();
        if rows == 0 || cols == 0 || r0 >= rows || c0 >= cols || r1 < r0 || c1 < c0 {
            proof {
                assert(span(r0, r1, rows) == 0 || span(c0, c1, cols) == 0);
                assert(0 * span(c0, c1, cols) == 0);
                assert(span(r0, r1, rows) * 0 == 0);
            }
            return scan;
        }
        let top_r: u16 = if r1 < rows { r1 } else { rows - 1 };
        let top_c: u16 = if c1 < cols { c1 } else { cols - 1 };
        let width: usize = (top_c - c0) as usize + 1;
        let ghost b = self@;
        let mut count: usize = 0;
        let mut r: u16 = r0;
        while r <= top_r
            invariant
                self.wf(),
                b == self@,
                rows == header_of(b).rows,
                cols == header_of(b).cols,
                r0 <= r <= top_r + 1,
                top_r < rows,
                c0 <= top_c < cols,
                width == top_c - c0 + 1,
                count == (r - r0) * width,
                no_dups(scan.foreground_colors@),
                no_dups(scan.background_colors@),
                forall|x: u32| scan.foreground_colors@.contains(x) <==> seen_color(b, r0, c0, top_c as int, r as int, c0 as int, x, true),
                forall|x: u32| scan.background_colors@.contains(x) <==> seen_color(b, r0, c0, top_c as int, r as int, c0 as int, x, false),
            decreases top_r + 1 - r,
        {
            let mut c: u16 = c0;
            while c <= top_c
                invariant
                    self.wf(),
                    b == self@,
                    rows == header_of(b).rows,
                    cols == header_of(b).cols,
                    r0 <= r <= top_r,
                    top_r < rows,
                    c0 <= c <= top_c + 1,
                    top_c < cols,
                    width == top_c - c0 + 1,
                    count == (r - r0) * width + (c - c0),
                    no_dups(scan.foreground_colors@),
                    no_dups(scan.background_colors@),
                    forall|x: u32| scan.foreground_colors@.contains(x) <==> seen_color(b, r0, c0, top_c as int, r as int, c as int, x, true),
                    forall|x: u32| scan.background_colors@.contains(x) <==> seen_color(b, r0, c0, top_c as int, r as int, c as int, x, false),
                decreases top_c + 1 - c,
            {
                let a = match self.cell_attrs_at(r, c) {
                    Ok(a) => a,
                    Err(_) => CellAttributes { fg: 0, bg: 0, flags: 0 },
                };
                let ghost fg0 = scan.foreground_colors@;
                let ghost bg0 = scan.background_colors@;
                scan.add_foreground(a.fg);
                scan.add_background(a.bg);
                proof {
                    lemma_add_unique(fg0, a.fg);
                    lemma_add_unique(bg0, a.bg);
                    lemma_visit_cell(b, r0, c0, top_c as int, r as int, c as int, true);
                    lemma_visit_cell(b, r0, c0, top_c as int, r as int, c as int, false);
                    assert(a == attrs_of(b, r as int, c as int));
                    assert(color_at(b, r as int, c as int, true) == a.fg);
                    assert(color_at(b, r as int, c as int, false) == a.bg);
                    assert forall|x: u32| scan.foreground_colors@.contains(x) <==> seen_color(b, r0, c0, top_c as int, r as int, c + 1, x, true) by {
                        assert(scan.foreground_colors@.contains(x) <==> (fg0.contains(x) || x == a.fg));
                        assert(fg0.contains(x) <==> seen_color(b, r0, c0, top_c as int, r as int, c as int, x, true));
                    }
                    assert forall|x: u32| scan.background_colors@.contains(x) <==> seen_color(b, r0, c0, top_c as int, r as int, c + 1, x, false) by {
                        assert(scan.background_colors@.contains(x) <==> (bg0.contains(x) || x == a.bg));
                        assert(bg0.contains(x) <==> seen_color(b, r0, c0, top_c as int, r as int, c as int, x, false));
                    }
                    assert((r - r0) * width + (c - c0) + 1 <= 0xffff * 0xffff) by (nonlinear_arith)
                        requires r - r0 < 0xffff, width <= 0xffff, c - c0 < width, r0 <= r;
                }
                count = count + 1;
                c = c + 1;
            }
            proof {
                let ri = r as int;
                assert((ri + 1 - r0) * width == (ri - r0) * width + width) by (nonlinear_arith);
                lemma_next_row(b, r0, c0, top_c as int, ri, top_c + 1, ri + 1, true);
                lemma_next_row(b, r0, c0, top_c as int, ri, top_c + 1, ri + 1, false);
            }
            r = r + 1;
        }
        scan.cells_scanned = count;
        proof {
            lemma_walk_done(b, r0, c0, r1, c1, top_r as int, top_c as int, top_r + 1, true);
            lemma_walk_done(b, r0, c0, r1, c1, top_r as int, top_c as int, top_r + 1, false);
            assert(span(r0, r1, rows) == top_r - r0 + 1);
            assert(span(c0, c1, cols) == width);
        }
        scan
    }
}

// ---------------------------------------------------------------------------
// Control socket framing
// ---------------------------------------------------------------------------

/// Tag byte of an input request.
pub const TAG_INPUT: u8 = 1;

/// Tag byte of a resize request.
pub const TAG_RESIZE: u8 = 2;

/// Tag byte of a refresh request.
pub const TAG_REFRESH: u8 = 3;

/// A request to the daemon's control socket.
#[derive(Debug, Clone, PartialEq, Eq)]
pub enum ControlRequest {
    /// Bytes to deliver as keyboard input.
    Input(Vec<u8>),
    /// New terminal size.
    Resize { cols: u16, rows: u16 },
    /// Ask the daemon to republish its snapshot.
    Refresh,
}

/// Little-endian bytes of a 16-bit number.
pub open spec fn le16_bytes(x: u16) -> Seq<u8> {
    seq![(x % 256) as u8, (x / 256) as u8]
}

/// Little-endian bytes of a 32-bit number.
pub open spec fn le32_bytes(x: u32) -> Seq<u8> {
    seq![(x % 256) as u8, ((x / 256) % 256) as u8, ((x / 65536) % 256) as u8, (x / 16777216) as u8]
}

/// The tagged payload of a request.
pub open spec fn payload_of(r: ControlRequest) -> Seq<u8> {
    match r {
        ControlRequest::Input(b) => seq![TAG_INPUT] + b@,
        ControlRequest::Resize { cols, rows } => seq![TAG_RESIZE] + le16_bytes(cols) + le16_bytes(rows),
        ControlRequest::Refresh => seq![TAG_REFRESH],
    }
}

/// A frame: the payload's length as 4 little-endian bytes, then the payload.
pub open spec fn frame_of(r: ControlRequest) -> Seq<u8> {
    le32_bytes(payload_of(r).len() as u32) + payload_of(r)
}

fn push_le16(out: &mut Vec<u8>, x: u16)
    ensures
        final(out)@ == old(out)@ + le16_bytes(x),
{
    out.push((x % 256) as u8);
    out.push((x / 256) as u8);
    proof {
        assert(final(out)@ =~= old(out)@ + le16_bytes(x));
    }
}

impl ControlRequest {
    /// The request as one frame on the socket.
    pub fn encode(&self) -> (r: Result<Vec<u8>, IpcError>)
        ensures
            r is Ok <==> payload_of(*self).len() <= u32::MAX,
            r is Ok ==> r->Ok_0@ == frame_of(*self),
            r is Err ==> r->Err_0 is ProtocolError,
    {
        let mut payload: Vec<u8> = Vec::new();
        match self {
            ControlRequest::Input(b) => {
                payload.push(TAG_INPUT);
                let mut k: usize = 0;
                while k < b.len()
                    invariant
                        k <= b@.len(),
                        payload@ == seq![TAG_INPUT] + b@.take(k as int),
                    decreases b@.len() - k,
                {
                    payload.push(b[k]);
                    proof {
                        assert(b@.take(k as int + 1) =~= b@.take(k as int).push(b@[k as int]));
                        assert(payload@ =~= seq![TAG_INPUT] + b@.take(k as int + 1));
                    }
                    k += 1;
                }
                proof {
                    assert(b@.take(k as int) =~= b@);
                }
            },
            ControlRequest::Resize { cols, rows } => {
                payload.push(TAG_RESIZE);
                push_le16(&mut payload, *cols);
                push_le16(&mut payload, *rows);
                proof {
                    assert(payload@ =~= seq![TAG_RESIZE] + le16_bytes(*cols) + le16_bytes(*rows));
                }
            },
            ControlRequest::Refresh => {
                payload.push(TAG_REFRESH);
                proof {
                    assert(payload@ =~= seq![TAG_REFRESH]);
                }
            },
        }
        if payload.len() > 0xffff_ffff {
            return Err(IpcError::ProtocolError("request too large".to_string()));
        }
        let n = payload.len() as u32;
        let mut out: Vec<u8> = Vec::new();
        out.push((n % 256) as u8);
        out.push(((n / 256) % 256) as u8);
        out.push(((n / 65536) % 256) as u8);
        out.push((n / 16777216) as u8);
        let ghost head = out@;
        proof {
            assert(head =~= le32_bytes(n));
        }
        let mut k: usize = 0;
        while k < payload.len()
            invariant
                k <= payload@.len(),
                out@ == head + payload@.take(k as int),
            decreases payload@.len() - k,
        {
            out.push(payload[k]);
            proof {
                assert(payload@.take(k as int + 1) =~= payload@.take(k as int).push(payload@[k as int]));
            }
            k += 1;
        }
        proof {
            assert(payload@.take(k as int) =~= payload@);
        }
        Ok(out)
    }
}

/// How a response frame is read: a length, then a status byte (0 ok, 1
/// error) and a diagnostic. `Ok` for status 0; `ProtocolError` for a short
/// or inconsistent frame, an unknown status, or status 1.
pub open spec fn response_ok(b: Seq<u8>) -> bool {
    &&& b.len() >= 5
    &&& le32(b, 0) == b.len() - 4
    &&& b[4] == 0
}

/// Checks a response frame from the control socket.
pub fn decode_response(frame: &[u8]) -> (r: Result<(), IpcError>)
    ensures
        r is Ok <==> response_ok(frame@),
        r is Err ==> r->Err_0 is ProtocolError,
{
    let n = frame.len();
    if n < 5 {
        return Err(IpcError::ProtocolError("response frame too short".to_string()));
    }
    let len = frame[0] as u64 + 256 * (frame[1] as u64) + 65536 * (frame[2] as u64) + 16777216 * (frame[3] as u64);
    if len != (n - 4) as u64 {
        return Err(IpcError::ProtocolError("response length mismatch".to_string()));
    }
    if frame[4] == 0 {
        Ok(())
    } else if frame[4] == 1 {
        Err(IpcError::ProtocolError("daemon reported an error".to_string()))
    } else {
        Err(IpcError::ProtocolError("unknown response status".to_string()))
    }
}

} // verus!
