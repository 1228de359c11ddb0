//! ANSI colour palettes and colour comparisons.

use vstd::prelude::*;

verus! {

/// The sixteen ANSI colours, in index order.
#[derive(Debug, Clone, Copy, PartialEq, Eq, Structural, Hash)]
pub enum AnsiColor {
    Black,
    Red,
    Green,
    Yellow,
    Blue,
    Magenta,
    Cyan,
    White,
    BrightBlack,
    BrightRed,
    BrightGreen,
    BrightYellow,
    BrightBlue,
    BrightMagenta,
    BrightCyan,
    BrightWhite,
}

impl AnsiColor {
    /// The colour's ANSI index, 0 to 15.
    pub open spec fn spec_index(self) -> u8 {
        match self {
            AnsiColor::Black => 0,
            AnsiColor::Red => 1,
            AnsiColor::Green => 2,
            AnsiColor::Yellow => 3,
            AnsiColor::Blue => 4,
            AnsiColor::Magenta => 5,
            AnsiColor::Cyan => 6,
            AnsiColor::White => 7,
            AnsiColor::BrightBlack => 8,
            AnsiColor::BrightRed => 9,
            AnsiColor::BrightGreen => 10,
            AnsiColor::BrightYellow => 11,
            AnsiColor::BrightBlue => 12,
            AnsiColor::BrightMagenta => 13,
            AnsiColor::BrightCyan => 14,
            AnsiColor::BrightWhite => 15,
        }
    }

    pub fn as_index(self) -> (r: u8)
        ensures
            r == self.spec_index(),
            r < 16,
    {
        match self {
            AnsiColor::Black => 0,
            AnsiColor::Red => 1,
            AnsiColor::Green => 2,
            AnsiColor::Yellow => 3,
            AnsiColor::Blue => 4,
            AnsiColor::Magenta => 5,
            AnsiColor::Cyan => 6,
            AnsiColor::White => 7,
            AnsiColor::BrightBlack => 8,
            AnsiColor::BrightRed => 9,
            AnsiColor::BrightGreen => 10,
            AnsiColor::BrightYellow => 11,
            AnsiColor::BrightBlue => 12,
            AnsiColor::BrightMagenta => 13,
            AnsiColor::BrightCyan => 14,
            AnsiColor::BrightWhite => 15,
        }
    }

    /// The colour with this index, or `None` from 16 on.
    pub fn from_index(index: u8) -> (r: Option<AnsiColor>)
        ensures
            index < 16 ==> r is Some && r->0.spec_index() == index,
            index >= 16 ==> r is None,
    {
        match index {
            0 => Some(AnsiColor::Black),
            1 => Some(AnsiColor::Red),
            2 => Some(AnsiColor::Green),
            3 => Some(AnsiColor::Yellow),
            4 => Some(AnsiColor::Blue),
            5 => Some(AnsiColor::Magenta),
            6 => Some(AnsiColor::Cyan),
            7 => Some(AnsiColor::White),
            8 => Some(AnsiColor::BrightBlack),
            9 => Some(AnsiColor::BrightRed),
            10 => Some(AnsiColor::BrightGreen),
            11 => Some(AnsiColor::BrightYellow),
            12 => Some(AnsiColor::BrightBlue),
            13 => Some(AnsiColor::BrightMagenta),
            14 => Some(AnsiColor::BrightCyan),
            15 => Some(AnsiColor::BrightWhite),
            _ => None,
        }
    }
}

/// A colour with only its red, green and blue bytes (alpha cleared).
pub open spec fn rgb_of(c: u32) -> u32 {
    c & 0xFFFF_FF00
}

/// Channel `k` of an RGBA colour: 3 red, 2 green, 1 blue, 0 alpha.
pub open spec fn channel(c: u32, k: u32) -> int {
    ((c >> (8 * k)) & 0xFF) as int
}

pub open spec fn abs_diff(a: int, b: int) -> int {
    if a >= b { a - b } else { b - a }
}

/// Whether the red, green and blue channels each differ by at most `tol`.
pub open spec fn close_rgb(a: u32, b: u32, tol: u8) -> bool {
    &&& abs_diff(channel(a, 3), channel(b, 3)) <= tol
    &&& abs_diff(channel(a, 2), channel(b, 2)) <= tol
    &&& abs_diff(channel(a, 1), channel(b, 1)) <= tol
}

/// A named palette: sixteen RGBA colours indexed by ANSI colour, and four
/// special colours.
#[derive(Debug, Clone, PartialEq, Eq)]
pub struct ColorPalette {
    pub name: String,
    pub colors: [u32; 16],
    pub background: u32,
    pub foreground: u32,
    pub cursor: u32,
    pub selection: u32,
}

impl ColorPalette {
    /// A palette with every ANSI colour 0x000000FF, black background,
    /// white foreground and cursor, dark grey selection.
    pub fn new(name: &str) -> (r: Self)
        ensures
            r.name@ == name@,
            forall|k: int| 0 <= k < 16 ==> r.colors@[k] == 0xFFu32,
            r.background == 0x000000FFu32,
            r.foreground == 0xFFFFFFFFu32,
            r.cursor == 0xFFFFFFFFu32,
            r.selection == 0x444444FFu32,
    {
        ColorPalette {
            name: name.to_string(),
            colors: [0xFF; 16],
            background: 0x000000FF,
            foreground: 0xFFFFFFFF,
            cursor: 0xFFFFFFFF,
            selection: 0x444444FF,
        }
    }

    /// The `slime` palette.
    pub fn slime() -> (r: Self)
        ensures
            r.name@ == "slime"@,
            r.colors@ == seq![0x0D1117FFu32, 0xFF6B6BFFu32, 0x4ECDC4FFu32, 0xF7DC6FFFu32, 0x5DADE2FFu32, 0xC39BD3FFu32, 0x48C9B0FFu32, 0xECF0F1FFu32, 0x34495EFFu32, 0xFF7979FFu32, 0x52FFB8FFu32, 0xFFEB3BFFu32, 0x74B9FFFFu32, 0xE1BEE7FFu32, 0x76FF03FFu32, 0xFFFFFFFFu32],
            r.background == 0x0D1117FFu32,
            r.foreground == 0xECF0F1FFu32,
            r.cursor == 0x52FFB8FFu32,
            r.selection == 0x264F78FFu32,
    {
        ColorPalette {
            name: "slime".to_string(),
            colors: [
                0x0D1117FF,
                0xFF6B6BFF,
                0x4ECDC4FF,
                0xF7DC6FFF,
                0x5DADE2FF,
                0xC39BD3FF,
                0x48C9B0FF,
                0xECF0F1FF,
                0x34495EFF,
                0xFF7979FF,
                0x52FFB8FF,
                0xFFEB3BFF,
                0x74B9FFFF,
                0xE1BEE7FF,
                0x76FF03FF,
                0xFFFFFFFF,
            ],
            background: 0x0D1117FF,
            foreground: 0xECF0F1FF,
            cursor: 0x52FFB8FF,
            selection: 0x264F78FF,
        }
    }

    /// The `dracula` palette.
    pub fn dracula() -> (r: Self)
        ensures
            r.name@ == "dracula"@,
            r.colors@ == seq![0x282A36FFu32, 0xFF5555FFu32, 0x50FA7BFFu32, 0xF1FA8CFFu32, 0xBD93F9FFu32, 0xFF79C6FFu32, 0x8BE9FDFFu32, 0xF8F8F2FFu32, 0x6272A4FFu32, 0xFF6E6EFFu32, 0x69FF94FFu32, 0xFFFFA5FFu32, 0xD6ACFFFFu32, 0xFF92DFFFu32, 0xA4FFFFEFu32, 0xFFFFFFFFu32],
            r.background == 0x282A36FFu32,
            r.foreground == 0xF8F8F2FFu32,
            r.cursor == 0xF8F8F2FFu32,
            r.selection == 0x44475AFFu32,
    {
        ColorPalette {
            name: "dracula".to_string(),
            colors: [
                0x282A36FF,
                0xFF5555FF,
                0x50FA7BFF,
                0xF1FA8CFF,
                0xBD93F9FF,
                0xFF79C6FF,
                0x8BE9FDFF,
                0xF8F8F2FF,
                0x6272A4FF,
                0xFF6E6EFF,
                0x69FF94FF,
                0xFFFFA5FF,
                0xD6ACFFFF,
                0xFF92DFFF,
                0xA4FFFFEF,
                0xFFFFFFFF,
            ],
            background: 0x282A36FF,
            foreground: 0xF8F8F2FF,
            cursor: 0xF8F8F2FF,
            selection: 0x44475AFF,
        }
    }

    /// The `nord` palette.
    pub fn nord() -> (r: Self)
        ensures
            r.name@ == "nord"@,
            r.colors@ == seq![0x3B4252FFu32, 0xBF616AFFu32, 0xA3BE8CFFu32, 0xEBCB8BFFu32, 0x81A1C1FFu32, 0xB48EADFFu32, 0x88C0D0FFu32, 0xE5E9F0FFu32, 0x4C566AFFu32, 0xD08770FFu32, 0x8FBCBBFFu32, 0xEBCB8BFFu32, 0x5E81ACFFu32, 0xB48EADFFu32, 0x8FBCBBFFu32, 0xECEFF4FFu32],
            r.background == 0x2E3440FFu32,
            r.foreground == 0xD8DEE9FFu32,
            r.cursor == 0xD8DEE9FFu32,
            r.selection == 0x434C5EFFu32,
    {
        ColorPalette {
            name: "nord".to_string(),
            colors: [
                0x3B4252FF,
                0xBF616AFF,
                0xA3BE8CFF,
                0xEBCB8BFF,
                0x81A1C1FF,
                0xB48EADFF,
                0x88C0D0FF,
                0xE5E9F0FF,
                0x4C566AFF,
                0xD08770FF,
                0x8FBCBBFF,
                0xEBCB8BFF,
                0x5E81ACFF,
                0xB48EADFF,
                0x8FBCBBFF,
                0xECEFF4FF,
            ],
            background: 0x2E3440FF,
            foreground: 0xD8DEE9FF,
            cursor: 0xD8DEE9FF,
            selection: 0x434C5EFF,
        }
    }

    /// The `monokai` palette.
    pub fn monokai() -> (r: Self)
        ensures
            r.name@ == "monokai"@,
            r.colors@ == seq![0x272822FFu32, 0xF92672FFu32, 0xA6E22EFFu32, 0xF4BF75FFu32, 0x66D9EFFFu32, 0xAE81FFFFu32, 0x66D9EFFFu32, 0xF8F8F2FFu32, 0x75715EFFu32, 0xFF6188FFu32, 0xA9DC76FFu32, 0xFFD866FFu32, 0x78DCE8FFu32, 0xAB9DF2FFu32, 0x78DCE8FFu32, 0xFCFCFAFFu32],
            r.background == 0x272822FFu32,
            r.foreground == 0xF8F8F2FFu32,
            r.cursor == 0xF8F8F0FFu32,
            r.selection == 0x49483EFFu32,
    {
        ColorPalette {
            name: "monokai".to_string(),
            colors: [
                0x272822FF,
                0xF92672FF,
                0xA6E22EFF,
                0xF4BF75FF,
                0x66D9EFFF,
                0xAE81FFFF,
                0x66D9EFFF,
                0xF8F8F2FF,
                0x75715EFF,
                0xFF6188FF,
                0xA9DC76FF,
                0xFFD866FF,
                0x78DCE8FF,
                0xAB9DF2FF,
                0x78DCE8FF,
                0xFCFCFAFF,
            ],
            background: 0x272822FF,
            foreground: 0xF8F8F2FF,
            cursor: 0xF8F8F0FF,
            selection: 0x49483EFF,
        }
    }

    /// The RGBA value of an ANSI colour in this palette.
    pub fn ansi_color(&self, color: AnsiColor) -> (r: u32)
        ensures
            r == self.colors@[color.spec_index() as int],
    {
        self.colors[color.as_index() as usize]
    }

    /// Whether `rgba` has the palette colour's red, green and blue (alpha ignored).
    pub fn matches_ansi(&self, rgba: u32, color: AnsiColor) -> (r: bool)
        ensures
            r == (rgb_of(rgba) == rgb_of(self.colors@[color.spec_index() as int])),
    {
        let expected = self.ansi_color(color);
        (rgba & 0xFFFF_FF00) == (expected & 0xFFFF_FF00)
    }

    /// Whether each of `rgba`'s red, green and blue channels is within
    /// `tolerance` of the palette colour's.
    pub fn matches_ansi_approx(&self, rgba: u32, color: AnsiColor, tolerance: u8) -> (r: bool)
        ensures
            r == close_rgb(rgba, self.colors@[color.spec_index() as int], tolerance),
    {
        let expected = self.ansi_color(color);
        let tol = tolerance as i32;
        let r1 = ((rgba >> 24u32) & 0xFF) as i32;
        let g1 = ((rgba >> 16u32) & 0xFF) as i32;
        let b1 = ((rgba >> 8u32) & 0xFF) as i32;
        let r2 = ((expected >> 24u32) & 0xFF) as i32;
        let g2 = ((expected >> 16u32) & 0xFF) as i32;
        let b2 = ((expected >> 8u32) & 0xFF) as i32;
        proof {
            assert((rgba >> 24u32) & 0xFF <= 0xFF) by (bit_vector);
            assert((rgba >> 16u32) & 0xFF <= 0xFF) by (bit_vector);
            assert((rgba >> 8u32) & 0xFF <= 0xFF) by (bit_vector);
            assert((expected >> 24u32) & 0xFF <= 0xFF) by (bit_vector);
            assert((expected >> 16u32) & 0xFF <= 0xFF) by (bit_vector);
            assert((expected >> 8u32) & 0xFF <= 0xFF) by (bit_vector);
        }
        let dr = if r1 >= r2 { r1 - r2 } else { r2 - r1 };
        let dg = if g1 >= g2 { g1 - g2 } else { g2 - g1 };
        let db = if b1 >= b2 { b1 - b2 } else { b2 - b1 };
        dr <= tol && dg <= tol && db <= tol
    }
}

/// The distinct colours found while scanning cells.
#[derive(Debug, Clone)]
pub struct ColorScan {
    pub foreground_colors: Vec<u32>,
    pub background_colors: Vec<u32>,
    pub cells_scanned: usize,
}

/// `c` appended to `s` unless `s` already holds it.
pub open spec fn add_unique(s: Seq<u32>, c: u32) -> Seq<u32> {
    if s.contains(c) { s } else { s.push(c) }
}

fn contains_u32(v: &Vec<u32>, c: u32) -> (r: bool)
    ensures
        r == v@.contains(c),
{
    let mut i: usize = 0;
    while i < v.len()
        invariant
            i <= v@.len(),
            forall|j: int| 0 <= j < i ==> v@[j] != c,
        decreases v@.len() - i,
    {
        if v[i] == c {
            return true;
        }
        i += 1;
    }
    false
}

impl ColorScan {
    pub fn new() -> (r: Self)
        ensures
            r.foreground_colors@ == Seq::<u32>::empty(),
            r.background_colors@ == Seq::<u32>::empty(),
            r.cells_scanned == 0,
    {
        ColorScan { foreground_colors: Vec::new(), background_colors: Vec::new(), cells_scanned: 0 }
    }

    /// Records a foreground colour, once.
    pub fn add_foreground(&mut self, color: u32)
        ensures
            final(self).foreground_colors@ == add_unique(old(self).foreground_colors@, color),
            final(self).background_colors@ == old(self).background_colors@,
            final(self).cells_scanned == old(self).cells_scanned,
    {
        if !contains_u32(&self.foreground_colors, color) {
            self.foreground_colors.push(color);
        }
    }

    /// Records a background colour, once.
    pub fn add_background(&mut self, color: u32)
        ensures
            final(self).background_colors@ == add_unique(old(self).background_colors@, color),
            final(self).foreground_colors@ == old(self).foreground_colors@,
            final(self).cells_scanned == old(self).cells_scanned,
    {
        if !contains_u32(&self.background_colors, color) {
            self.background_colors.push(color);
        }
    }

    /// Counts one more scanned cell.
    pub fn increment_cells(&mut self)
        requires
            old(self).cells_scanned < usize::MAX,
        ensures
            final(self).cells_scanned == old(self).cells_scanned + 1,
            final(self).foreground_colors@ == old(self).foreground_colors@,
            final(self).background_colors@ == old(self).background_colors@,
    {
        self.cells_scanned = self.cells_scanned + 1;
    }

    pub fn unique_foreground_count(&self) -> (r: usize)
        ensures
            r == self.foreground_colors@.len(),
    {
        self.foreground_colors.len()
    }

    pub fn unique_background_count(&self) -> (r: usize)
        ensures
            r == self.background_colors@.len(),
    {
        self.background_colors.len()
    }
}

} // verus!
