//! The browser terminal's cell grid: the server's frame updates (an LZ4
//! block with its size prepended, holding a header, a bitmask of changed
//! cells and the changed cells column by column), the modes they carry,
//! the text and HTML of a selection, and cell colours.
//!
//! A cell is twelve bytes: flags (`f0`: fg type in bits 0-1, bg type in
//! bits 2-3, bold, dim, italic, underline; `f1`: inverse, wide, wide
//! continuation, content length in bits 3-5), the fg and bg colour bytes,
//! and up to four bytes of UTF-8 content.
use vstd::prelude::*;
use vstd::utf8::{decode_utf8, valid_utf8};
use crate::text::{append_chars, append_str, chars_of, dec, dec_u64, string_of};

verus! {

broadcast use vstd::string::group_string_axioms;

// ───────────────────────────── colours ─────────────────────────────

/// The sixteen ANSI colours.
pub open spec fn ansi_rgb(i: int) -> (u8, u8, u8) {
    if i == 0 {
        (0, 0, 0)
    } else if i == 1 {
        (170, 0, 0)
    } else if i == 2 {
        (0, 170, 0)
    } else if i == 3 {
        (170, 85, 0)
    } else if i == 4 {
        (0, 0, 170)
    } else if i == 5 {
        (170, 0, 170)
    } else if i == 6 {
        (0, 170, 170)
    } else if i == 7 {
        (170, 170, 170)
    } else if i == 8 {
        (85, 85, 85)
    } else if i == 9 {
        (255, 85, 85)
    } else if i == 10 {
        (85, 255, 85)
    } else if i == 11 {
        (255, 255, 85)
    } else if i == 12 {
        (85, 85, 255)
    } else if i == 13 {
        (255, 85, 255)
    } else if i == 14 {
        (85, 255, 255)
    } else {
        (255, 255, 255)
    }
}

/// The RGB of a 256-colour palette index: the ANSI colours, the 6×6×6
/// cube in steps of 51, and the grey ramp from 8 in steps of 10.
pub open spec fn palette_rgb(idx: u8) -> (u8, u8, u8) {
    if idx < 16 {
        ansi_rgb(idx as int)
    } else if idx < 232 {
        let i = idx - 16;
        ((i / 36 * 51) as u8, (i % 36 / 6 * 51) as u8, (i % 6 * 51) as u8)
    } else {
        let v = (8 + (idx - 232) * 10) as u8;
        (v, v, v)
    }
}

/// The RGB of a 256-colour palette index.
pub fn idx_to_rgb(idx: u8) -> (r: (u8, u8, u8))
    ensures
        r == palette_rgb(idx),
{
    if idx < 16 {
        let t: [(u8, u8, u8); 16] = [
            (0, 0, 0),
            (170, 0, 0),
            (0, 170, 0),
            (170, 85, 0),
            (0, 0, 170),
            (170, 0, 170),
            (0, 170, 170),
            (170, 170, 170),
            (85, 85, 85),
            (255, 85, 85),
            (85, 255, 85),
            (255, 255, 85),
            (85, 85, 255),
            (255, 85, 255),
            (85, 255, 255),
            (255, 255, 255),
        ];
        let c = t[idx as usize];
        assert(c == ansi_rgb(idx as int));
        return c;
    }
    if idx < 232 {
        let i = idx - 16;
        return ((i / 36) * 51, ((i % 36) / 6) * 51, (i % 6) * 51);
    }
    let v = 8 + (idx - 232) * 10;
    (v, v, v)
}

/// A resolved cell colour; a default colour is the terminal's own
/// foreground (`#ccc`) or background (`#000`).
#[derive(Clone, Copy, Debug, PartialEq, Eq, Structural)]
pub struct CellColor {
    pub r: u8,
    pub g: u8,
    pub b: u8,
    pub is_default: bool,
}

/// The default foreground.
pub open spec fn default_fg() -> CellColor {
    CellColor { r: 204, g: 204, b: 204, is_default: true }
}

/// The default background.
pub open spec fn default_bg() -> CellColor {
    CellColor { r: 0, g: 0, b: 0, is_default: true }
}

/// The dimmed default foreground.
pub open spec fn dim_fg() -> CellColor {
    CellColor { r: 102, g: 102, b: 102, is_default: false }
}

/// The dimmed default background.
pub open spec fn dim_bg() -> CellColor {
    CellColor { r: 0, g: 0, b: 0, is_default: false }
}

/// The colour of a cell's colour field: type 0 is the default (dimmed:
/// grey or black), type 1 a palette index, type 2 RGB; dim halves each
/// component; another type is the default.
pub open spec fn resolve_color(color_type: u8, r: u8, g: u8, b: u8, is_fg: bool, dim: bool) -> CellColor {
    if color_type == 0 {
        if dim {
            if is_fg {
                dim_fg()
            } else {
                dim_bg()
            }
        } else if is_fg {
            default_fg()
        } else {
            default_bg()
        }
    } else if color_type == 1 {
        let c = palette_rgb(r);
        if dim {
            CellColor { r: c.0 / 2, g: c.1 / 2, b: c.2 / 2, is_default: false }
        } else {
            CellColor { r: c.0, g: c.1, b: c.2, is_default: false }
        }
    } else if color_type == 2 {
        if dim {
            CellColor { r: r / 2, g: g / 2, b: b / 2, is_default: false }
        } else {
            CellColor { r, g, b, is_default: false }
        }
    } else if is_fg {
        default_fg()
    } else {
        default_bg()
    }
}

/// `rgb(r,g,b)` in decimal.
pub open spec fn rgb_css(r: u8, g: u8, b: u8) -> Seq<char> {
    "rgb("@ + dec(r as nat) + ","@ + dec(g as nat) + ","@ + dec(b as nat) + ")"@
}

impl CellColor {
    /// The colour of a cell's colour field.
    pub fn resolve(color_type: u8, r: u8, g: u8, b: u8, is_fg: bool, dim: bool) -> (c: CellColor)
        ensures
            c == resolve_color(color_type, r, g, b, is_fg, dim),
    {
        if color_type == 0 {
            if dim {
                if is_fg {
                    CellColor { r: 102, g: 102, b: 102, is_default: false }
                } else {
                    CellColor { r: 0, g: 0, b: 0, is_default: false }
                }
            } else if is_fg {
                CellColor { r: 204, g: 204, b: 204, is_default: true }
            } else {
                CellColor { r: 0, g: 0, b: 0, is_default: true }
            }
        } else if color_type == 1 {
            let (cr, cg, cb) = idx_to_rgb(r);
            if dim {
                CellColor { r: cr / 2, g: cg / 2, b: cb / 2, is_default: false }
            } else {
                CellColor { r: cr, g: cg, b: cb, is_default: false }
            }
        } else if color_type == 2 {
            if dim {
                CellColor { r: r / 2, g: g / 2, b: b / 2, is_default: false }
            } else {
                CellColor { r, g, b, is_default: false }
            }
        } else if is_fg {
            CellColor { r: 204, g: 204, b: 204, is_default: true }
        } else {
            CellColor { r: 0, g: 0, b: 0, is_default: true }
        }
    }

    /// The CSS colour: `#ccc` or `#000` for the defaults (told apart by
    /// the red component), else `rgb(r,g,b)`.
    pub fn to_css(&self) -> (s: String)
        ensures
            s@ == (if self.is_default {
                if self.r == 204 {
                    "#ccc"@
                } else {
                    "#000"@
                }
            } else {
                rgb_css(self.r, self.g, self.b)
            }),
    {
        if self.is_default {
            if self.r == 204 {
                string_of(chars_of("#ccc").as_slice())
            } else {
                string_of(chars_of("#000").as_slice())
            }
        } else {
            let mut v: Vec<char> = Vec::new();
            push_rgb(&mut v, self.r, self.g, self.b);
            string_of(v.as_slice())
        }
    }

    /// The colour packed into 32 bits: the default flag in bit 24, then
    /// red, green and blue bytes.
    pub fn pack(&self) -> (p: u32)
        ensures
            p == (if self.is_default {
                16777216int
            } else {
                0int
            }) + self.r as int * 65536 + self.g as int * 256 + self.b as int,
    {
        let d: u32 = if self.is_default {
            1
        } else {
            0
        };
        let r = self.r as u32;
        let g = self.g as u32;
        let b = self.b as u32;
        let p = (d << 24u32) | (r << 16u32) | (g << 8u32) | b;
        assert(p == d * 16777216 + r * 65536 + g * 256 + b) by (bit_vector)
            requires
                d <= 1,
                r < 256,
                g < 256,
                b < 256,
                p == (d << 24u32) | (r << 16u32) | (g << 8u32) | b,
        ;
        p
    }
}

fn push_rgb(v: &mut Vec<char>, r: u8, g: u8, b: u8)
    ensures
        final(v)@ == old(v)@ + rgb_css(r, g, b),
{
    let ghost start = v@;
    append_str(v, "rgb(");
    append_chars(v, dec_u64(r as u64).as_slice());
    append_str(v, ",");
    append_chars(v, dec_u64(g as u64).as_slice());
    append_str(v, ",");
    append_chars(v, dec_u64(b as u64).as_slice());
    append_str(v, ")");
    assert(v@ =~= start + rgb_css(r, g, b));
}

/// The CSS colour of a cell's colour field for the HTML copy: type 0 is
/// the given default (dimmed: `rgb(102,102,102)` for `#ccc`, else
/// `rgb(0,0,0)`), type 1 a palette index, type 2 RGB, another type the
/// default; dim halves each component.
pub open spec fn color_css_spec(color_type: u8, r: u8, g: u8, b: u8, default: Seq<char>, dim: bool) -> Seq<char> {
    if color_type == 0 {
        if dim {
            if default == "#ccc"@ {
                "rgb(102,102,102)"@
            } else {
                "rgb(0,0,0)"@
            }
        } else {
            default
        }
    } else if color_type == 1 || color_type == 2 {
        let c = if color_type == 1 {
            palette_rgb(r)
        } else {
            (r, g, b)
        };
        if dim {
            rgb_css(c.0 / 2, c.1 / 2, c.2 / 2)
        } else {
            rgb_css(c.0, c.1, c.2)
        }
    } else {
        default
    }
}

/// The CSS colour of a cell's colour field.
pub fn color_css(color_type: u8, r: u8, g: u8, b: u8, default: &str, dim: bool) -> (s: String)
    ensures
        s@ == color_css_spec(color_type, r, g, b, default@, dim),
{
    if color_type == 0 {
        if dim {
            if crate::text::chars_eq_str(chars_of(default).as_slice(), "#ccc") {
                return string_of(chars_of("rgb(102,102,102)").as_slice());
            } else {
                return string_of(chars_of("rgb(0,0,0)").as_slice());
            }
        } else {
            return string_of(chars_of(default).as_slice());
        }
    }
    let (cr, cg, cb) = if color_type == 1 {
        idx_to_rgb(r)
    } else if color_type == 2 {
        (r, g, b)
    } else {
        return string_of(chars_of(default).as_slice());
    };
    let mut v: Vec<char> = Vec::new();
    if dim {
        push_rgb(&mut v, cr / 2, cg / 2, cb / 2);
    } else {
        push_rgb(&mut v, cr, cg, cb);
    }
    string_of(v.as_slice())
}


// ───────────────────────────── the grid ─────────────────────────────

/// The number of bytes of one cell.
pub const CELL_SIZE: usize = 12;

/// What a grid holds: its size, the cells' bytes, the cursor, the mode
/// bits, the cells to repaint, and whether all are to be repainted.
pub struct GridView {
    pub rows: u16,
    pub cols: u16,
    pub cells: Seq<u8>,
    pub cursor_row: u16,
    pub cursor_col: u16,
    pub mode: u16,
    pub dirty: Seq<bool>,
    pub all_dirty: bool,
}

/// The cell grid of a browser terminal.
pub struct TerminalGrid {
    rows: u16,
    cols: u16,
    cells: Vec<u8>,
    cursor_row: u16,
    cursor_col: u16,
    mode: u16,
    dirty: Vec<bool>,
    all_dirty: bool,
}

/// The number of cells of a grid.
pub open spec fn cell_count(rows: u16, cols: u16) -> int {
    rows as int * cols as int
}

/// A blank grid of the given size: all bytes zero, all to repaint.
pub open spec fn blank_grid(rows: u16, cols: u16, cursor_row: u16, cursor_col: u16, mode: u16) -> GridView {
    GridView {
        rows,
        cols,
        cells: Seq::new((cell_count(rows, cols) * 12) as nat, |j: int| 0u8),
        cursor_row,
        cursor_col,
        mode,
        dirty: Seq::new(cell_count(rows, cols) as nat, |i: int| true),
        all_dirty: true,
    }
}

impl View for TerminalGrid {
    type V = GridView;

    closed spec fn view(&self) -> GridView {
        GridView {
            rows: self.rows,
            cols: self.cols,
            cells: self.cells@,
            cursor_row: self.cursor_row,
            cursor_col: self.cursor_col,
            mode: self.mode,
            dirty: self.dirty@,
            all_dirty: self.all_dirty,
        }
    }
}

/// The little-endian 16-bit value at `i`.
pub open spec fn le16(p: Seq<u8>, i: int) -> u16 {
    (p[i] as int + 256 * p[i + 1] as int) as u16
}

/// Whether bit `i` of a bitmask (least significant bit first) is set.
pub open spec fn mask_bit(bm: Seq<u8>, i: int) -> bool {
    (bm[i / 8] >> ((i % 8) as u8)) & 1u8 == 1u8
}

/// The number of set bits before bit `i`.
pub open spec fn rank(bm: Seq<u8>, i: int) -> int
    decreases i,
{
    if i <= 0 {
        0
    } else {
        rank(bm, i - 1) + if mask_bit(bm, i - 1) {
            1int
        } else {
            0
        }
    }
}

proof fn lemma_rank_mono(bm: Seq<u8>, i: int, j: int)
    requires
        0 <= i <= j,
    ensures
        rank(bm, i) <= rank(bm, j),
        rank(bm, j) <= j,
        rank(bm, i) >= 0,
    decreases j,
{
    if j > 0 {
        if i < j {
            lemma_rank_mono(bm, i, j - 1);
        } else {
            lemma_rank_mono(bm, 0, j - 1);
        }
    }
}

/// The grid after a frame update `p`: a header of five little-endian
/// 16-bit values (rows, columns, cursor row, cursor column, mode); a new
/// size blanks the grid. Then a bitmask with one bit per cell, and for the
/// `n` cells whose bit is set, twelve columns of `n` bytes: byte `b` of the
/// `k`-th changed cell is at `b * n + k`. Changed cells are marked for
/// repaint, and so are the cursor's old cell (when the cursor moved or its
/// visibility changed) and its new one, unless the whole grid is to be
/// repainted. A payload too short for its header leaves the grid as it is,
/// one too short for its bitmask or cells leaves it after the resize; so
/// does a size whose bytes the machine cannot address.
pub open spec fn apply_spec(g: GridView, p: Seq<u8>) -> GridView {
    if p.len() < 10 {
        g
    } else {
        let nr = le16(p, 0);
        let nc = le16(p, 2);
        let ncr = le16(p, 4);
        let ncc = le16(p, 6);
        let nm = le16(p, 8);
        let total = cell_count(nr, nc);
        if total * 12 > usize::MAX {
            g
        } else {
            let g1 = if nr != g.rows || nc != g.cols {
                blank_grid(nr, nc, g.cursor_row, g.cursor_col, g.mode)
            } else {
                g
            };
            let bl = (total + 7) / 8;
            if p.len() < 10 + bl {
                g1
            } else {
                let bm = p.subrange(10, 10 + bl);
                let dc = rank(bm, total);
                let ds = 10 + bl;
                if p.len() < ds + dc * 12 {
                    g1
                } else {
                    let moved = ncr != g1.cursor_row || ncc != g1.cursor_col;
                    let vis = (nm & 1) != (g1.mode & 1);
                    let old_idx = g1.cursor_row as int * nc as int + g1.cursor_col as int;
                    let new_idx = ncr as int * nc as int + ncc as int;
                    GridView {
                        cells: Seq::new(
                            g1.cells.len(),
                            |j: int|
                                if mask_bit(bm, j / 12) {
                                    p[ds + (j % 12) * dc + rank(bm, j / 12)]
                                } else {
                                    g1.cells[j]
                                },
                        ),
                        dirty: if g1.all_dirty {
                            g1.dirty
                        } else {
                            Seq::new(
                                g1.dirty.len(),
                                |i: int|
                                    g1.dirty[i] || mask_bit(bm, i) || ((moved || vis) && i == old_idx)
                                        || i == new_idx,
                            )
                        },
                        cursor_row: ncr,
                        cursor_col: ncc,
                        mode: nm,
                        ..g1
                    }
                }
            }
        }
    }
}

impl TerminalGrid {
    #[verifier::type_invariant]
    closed spec fn sized(self) -> bool {
        &&& self.cells@.len() == cell_count(self.rows, self.cols) * 12
        &&& self.dirty@.len() == cell_count(self.rows, self.cols)
    }

    /// A blank grid of `rows` by `cols` cells.
    pub fn new(rows: u16, cols: u16) -> (r: TerminalGrid)
        requires
            cell_count(rows, cols) * 12 <= usize::MAX,
        ensures
            r@ == blank_grid(rows, cols, 0, 0, 0),
    {
        let total = rows as usize * cols as usize;
        let cells = vec_of_zeros(total * 12);
        let dirty = vec_of_trues(total);
        TerminalGrid { rows, cols, cells, cursor_row: 0, cursor_col: 0, mode: 0, dirty, all_dirty: true }
    }

    /// The grid's size in rows and columns.
    pub fn size(&self) -> (r: (u16, u16))
        ensures
            r == (self@.rows, self@.cols),
    {
        (self.rows, self.cols)
    }

    /// The cursor's row.
    pub fn cursor_row(&self) -> (r: u16)
        ensures
            r == self@.cursor_row,
    {
        self.cursor_row
    }

    /// The cursor's column.
    pub fn cursor_col(&self) -> (r: u16)
        ensures
            r == self@.cursor_col,
    {
        self.cursor_col
    }

    /// The mouse tracking mode: bits 4-6 of the mode.
    pub fn mouse_mode(&self) -> (r: u8)
        ensures
            r == (self@.mode >> 4u16) & 7,
    {
        let m = self.mode;
        let v = (m >> 4u16) & 7;
        assert(v <= 7) by (bit_vector)
            requires
                v == (m >> 4u16) & 7,
        ;
        v as u8
    }

    /// The mouse encoding: bits 7-8 of the mode.
    pub fn mouse_encoding(&self) -> (r: u8)
        ensures
            r == (self@.mode >> 7u16) & 3,
    {
        let m = self.mode;
        let v = (m >> 7u16) & 3;
        assert(v <= 3) by (bit_vector)
            requires
                v == (m >> 7u16) & 3,
        ;
        v as u8
    }

    /// Application cursor keys: bit 1 of the mode.
    pub fn app_cursor(&self) -> (r: bool)
        ensures
            r == (self@.mode & 2 != 0),
    {
        self.mode & 2 != 0
    }

    /// Bracketed paste: bit 3 of the mode.
    pub fn bracketed_paste(&self) -> (r: bool)
        ensures
            r == (self@.mode & 8 != 0),
    {
        self.mode & 8 != 0
    }

    /// Echo: bit 9 of the mode.
    pub fn echo(&self) -> (r: bool)
        ensures
            r == (self@.mode & 512 != 0),
    {
        self.mode & 512 != 0
    }

    /// Canonical input: bit 10 of the mode.
    pub fn icanon(&self) -> (r: bool)
        ensures
            r == (self@.mode & 1024 != 0),
    {
        self.mode & 1024 != 0
    }

    /// The grid's cell bytes.
    pub fn cell_bytes(&self) -> (r: &Vec<u8>)
        ensures
            r@ == self@.cells,
    {
        &self.cells
    }

    /// Whether cell `i` is to be repainted.
    pub fn is_dirty(&self, i: usize) -> (r: bool)
        ensures
            r == (i < self@.dirty.len() && (self@.all_dirty || self@.dirty[i as int])),
    {
        i < self.dirty.len() && (self.all_dirty || self.dirty[i])
    }
}

/// `n` zero bytes.
fn vec_of_zeros(n: usize) -> (r: Vec<u8>)
    ensures
        r@ == Seq::new(n as nat, |j: int| 0u8),
{
    let mut v: Vec<u8> = Vec::new();
    let mut i: usize = 0;
    while i < n
        invariant
            i <= n,
            v@ == Seq::new(i as nat, |j: int| 0u8),
        decreases n - i,
    {
        v.push(0);
        assert(v@ =~= Seq::new((i + 1) as nat, |j: int| 0u8));
        i += 1;
    }
    v
}

/// `n` times `true`.
fn vec_of_trues(n: usize) -> (r: Vec<bool>)
    ensures
        r@ == Seq::new(n as nat, |j: int| true),
{
    let mut v: Vec<bool> = Vec::new();
    let mut i: usize = 0;
    while i < n
        invariant
            i <= n,
            v@ == Seq::new(i as nat, |j: int| true),
        decreases n - i,
    {
        v.push(true);
        assert(v@ =~= Seq::new((i + 1) as nat, |j: int| true));
        i += 1;
    }
    v
}


fn read_le16(p: &[u8], i: usize) -> (r: u16)
    requires
        i + 1 < p@.len(),
    ensures
        r == le16(p@, i as int),
{
    (p[i] as u16) + 256 * (p[i + 1] as u16)
}

fn bit_at(p: &[u8], base: usize, i: usize) -> (r: bool)
    requires
        base + i / 8 < p@.len(),
    ensures
        r == mask_bit(p@.subrange(base as int, p@.len() as int), i as int),
{
    let n = p.len();
    let b = p[base + i / 8];
    let k = (i % 8) as u8;
    assert(p@.subrange(base as int, p@.len() as int)[(i / 8) as int] == b);
    (b >> k) & 1u8 == 1u8
}

proof fn lemma_mask_prefix(p: Seq<u8>, base: int, bl: int, i: int)
    requires
        0 <= base,
        base + bl <= p.len(),
        0 <= i,
        i / 8 < bl,
    ensures
        mask_bit(p.subrange(base, p.len() as int), i) == mask_bit(p.subrange(base, base + bl), i),
{
    assert(p.subrange(base, p.len() as int)[i / 8] == p.subrange(base, base + bl)[i / 8]);
}

proof fn lemma_rank_prefix(p: Seq<u8>, base: int, bl: int, i: int)
    requires
        0 <= base,
        base + bl <= p.len(),
        0 <= i <= bl * 8,
    ensures
        rank(p.subrange(base, p.len() as int), i) == rank(p.subrange(base, base + bl), i),
    decreases i,
{
    if i > 0 {
        lemma_rank_prefix(p, base, bl, i - 1);
        lemma_mask_prefix(p, base, bl, i - 1);
    }
}

/// The grid made of its parts.
fn grid_of(
    rows: u16,
    cols: u16,
    cells: Vec<u8>,
    cursor_row: u16,
    cursor_col: u16,
    mode: u16,
    dirty: Vec<bool>,
    all_dirty: bool,
) -> (r: TerminalGrid)
    requires
        cells@.len() == cell_count(rows, cols) * 12,
        dirty@.len() == cell_count(rows, cols),
    ensures
        r@ == (GridView { rows, cols, cells: cells@, cursor_row, cursor_col, mode, dirty: dirty@, all_dirty }),
{
    TerminalGrid { rows, cols, cells, cursor_row, cursor_col, mode, dirty, all_dirty }
}

#[verifier::rlimit(60)]
fn apply_parts(
    rows: u16,
    cols: u16,
    cells: Vec<u8>,
    cursor_row: u16,
    cursor_col: u16,
    mode: u16,
    dirty: Vec<bool>,
    all_dirty: bool,
    payload: &[u8],
) -> (r: TerminalGrid)
    requires
        cells@.len() == cell_count(rows, cols) * 12,
        dirty@.len() == cell_count(rows, cols),
    ensures
        r@ == apply_spec(
            GridView { rows, cols, cells: cells@, cursor_row, cursor_col, mode, dirty: dirty@, all_dirty },
            payload@,
        ),
{
    let ghost g = GridView { rows, cols, cells: cells@, cursor_row, cursor_col, mode, dirty: dirty@, all_dirty };
    let plen = payload.len();
    if plen < 10 {
        return grid_of(rows, cols, cells, cursor_row, cursor_col, mode, dirty, all_dirty);
    }
    let nr = read_le16(payload, 0);
    let nc = read_le16(payload, 2);
    let ncr = read_le16(payload, 4);
    let ncc = read_le16(payload, 6);
    let nm = read_le16(payload, 8);
    assert(nr as int * nc as int <= 65535 * 65535) by (nonlinear_arith)
        requires
            nr <= 65535,
            nc <= 65535,
    ;
    let total: usize = nr as usize * nc as usize;
    let bytes = total.checked_mul(12);
    if bytes.is_none() {
        return grid_of(rows, cols, cells, cursor_row, cursor_col, mode, dirty, all_dirty);
    }
    let nbytes = bytes.unwrap();
    let ghost g1 = if nr != rows || nc != cols {
        blank_grid(nr, nc, cursor_row, cursor_col, mode)
    } else {
        g
    };
    let (mut cells, mut dirty, all_dirty) = if nr != rows || nc != cols {
        (vec_of_zeros(nbytes), vec_of_trues(total), true)
    } else {
        (cells, dirty, all_dirty)
    };
    assert(cells@ == g1.cells && dirty@ == g1.dirty && all_dirty == g1.all_dirty);
    let bl = (total + 7) / 8;
    if plen < 10 + bl {
        return grid_of(nr, nc, cells, cursor_row, cursor_col, mode, dirty, all_dirty);
    }
    let ds = 10 + bl;
    let ghost bm = payload@.subrange(10, 10 + bl as int);
    let mut dc: usize = 0;
    let mut i: usize = 0;
    while i < total
        invariant
            i <= total,
            total == cell_count(nr, nc),
            bl == (total + 7) / 8,
            10 + bl <= plen,
            plen == payload@.len(),
            bm == payload@.subrange(10, 10 + bl as int),
            dc == rank(bm, i as int),
            dc <= i,
        decreases total - i,
    {
        let set = bit_at(payload, 10, i);
        proof {
            lemma_mask_prefix(payload@, 10, bl as int, i as int);
        }
        if set {
            dc += 1;
        }
        i += 1;
    }
    proof {
        lemma_rank_mono(bm, 0, total as int);
    }
    if plen - ds < dc * 12 {
        return grid_of(nr, nc, cells, cursor_row, cursor_col, mode, dirty, all_dirty);
    }
    let ghost cells0 = cells@;
    let ghost dirty0 = dirty@;
    let mut di: usize = 0;
    let mut i: usize = 0;
    while i < total
        invariant
            i <= total,
            total == cell_count(nr, nc),
            nbytes == total * 12,
            bl == (total + 7) / 8,
            ds == 10 + bl,
            ds + dc * 12 <= plen,
            plen == payload@.len(),
            bm == payload@.subrange(10, 10 + bl as int),
            dc == rank(bm, total as int),
            di == rank(bm, i as int),
            cells@.len() == nbytes,
            dirty@.len() == total,
            forall|j: int|
                0 <= j < nbytes ==> #[trigger] cells@[j] == if j / 12 < i && mask_bit(bm, j / 12) {
                    payload@[ds + (j % 12) * dc + rank(bm, j / 12)]
                } else {
                    cells0[j]
                },
            forall|c: int|
                0 <= c < total ==> #[trigger] dirty@[c] == (dirty0[c] || (!all_dirty && c < i
                    && mask_bit(bm, c))),
        decreases total - i,
    {
        let set = bit_at(payload, 10, i);
        proof {
            lemma_mask_prefix(payload@, 10, bl as int, i as int);
            lemma_rank_mono(bm, i + 1, total as int);
        }
        if set {
            assert(di < dc);
            let base = i * 12;
            assert(base + 12 <= nbytes) by (nonlinear_arith)
                requires
                    base == i * 12,
                    i < total,
                    nbytes == total * 12,
            ;
            let mut b: usize = 0;
            while b < 12
                invariant
                    b <= 12,
                    base == i * 12,
                    base + 12 <= nbytes,
                    i < total,
                    nbytes == total * 12,
                    ds + dc * 12 <= plen,
                    plen == payload@.len(),
                    di < dc,
                    di == rank(bm, i as int),
                    mask_bit(bm, i as int),
                    cells@.len() == nbytes,
                    forall|j: int|
                        0 <= j < nbytes ==> #[trigger] cells@[j] == if (j / 12 < i && mask_bit(
                            bm,
                            j / 12,
                        )) || (j / 12 == i && j % 12 < b) {
                            payload@[ds + (j % 12) * dc + rank(bm, j / 12)]
                        } else {
                            cells0[j]
                        },
                decreases 12 - b,
            {
                assert(b * dc + di < 12 * dc) by (nonlinear_arith)
                    requires
                        b < 12,
                        di < dc,
                ;
                let v = payload[ds + b * dc + di];
                let ghost old_cells = cells@;
                cells.set(base + b, v);
                assert forall|j: int| 0 <= j < nbytes implies #[trigger] cells@[j] == if (j / 12 < i
                    && mask_bit(bm, j / 12)) || (j / 12 == i && j % 12 < b + 1) {
                    payload@[ds + (j % 12) * dc + rank(bm, j / 12)]
                } else {
                    cells0[j]
                } by {
                    if j == base + b {
                        assert(j / 12 == i && j % 12 == b);
                    } else {
                        assert(cells@[j] == old_cells[j]);
                    }
                }
                b += 1;
            }
            if !all_dirty {
                dirty.set(i, true);
            }
            di += 1;
        }
        i += 1;
    }
    let mut dirty = dirty;
    if !all_dirty {
        let moved = ncr != cursor_row || ncc != cursor_col;
        let vis = (nm & 1) != (mode & 1);
        assert(cursor_row as int * nc as int + cursor_col as int <= 65535 * 65535 + 65535) by (nonlinear_arith)
            requires
                cursor_row <= 65535,
                nc <= 65535,
                cursor_col <= 65535,
        ;
        assert(ncr as int * nc as int + ncc as int <= 65535 * 65535 + 65535) by (nonlinear_arith)
            requires
                ncr <= 65535,
                nc <= 65535,
                ncc <= 65535,
        ;
        let old_idx = cursor_row as usize * nc as usize + cursor_col as usize;
        let new_idx = ncr as usize * nc as usize + ncc as usize;
        if (moved || vis) && old_idx < total {
            dirty.set(old_idx, true);
        }
        if new_idx < total {
            dirty.set(new_idx, true);
        }
    }
    let r = grid_of(nr, nc, cells, ncr, ncc, nm, dirty, all_dirty);
    proof {
        let spec = apply_spec(g, payload@);
        assert(r@.cells =~= spec.cells);
        assert(r@.dirty =~= spec.dirty);
    }
    r
}

impl TerminalGrid {
    /// Applies a decompressed frame update.
    pub fn apply_payload(&mut self, payload: &[u8])
        ensures
            final(self)@ == apply_spec(old(self)@, payload@),
    {
        proof {
            use_type_invariant(&*self);
        }
        let mut tmp = TerminalGrid {
            rows: 0,
            cols: 0,
            cells: Vec::new(),
            cursor_row: 0,
            cursor_col: 0,
            mode: 0,
            dirty: Vec::new(),
            all_dirty: true,
        };
        std::mem::swap(&mut tmp, self);
        proof {
            use_type_invariant(&tmp);
        }
        let TerminalGrid { rows, cols, cells, cursor_row, cursor_col, mode, dirty, all_dirty } = tmp;
        *self = apply_parts(rows, cols, cells, cursor_row, cursor_col, mode, dirty, all_dirty, payload);
    }
}


// ───────────────────────────── compressed updates ─────────────────────────────

/// What `lz4_flex::decompress_size_prepended` gives for an input: the
/// decompressed bytes, or nothing when it is not a valid LZ4 block after
/// its four-byte little-endian size.
pub uninterp spec fn lz4_block(input: Seq<u8>) -> Option<Seq<u8>>;

/// `lz4_flex::decompress_size_prepended`; an error becomes `None`. The
/// result is named, not stated; an input shorter than its four size
/// bytes is refused.
#[verifier::external_body]
fn decompress_size_prepended(input: &[u8]) -> (r: Option<Vec<u8>>)
    ensures
        match r {
            Some(v) => lz4_block(input@) == Some(v@),
            None => lz4_block(input@) is None,
        },
        input@.len() < 4 ==> r is None,
{
    match lz4_flex::decompress_size_prepended(input) {
        Ok(v) => Some(v),
        Err(_) => None,
    }
}

/// The grid after a compressed update: unchanged when it does not
/// decompress.
pub open spec fn feed_spec(g: GridView, data: Seq<u8>) -> GridView {
    match lz4_block(data) {
        Some(p) => apply_spec(g, p),
        None => g,
    }
}

/// The little-endian 32-bit value at `i`.
pub open spec fn le32_at(b: Seq<u8>, i: int) -> int {
    b[i] as int + 256 * b[i + 1] as int + 65536 * b[i + 2] as int + 16777216 * b[i + 3] as int
}

/// The grid after the frames of a batch from offset `off`: each frame is
/// a little-endian 32-bit length and that many bytes of a compressed
/// update; a frame that runs past the end stops the batch.
pub open spec fn batch_spec(g: GridView, b: Seq<u8>, off: int) -> GridView
    decreases b.len() - off,
{
    if off < 0 || off + 4 > b.len() {
        g
    } else {
        let l = le32_at(b, off);
        let o2 = off + 4;
        if o2 + l > b.len() {
            g
        } else {
            batch_spec(feed_spec(g, b.subrange(o2, o2 + l)), b, o2 + l)
        }
    }
}

impl TerminalGrid {
    /// Applies a compressed update.
    pub fn feed_compressed(&mut self, data: &[u8])
        ensures
            final(self)@ == feed_spec(old(self)@, data@),
    {
        match decompress_size_prepended(data) {
            Some(payload) => self.apply_payload(payload.as_slice()),
            None => {},
        }
    }

    /// Applies the compressed updates of a batch.
    pub fn feed_compressed_batch(&mut self, batch: &[u8])
        ensures
            final(self)@ == batch_spec(old(self)@, batch@, 0),
    {
        let n = batch.len();
        let mut off: usize = 0;
        while off <= n && n - off >= 4
            invariant_except_break
                off <= n,
                n == batch@.len(),
                batch_spec(old(self)@, batch@, 0) == batch_spec(self@, batch@, off as int),
            ensures
                batch_spec(old(self)@, batch@, 0) == self@,
            decreases n - off,
        {
            let l = (batch[off] as u32 + 256 * batch[off + 1] as u32 + 65536 * batch[off + 2] as u32
                + 16777216 * batch[off + 3] as u32) as usize;
            assert(l == le32_at(batch@, off as int));
            let o2 = off + 4;
            if l > n - o2 {
                break;
            }
            let mut frame: Vec<u8> = Vec::new();
            let mut k: usize = 0;
            while k < l
                invariant
                    k <= l,
                    o2 + l <= n,
                    n == batch@.len(),
                    frame@ == batch@.subrange(o2 as int, o2 + k),
                decreases l - k,
            {
                frame.push(batch[o2 + k]);
                assert(batch@.subrange(o2 as int, o2 + k + 1) =~= batch@.subrange(o2 as int, o2 + k).push(batch@[o2 + k]));
                k += 1;
            }
            self.feed_compressed(frame.as_slice());
            off = o2 + l;
        }
    }
}

// ───────────────────────────── text of a selection ─────────────────────────────

/// `std::str::from_utf8`, owned: the text when the bytes are valid UTF-8.
#[verifier::external_body]
pub(crate) fn utf8_text(bytes: &[u8]) -> (r: Option<String>)
    ensures
        match r {
            Some(s) => valid_utf8(bytes@) && s@ == decode_utf8(bytes@),
            None => !valid_utf8(bytes@),
        },
{
    match std::str::from_utf8(bytes) {
        Ok(s) => Some(s.to_string()),
        Err(_) => None,
    }
}

/// The index of the first byte of a cell.
pub open spec fn cell_index(g: GridView, row: int, col: int) -> int {
    (row * g.cols as int + col) * 12
}

/// The text of one cell: nothing for the continuation of a wide
/// character, its content (nothing when it is not valid UTF-8), or a
/// space when it has none.
pub open spec fn cell_text(g: GridView, row: int, col: int) -> Seq<char> {
    let idx = cell_index(g, row, col);
    let f1 = g.cells[idx + 1];
    if f1 & 4 != 0 {
        seq![]
    } else {
        let len = ((f1 >> 3u8) & 7) as int;
        if len > 0 {
            let bs = g.cells.subrange(idx + 8, idx + 8 + len);
            if valid_utf8(bs) {
                decode_utf8(bs)
            } else {
                seq![]
            }
        } else {
            seq![' ']
        }
    }
}

/// The text of the cells `c0` up to (not including) `c` of a row.
pub open spec fn cells_text(g: GridView, row: int, c0: int, c: int) -> Seq<char>
    decreases c - c0,
{
    if c <= c0 {
        seq![]
    } else {
        cells_text(g, row, c0, c - 1) + cell_text(g, row, c - 1)
    }
}

/// The last row of a selection.
pub open spec fn last_row(g: GridView, end_row: u16) -> int {
    if end_row as int <= g.rows - 1 {
        end_row as int
    } else {
        g.rows - 1
    }
}

/// The columns of a row of a selection: from the start column on the
/// first row (else 0) to the end column on the last row (else the last
/// column), at most the last column.
pub open spec fn row_cols(g: GridView, row: int, sr: u16, sc: u16, er: u16, ec: u16) -> (int, int) {
    let c0 = if row == sr { sc as int } else { 0 };
    let c1 = if row == er { ec as int } else { g.cols - 1 };
    (c0, if c1 <= g.cols - 1 { c1 } else { g.cols - 1 })
}

/// The text of the rows `sr` up to (not including) `r` of a selection:
/// each row's text without trailing white space, rows separated by line
/// feeds.
pub open spec fn rows_text(g: GridView, sr: u16, sc: u16, er: u16, ec: u16, r: int) -> Seq<char>
    decreases r - sr,
{
    if r <= sr {
        seq![]
    } else {
        let row = r - 1;
        let (c0, c1) = row_cols(g, row, sr, sc, er, ec);
        rows_text(g, sr, sc, er, ec, r - 1) + crate::text::trim_end(cells_text(g, row, c0, c1 + 1))
            + if row < last_row(g, er) {
            seq!['\n']
        } else {
            seq![]
        }
    }
}

/// Whether a selection reads the grid's last cell and that cell claims
/// more content bytes than a cell holds (reading past the grid).
pub open spec fn overreads(g: GridView, sr: u16, sc: u16, er: u16, ec: u16) -> bool {
    let last = g.rows - 1;
    let (c0, c1) = row_cols(g, last, sr, sc, er, ec);
    let idx = cell_index(g, last, g.cols - 1);
    &&& sr <= last <= er
    &&& c0 <= g.cols - 1 <= c1
    &&& g.cells[idx + 1] & 4 == 0
    &&& ((g.cells[idx + 1] >> 3u8) & 7) > 4
}

proof fn lemma_cell_bounds(rows: int, cols: int, r: int, c: int)
    requires
        0 <= r < rows,
        0 <= c < cols,
    ensures
        0 <= r * cols + c < rows * cols,
        (r == rows - 1 && c == cols - 1) || r * cols + c + 1 < rows * cols,
{
    assert(r * cols <= (rows - 1) * cols) by (nonlinear_arith)
        requires
            0 <= r <= rows - 1,
            0 <= cols,
    ;
    assert((rows - 1) * cols + cols == rows * cols) by (nonlinear_arith);
    assert(r * cols >= 0) by (nonlinear_arith)
        requires
            0 <= r,
            0 <= cols,
    ;
    if r < rows - 1 {
        assert(r * cols + cols <= (rows - 1) * cols) by (nonlinear_arith)
            requires
                0 <= r < rows - 1,
                0 <= cols,
        ;
    }
}

impl TerminalGrid {
    /// The text of a selection, from (`start_row`, `start_col`) to
    /// (`end_row`, `end_col`), clipped to the grid.
    pub fn get_text(&self, start_row: u16, start_col: u16, end_row: u16, end_col: u16) -> (r: String)
        requires
            self@.rows >= 1,
            start_row as int <= last_row(self@, end_row) ==> self@.cols >= 1,
            !overreads(self@, start_row, start_col, end_row, end_col),
        ensures
            r@ == rows_text(self@, start_row, start_col, end_row, end_col, last_row(self@, end_row) + 1),
    {
        proof {
            use_type_invariant(self);
        }
        let ghost g = self@;
        let last: u16 = if end_row <= self.rows - 1 {
            end_row
        } else {
            self.rows - 1
        };
        let mut result: Vec<char> = Vec::new();
        if start_row > last {
            return string_of(result.as_slice());
        }
        let nbytes = self.cells.len();
        let mut row: u16 = start_row;
        loop
            invariant_except_break
                result@ == rows_text(g, start_row, start_col, end_row, end_col, row as int),
            invariant
                nbytes == self.cells@.len(),
                g == self@,
                start_row <= row <= last,
                last == last_row(g, end_row),
                g.rows >= 1,
                g.cols >= 1,
                last <= g.rows - 1,
                self.cells@.len() == cell_count(g.rows, g.cols) * 12,
                !overreads(g, start_row, start_col, end_row, end_col),
            ensures
                result@ == rows_text(g, start_row, start_col, end_row, end_col, last + 1),
            decreases last - row,
        {
            let c0: u16 = if row == start_row {
                start_col
            } else {
                0
            };
            let c1a: u16 = if row == end_row {
                end_col
            } else {
                self.cols - 1
            };
            let c1: u16 = if c1a <= self.cols - 1 {
                c1a
            } else {
                self.cols - 1
            };
            assert((c0 as int, c1 as int) == row_cols(g, row as int, start_row, start_col, end_row, end_col));
            let mut line: Vec<char> = Vec::new();
            let mut col: u16 = c0;
            while col <= c1
                invariant
                    g == self@,
                    nbytes == self.cells@.len(),
                    c0 <= col,
                    col <= c1 + 1 || col == c0,
                    c1 <= g.cols - 1,
                    row <= last,
                    last <= g.rows - 1,
                    row_cols(g, row as int, start_row, start_col, end_row, end_col) == (c0 as int, c1 as int),
                    start_row <= row,
                    last == last_row(g, end_row),
                    self.cells@.len() == cell_count(g.rows, g.cols) * 12,
                    !overreads(g, start_row, start_col, end_row, end_col),
                    line@ == cells_text(g, row as int, c0 as int, col as int),
                decreases c1 + 1 - col,
            {
                proof {
                    lemma_cell_bounds(g.rows as int, g.cols as int, row as int, col as int);
                }
                assert((row as int * g.cols as int + col as int) * 12 + 12 <= cell_count(g.rows, g.cols) * 12);
                let idx = (row as usize * self.cols as usize + col as usize) * 12;
                let f1 = self.cells[idx + 1];
                if f1 & 4 == 0 {
                    let clen = ((f1 >> 3u8) & 7) as usize;
                    assert(clen <= 7) by (bit_vector)
                        requires
                            clen == (f1 >> 3u8) & 7,
                    ;
                    if clen > 0 {
                        assert(idx + 8 + clen <= self.cells@.len()) by {
                            if idx + 8 + clen > self.cells@.len() {
                                assert(row == g.rows - 1 && col == g.cols - 1);
                            }
                        }
                        let mut bs: Vec<u8> = Vec::new();
                        let mut k: usize = 0;
                        while k < clen
                            invariant
                                nbytes == self.cells@.len(),
                                k <= clen,
                                idx + 8 + clen <= self.cells@.len(),
                                bs@ == self.cells@.subrange(idx + 8, idx + 8 + k),
                            decreases clen - k,
                        {
                            bs.push(self.cells[idx + 8 + k]);
                            assert(self.cells@.subrange(idx + 8, idx + 8 + k + 1) =~= self.cells@.subrange(
                                idx + 8,
                                idx + 8 + k,
                            ).push(self.cells@[idx + 8 + k]));
                            k += 1;
                        }
                        match utf8_text(bs.as_slice()) {
                            Some(t) => {
                                append_chars(&mut line, chars_of(t.as_str()).as_slice());
                            },
                            None => {},
                        }
                    } else {
                        line.push(' ');
                    }
                }
                assert(line@ =~= cells_text(g, row as int, c0 as int, col + 1));
                col += 1;
            }
            assert(line@ == cells_text(g, row as int, c0 as int, c1 + 1)) by {
                if c1 + 1 < c0 {
                    assert(cells_text(g, row as int, c0 as int, c1 + 1) =~= Seq::<char>::empty());
                }
            }
            let trimmed_end = trim_end_chars(line.as_slice());
            append_chars(&mut result, trimmed_end.as_slice());
            if row < last {
                result.push('\n');
                assert(result@ =~= rows_text(g, start_row, start_col, end_row, end_col, row + 1));
                row += 1;
            } else {
                assert(result@ =~= rows_text(g, start_row, start_col, end_row, end_col, row + 1));
                break;
            }
        }
        string_of(result.as_slice())
    }
}

/// `s` without its trailing white space.
fn trim_end_chars(s: &[char]) -> (r: Vec<char>)
    ensures
        r@ == crate::text::trim_end(s@),
{
    let mut end = s.len();
    assert(s@.subrange(0, s@.len() as int) =~= s@);
    while end > 0 && crate::text::char_is_ws(s[end - 1])
        invariant
            end <= s@.len(),
            crate::text::trim_end(s@) == crate::text::trim_end(s@.subrange(0, end as int)),
        decreases end,
    {
        assert(s@.subrange(0, end as int).drop_last() =~= s@.subrange(0, end - 1));
        end -= 1;
    }
    crate::text::sub_vec(s, 0, end)
}


// ───────────────────────────── HTML of a selection ─────────────────────────────

/// A cell's content as HTML text: `&`, `<` and `>` escaped.
pub open spec fn html_escaped(ch: Seq<char>) -> Seq<char> {
    if ch == "&"@ {
        "&amp;"@
    } else if ch == "<"@ {
        "&lt;"@
    } else if ch == ">"@ {
        "&gt;"@
    } else {
        ch
    }
}

/// `color:` and the foreground, unless it is the default.
pub open spec fn fg_decl(fg: Seq<char>) -> Seq<char> {
    if fg != "#ccc"@ {
        "color:"@ + fg + ";"@
    } else {
        seq![]
    }
}

/// `background:` and the background, unless it is the default.
pub open spec fn bg_decl(bg: Seq<char>) -> Seq<char> {
    if bg != "#000"@ {
        "background:"@ + bg + ";"@
    } else {
        seq![]
    }
}

/// `decl` when `on`.
pub open spec fn flag_decl(on: bool, decl: Seq<char>) -> Seq<char> {
    if on {
        decl
    } else {
        seq![]
    }
}

/// The CSS declarations of a cell: its colours when they are not the
/// defaults, then bold, italic and underline.
pub open spec fn cell_style(fg: Seq<char>, bg: Seq<char>, bold: bool, italic: bool, underline: bool) -> Seq<char> {
    fg_decl(fg) + bg_decl(bg) + flag_decl(bold, "font-weight:bold;"@) + flag_decl(
        italic,
        "font-style:italic;"@,
    ) + flag_decl(underline, "text-decoration:underline;"@)
}

/// The displayed foreground and background CSS colours of the cell whose
/// bytes start at `idx`: inverse swaps them; dim applies to the displayed
/// foreground.
pub open spec fn cell_fg_bg(c: Seq<u8>, idx: int) -> (Seq<char>, Seq<char>) {
    let f0 = c[idx];
    let f1 = c[idx + 1];
    let fg_type = f0 & 3;
    let bg_type = (f0 >> 2u8) & 3;
    let dim = f0 & 32 != 0;
    if f1 & 1 != 0 {
        (
            color_css_spec(bg_type, c[idx + 5], c[idx + 6], c[idx + 7], "#000"@, dim),
            color_css_spec(fg_type, c[idx + 2], c[idx + 3], c[idx + 4], "#ccc"@, false),
        )
    } else {
        (
            color_css_spec(fg_type, c[idx + 2], c[idx + 3], c[idx + 4], "#ccc"@, dim),
            color_css_spec(bg_type, c[idx + 5], c[idx + 6], c[idx + 7], "#000"@, false),
        )
    }
}

/// The content of the cell whose bytes start at `idx`, a space when it
/// has none or it is not valid UTF-8.
pub open spec fn cell_content(c: Seq<u8>, idx: int) -> Seq<char> {
    let len = ((c[idx + 1] >> 3u8) & 7) as int;
    let bs = c.subrange(idx + 8, idx + 8 + len);
    if len > 0 && valid_utf8(bs) {
        decode_utf8(bs)
    } else {
        seq![' ']
    }
}

/// Content as HTML, in a styled `span` when its colours are not the
/// defaults or it is bold, italic or underlined.
pub open spec fn styled_html(fg: Seq<char>, bg: Seq<char>, bold: bool, italic: bool, underline: bool, ch: Seq<char>) -> Seq<char> {
    if fg != "#ccc"@ || bg != "#000"@ || bold || italic || underline {
        "<span style=\""@ + cell_style(fg, bg, bold, italic, underline) + "\">"@ + html_escaped(ch)
            + "</span>"@
    } else {
        html_escaped(ch)
    }
}

/// The HTML of the cell whose bytes start at `idx`: nothing for the
/// continuation of a wide character, else its styled content.
pub open spec fn cell_html(c: Seq<u8>, idx: int) -> Seq<char> {
    let f0 = c[idx];
    if c[idx + 1] & 4 != 0 {
        seq![]
    } else {
        let (fg, bg) = cell_fg_bg(c, idx);
        styled_html(fg, bg, f0 & 16 != 0, f0 & 64 != 0, f0 & 128 != 0, cell_content(c, idx))
    }
}

/// The HTML of the cells `c0` up to (not including) `c` of a row.
pub open spec fn cells_html(g: GridView, row: int, c0: int, c: int) -> Seq<char>
    decreases c - c0,
{
    if c <= c0 {
        seq![]
    } else {
        cells_html(g, row, c0, c - 1) + cell_html(g.cells, cell_index(g, row, c - 1))
    }
}

/// The HTML lines of the rows `sr` up to (not including) `r` of a
/// selection, each without trailing white space, separated by line feeds.
pub open spec fn rows_html(g: GridView, sr: u16, sc: u16, er: u16, ec: u16, r: int) -> Seq<char>
    decreases r - sr,
{
    if r <= sr {
        seq![]
    } else {
        let row = r - 1;
        let (c0, c1) = row_cols(g, row, sr, sc, er, ec);
        rows_html(g, sr, sc, er, ec, r - 1) + crate::text::trim_end(cells_html(g, row, c0, c1 + 1))
            + if row < last_row(g, er) {
            seq!['\n']
        } else {
            seq![]
        }
    }
}

/// The `pre` element that opens the HTML of a selection.
pub open spec fn html_open() -> Seq<char> {
    "<pre style=\"font-family:ui-monospace,monospace;background:#000;color:#ccc;padding:4px\">"@
}

fn push_escaped(out: &mut Vec<char>, ch: &[char])
    ensures
        final(out)@ == old(out)@ + html_escaped(ch@),
{
    if crate::text::chars_eq_str(ch, "&") {
        append_str(out, "&amp;");
    } else if crate::text::chars_eq_str(ch, "<") {
        append_str(out, "&lt;");
    } else if crate::text::chars_eq_str(ch, ">") {
        append_str(out, "&gt;");
    } else {
        append_chars(out, ch);
    }
}

fn cell_fg_bg_exec(c: &Vec<u8>, idx: usize) -> (r: (String, String))
    requires
        idx + 12 <= c@.len(),
    ensures
        (r.0@, r.1@) == cell_fg_bg(c@, idx as int),
{
    let n = c.len();
    let f0 = c[idx];
    let f1 = c[idx + 1];
    let fg_type = f0 & 3;
    let bg_type = (f0 >> 2u8) & 3;
    let dim = f0 & 32 != 0;
    if f1 & 1 != 0 {
        (
            color_css(bg_type, c[idx + 5], c[idx + 6], c[idx + 7], "#000", dim),
            color_css(fg_type, c[idx + 2], c[idx + 3], c[idx + 4], "#ccc", false),
        )
    } else {
        (
            color_css(fg_type, c[idx + 2], c[idx + 3], c[idx + 4], "#ccc", dim),
            color_css(bg_type, c[idx + 5], c[idx + 6], c[idx + 7], "#000", false),
        )
    }
}

fn cell_content_exec(c: &Vec<u8>, idx: usize) -> (r: Vec<char>)
    requires
        idx + 12 <= c@.len(),
        idx + 8 + ((c@[idx + 1] >> 3u8) & 7) <= c@.len(),
    ensures
        r@ == cell_content(c@, idx as int),
{
    let n = c.len();
    let f1 = c[idx + 1];
    let clen = ((f1 >> 3u8) & 7) as usize;
    assert(clen <= 7) by (bit_vector)
        requires
            clen == (f1 >> 3u8) & 7,
    ;
    if clen == 0 {
        return vec![' '];
    }
    let mut bs: Vec<u8> = Vec::new();
    let mut k: usize = 0;
    while k < clen
        invariant
            k <= clen,
            n == c@.len(),
            idx + 8 + clen <= c@.len(),
            bs@ == c@.subrange(idx + 8, idx + 8 + k),
        decreases clen - k,
    {
        bs.push(c[idx + 8 + k]);
        assert(c@.subrange(idx + 8, idx + 8 + k + 1) =~= c@.subrange(idx + 8, idx + 8 + k).push(
            c@[idx + 8 + k],
        ));
        k += 1;
    }
    match utf8_text(bs.as_slice()) {
        Some(t) => chars_of(t.as_str()),
        None => vec![' '],
    }
}

fn push_decl(out: &mut Vec<char>, on: bool, decl: &str)
    ensures
        final(out)@ == old(out)@ + flag_decl(on, decl@),
{
    if on {
        append_str(out, decl);
    } else {
        assert(old(out)@ + flag_decl(on, decl@) =~= old(out)@);
    }
}

fn push_color_decl(out: &mut Vec<char>, name: &str, c: &[char], plain: bool)
    ensures
        final(out)@ == old(out)@ + (if !plain {
            name@ + c@ + ";"@
        } else {
            seq![]
        }),
{
    if !plain {
        let ghost s0 = out@;
        append_str(out, name);
        append_chars(out, c);
        append_str(out, ";");
        assert(out@ =~= s0 + (name@ + c@ + ";"@));
    } else {
        assert(old(out)@ + Seq::<char>::empty() =~= old(out)@);
    }
}

#[verifier::rlimit(40)]
fn push_style(out: &mut Vec<char>, fg: &[char], bg: &[char], fg_plain: bool, bg_plain: bool, bold: bool, italic: bool, underline: bool)
    requires
        fg_plain == (fg@ == "#ccc"@),
        bg_plain == (bg@ == "#000"@),
    ensures
        final(out)@ == old(out)@ + cell_style(fg@, bg@, bold, italic, underline),
{
    let ghost s0 = out@;
    let ghost p1 = fg_decl(fg@);
    let ghost p2 = bg_decl(bg@);
    let ghost p3 = flag_decl(bold, "font-weight:bold;"@);
    let ghost p4 = flag_decl(italic, "font-style:italic;"@);
    let ghost p5 = flag_decl(underline, "text-decoration:underline;"@);
    push_color_decl(out, "color:", fg, fg_plain);
    assert(out@ == s0 + p1);
    push_color_decl(out, "background:", bg, bg_plain);
    assert(out@ == s0 + p1 + p2);
    push_decl(out, bold, "font-weight:bold;");
    push_decl(out, italic, "font-style:italic;");
    push_decl(out, underline, "text-decoration:underline;");
    assert(out@ =~= s0 + (p1 + p2 + p3 + p4 + p5));
}

fn styled_html_exec(fg: &[char], bg: &[char], bold: bool, italic: bool, underline: bool, ch: &[char]) -> (r: Vec<char>)
    ensures
        r@ == styled_html(fg@, bg@, bold, italic, underline, ch@),
{
    let mut out: Vec<char> = Vec::new();
    let fg_plain = crate::text::chars_eq_str(fg, "#ccc");
    let bg_plain = crate::text::chars_eq_str(bg, "#000");
    if !fg_plain || !bg_plain || bold || italic || underline {
        append_str(&mut out, "<span style=\"");
        push_style(&mut out, fg, bg, fg_plain, bg_plain, bold, italic, underline);
        append_str(&mut out, "\">");
        push_escaped(&mut out, ch);
        append_str(&mut out, "</span>");
    } else {
        push_escaped(&mut out, ch);
    }
    out
}

fn cell_html_exec(c: &Vec<u8>, idx: usize) -> (r: Vec<char>)
    requires
        idx + 12 <= c@.len(),
        c@[idx + 1] & 4 == 0 ==> idx + 8 + ((c@[idx + 1] >> 3u8) & 7) <= c@.len(),
    ensures
        r@ == cell_html(c@, idx as int),
{
    let n = c.len();
    let f0 = c[idx];
    let f1 = c[idx + 1];
    if f1 & 4 != 0 {
        return Vec::new();
    }
    let (fg, bg) = cell_fg_bg_exec(c, idx);
    let ch = cell_content_exec(c, idx);
    styled_html_exec(
        chars_of(fg.as_str()).as_slice(),
        chars_of(bg.as_str()).as_slice(),
        f0 & 16 != 0,
        f0 & 64 != 0,
        f0 & 128 != 0,
        ch.as_slice(),
    )
}

impl TerminalGrid {
    /// The HTML of a selection, from (`start_row`, `start_col`) to
    /// (`end_row`, `end_col`), clipped to the grid: a `pre` element with
    /// one line per row.
    pub fn get_html(&self, start_row: u16, start_col: u16, end_row: u16, end_col: u16) -> (r: String)
        requires
            self@.rows >= 1,
            start_row as int <= last_row(self@, end_row) ==> self@.cols >= 1,
            !overreads(self@, start_row, start_col, end_row, end_col),
        ensures
            r@ == html_open() + rows_html(self@, start_row, start_col, end_row, end_col, last_row(self@, end_row) + 1)
                + "</pre>"@,
    {
        proof {
            use_type_invariant(self);
        }
        let ghost g = self@;
        let last: u16 = if end_row <= self.rows - 1 {
            end_row
        } else {
            self.rows - 1
        };
        let mut html: Vec<char> = Vec::new();
        append_str(&mut html, "<pre style=\"font-family:ui-monospace,monospace;background:#000;color:#ccc;padding:4px\">");
        let ghost head = html@;
        let mut result: Vec<char> = Vec::new();
        if start_row <= last {
            let nbytes = self.cells.len();
            let mut row: u16 = start_row;
            loop
                invariant_except_break
                    result@ == rows_html(g, start_row, start_col, end_row, end_col, row as int),
                invariant
                    nbytes == self.cells@.len(),
                    g == self@,
                    start_row <= row <= last,
                    last == last_row(g, end_row),
                    g.rows >= 1,
                    g.cols >= 1,
                    last <= g.rows - 1,
                    self.cells@.len() == cell_count(g.rows, g.cols) * 12,
                    !overreads(g, start_row, start_col, end_row, end_col),
                ensures
                    result@ == rows_html(g, start_row, start_col, end_row, end_col, last + 1),
                decreases last - row,
            {
                let c0: u16 = if row == start_row {
                    start_col
                } else {
                    0
                };
                let c1a: u16 = if row == end_row {
                    end_col
                } else {
                    self.cols - 1
                };
                let c1: u16 = if c1a <= self.cols - 1 {
                    c1a
                } else {
                    self.cols - 1
                };
                assert((c0 as int, c1 as int) == row_cols(g, row as int, start_row, start_col, end_row, end_col));
                let mut line: Vec<char> = Vec::new();
                let mut col: u16 = c0;
                while col <= c1
                    invariant
                        g == self@,
                        nbytes == self.cells@.len(),
                        c0 <= col,
                        col <= c1 + 1 || col == c0,
                        c1 <= g.cols - 1,
                        row <= last,
                        last <= g.rows - 1,
                        row_cols(g, row as int, start_row, start_col, end_row, end_col) == (c0 as int, c1 as int),
                        start_row <= row,
                        last == last_row(g, end_row),
                        self.cells@.len() == cell_count(g.rows, g.cols) * 12,
                        !overreads(g, start_row, start_col, end_row, end_col),
                        line@ == cells_html(g, row as int, c0 as int, col as int),
                    decreases c1 + 1 - col,
                {
                    proof {
                        lemma_cell_bounds(g.rows as int, g.cols as int, row as int, col as int);
                    }
                    assert((row as int * g.cols as int + col as int) * 12 + 12 <= cell_count(g.rows, g.cols) * 12);
                    let idx = (row as usize * self.cols as usize + col as usize) * 12;
                    assert(self.cells@[idx + 1] & 4 == 0 ==> idx + 8 + ((self.cells@[idx + 1] >> 3u8) & 7)
                        <= self.cells@.len()) by {
                        let f1 = self.cells@[idx + 1];
                        assert((f1 >> 3u8) & 7 <= 7) by (bit_vector);
                        if idx + 8 + ((f1 >> 3u8) & 7) > self.cells@.len() {
                            assert(row == g.rows - 1 && col == g.cols - 1);
                        }
                    }
                    let piece = cell_html_exec(&self.cells, idx);
                    append_chars(&mut line, piece.as_slice());
                    assert(line@ =~= cells_html(g, row as int, c0 as int, col + 1));
                    col += 1;
                }
                assert(line@ == cells_html(g, row as int, c0 as int, c1 + 1)) by {
                    if c1 + 1 < c0 {
                        assert(cells_html(g, row as int, c0 as int, c1 + 1) =~= Seq::<char>::empty());
                    }
                }
                let trimmed_end = trim_end_chars(line.as_slice());
                append_chars(&mut result, trimmed_end.as_slice());
                if row < last {
                    result.push('\n');
                    assert(result@ =~= rows_html(g, start_row, start_col, end_row, end_col, row + 1));
                    row += 1;
                } else {
                    assert(result@ =~= rows_html(g, start_row, start_col, end_row, end_col, row + 1));
                    break;
                }
            }
        }
        append_chars(&mut html, result.as_slice());
        append_str(&mut html, "</pre>");
        string_of(html.as_slice())
    }
}

// ───────────────────────────── painting ─────────────────────────────

/// A canvas operation of a repaint, in cell units.
#[derive(Debug, PartialEq)]
pub enum PaintOp {
    /// Fill the whole canvas with the current fill.
    FillAll,
    /// Set the fill to a cell colour.
    SetFill(CellColor),
    /// Set the fill to the translucent cursor colour.
    SetCursorFill,
    /// Fill the cell at (`row`, `col`) with the current fill; two cells wide when `wide`.
    Rect { row: u16, col: u16, wide: bool },
    /// Switch the font's weight and slant.
    Font { bold: bool, italic: bool },
    /// Draw `text` in the cell at (`row`, `col`), clipped to it, in the
    /// current fill; underlined in the given colour when there is one.
    Text { row: u16, col: u16, wide: bool, text: String, underline: Option<CellColor> },
}

/// What a paint operation says, its text as characters.
pub enum PaintOpV {
    FillAll,
    SetFill(CellColor),
    SetCursorFill,
    Rect { row: u16, col: u16, wide: bool },
    Font { bold: bool, italic: bool },
    Text { row: u16, col: u16, wide: bool, text: Seq<char>, underline: Option<CellColor> },
}

/// The view of one operation.
pub open spec fn op_view(op: PaintOp) -> PaintOpV {
    match op {
        PaintOp::FillAll => PaintOpV::FillAll,
        PaintOp::SetFill(c) => PaintOpV::SetFill(c),
        PaintOp::SetCursorFill => PaintOpV::SetCursorFill,
        PaintOp::Rect { row, col, wide } => PaintOpV::Rect { row, col, wide },
        PaintOp::Font { bold, italic } => PaintOpV::Font { bold, italic },
        PaintOp::Text { row, col, wide, text, underline } => PaintOpV::Text { row, col, wide, text: text@, underline },
    }
}

/// The views of a run of operations.
pub open spec fn ops_view(ops: Seq<PaintOp>) -> Seq<PaintOpV> {
    ops.map_values(|o: PaintOp| op_view(o))
}

/// What the painter knows of the canvas: whether the fill is a known
/// colour and which (packed), and the font's weight and slant.
#[derive(Clone, Copy, Debug, PartialEq, Eq, Structural)]
pub struct PaintState {
    pub fill_known: bool,
    pub fill_packed: u32,
    pub bold: bool,
    pub italic: bool,
}

/// A colour packed as `pack` packs it.
pub open spec fn color_pack(c: CellColor) -> u32 {
    ((if c.is_default {
        16777216int
    } else {
        0int
    }) + c.r as int * 65536 + c.g as int * 256 + c.b as int) as u32
}

/// Sets the fill to `c` unless it is known to be `c` already.
pub open spec fn use_fill(st: PaintState, c: CellColor) -> (Seq<PaintOpV>, PaintState) {
    if !st.fill_known || st.fill_packed != color_pack(c) {
        (seq![PaintOpV::SetFill(c)], PaintState { fill_known: true, fill_packed: color_pack(c), ..st })
    } else {
        (seq![], st)
    }
}

/// The length of a cell's content.
pub open spec fn content_len(c: Seq<u8>, idx: int) -> int {
    ((c[idx + 1] >> 3u8) & 7) as int
}

/// The text a cell draws: its content when that is valid UTF-8, else nothing.
pub open spec fn drawn_text(c: Seq<u8>, idx: int) -> Seq<char> {
    let bs = c.subrange(idx + 8, idx + 8 + content_len(c, idx));
    if valid_utf8(bs) {
        decode_utf8(bs)
    } else {
        seq![]
    }
}

/// The foreground of the cell whose bytes start at `idx` (inverse swaps).
pub open spec fn cell_fg(c: Seq<u8>, idx: int) -> CellColor {
    let f0 = c[idx];
    let dim = f0 & 32 != 0;
    if c[idx + 1] & 1 != 0 {
        resolve_color((f0 >> 2u8) & 3, c[idx + 5], c[idx + 6], c[idx + 7], false, dim)
    } else {
        resolve_color(f0 & 3, c[idx + 2], c[idx + 3], c[idx + 4], true, dim)
    }
}

/// The background of the cell whose bytes start at `idx` (inverse swaps).
pub open spec fn cell_bg(c: Seq<u8>, idx: int) -> CellColor {
    let f0 = c[idx];
    if c[idx + 1] & 1 != 0 {
        resolve_color(f0 & 3, c[idx + 2], c[idx + 3], c[idx + 4], true, false)
    } else {
        resolve_color((f0 >> 2u8) & 3, c[idx + 5], c[idx + 6], c[idx + 7], false, false)
    }
}

/// On a partial repaint, clear the cell to black.
pub open spec fn clear_step(full: bool, st: PaintState, row: u16, col: u16, wide: bool) -> (Seq<PaintOpV>, PaintState) {
    if !full {
        let (x, s) = use_fill(st, default_bg());
        (x.push(PaintOpV::Rect { row, col, wide }), s)
    } else {
        (seq![], st)
    }
}

/// Fill in a background other than black.
pub open spec fn bg_step(st: PaintState, bg: CellColor, row: u16, col: u16, wide: bool) -> (Seq<PaintOpV>, PaintState) {
    if !(bg == default_bg() || bg == dim_bg()) {
        let (x, s) = use_fill(st, bg);
        (x.push(PaintOpV::Rect { row, col, wide }), s)
    } else {
        (seq![], st)
    }
}

/// Draw the cursor over its cell when it is visible; the fill is then
/// no longer known.
pub open spec fn cursor_step(g: GridView, st: PaintState, row: u16, col: u16) -> (Seq<PaintOpV>, PaintState) {
    if g.mode & 1 != 0 && g.cursor_row == row && g.cursor_col == col {
        (seq![PaintOpV::SetCursorFill, PaintOpV::Rect { row, col, wide: false }], PaintState { fill_known: false, ..st })
    } else {
        (seq![], st)
    }
}

/// Draw content other than nothing or a space in the foreground, switching
/// the font first when needed.
pub open spec fn text_step(
    st: PaintState,
    has_content: bool,
    text: Seq<char>,
    bold: bool,
    italic: bool,
    underline: bool,
    fg: CellColor,
    row: u16,
    col: u16,
    wide: bool,
) -> (Seq<PaintOpV>, PaintState) {
    if has_content && text.len() > 0 && text != " "@ {
        let (fa, fs) = if bold != st.bold || italic != st.italic {
            (seq![PaintOpV::Font { bold, italic }], PaintState { bold, italic, ..st })
        } else {
            (seq![], st)
        };
        let (ca, cs) = use_fill(fs, fg);
        (
            fa + ca + seq![
                PaintOpV::Text {
                    row,
                    col,
                    wide,
                    text,
                    underline: if underline {
                        Some(fg)
                    } else {
                        None
                    },
                },
            ],
            cs,
        )
    } else {
        (seq![], st)
    }
}

/// The operations that repaint cell `i` and the painter's state after
/// them. On a partial repaint the cell is first cleared to black (the
/// continuation of a wide character only that). A background other than
/// black is filled in, the cursor drawn over its cell when visible, and
/// content other than nothing or a space drawn in the foreground, the font
/// switched first when needed.
#[verifier::opaque]
pub open spec fn paint_cell(g: GridView, i: int, full: bool, st: PaintState) -> (Seq<PaintOpV>, PaintState) {
    let row = (i / g.cols as int) as u16;
    let col = (i % g.cols as int) as u16;
    let idx = i * 12;
    let c = g.cells;
    let f0 = c[idx];
    let f1 = c[idx + 1];
    if f1 & 4 != 0 {
        clear_step(full, st, row, col, false)
    } else {
        let wide = f1 & 2 != 0;
        let (a1, s1) = clear_step(full, st, row, col, wide);
        let (a2, s2) = bg_step(s1, cell_bg(c, idx), row, col, wide);
        let (a3, s3) = cursor_step(g, s2, row, col);
        let (a4, s4) = text_step(
            s3,
            content_len(c, idx) > 0,
            drawn_text(c, idx),
            f0 & 16 != 0,
            f0 & 64 != 0,
            f0 & 128 != 0,
            cell_fg(c, idx),
            row,
            col,
            wide,
        );
        (a1 + a2 + a3 + a4, s4)
    }
}

/// The operations for the first `n` cells, each cell repainted when the
/// whole grid is or when it is marked.
pub open spec fn paint_cells(g: GridView, n: int, full: bool, st0: PaintState) -> (Seq<PaintOpV>, PaintState)
    decreases n,
{
    if n <= 0 {
        (seq![], st0)
    } else {
        let (ops, st) = paint_cells(g, n - 1, full, st0);
        if full || g.dirty[n - 1] {
            let (more, st2) = paint_cell(g, n - 1, full, st);
            (ops + more, st2)
        } else {
            (ops, st)
        }
    }
}

/// The painter's state at the start of a repaint.
pub open spec fn paint_start(full: bool) -> PaintState {
    PaintState { fill_known: full, fill_packed: color_pack(default_bg()), bold: false, italic: false }
}

/// A repaint: a full one first clears the canvas to black; then the plain
/// font, then each cell to repaint in order.
pub open spec fn paint_plan(g: GridView) -> Seq<PaintOpV> {
    let head = if g.all_dirty {
        seq![PaintOpV::SetFill(default_bg()), PaintOpV::FillAll]
    } else {
        seq![]
    };
    head + seq![PaintOpV::Font { bold: false, italic: false }] + paint_cells(
        g,
        cell_count(g.rows, g.cols),
        g.all_dirty,
        paint_start(g.all_dirty),
    ).0
}

/// Whether a cell to repaint claims more content than the grid holds.
pub open spec fn paint_overreads(g: GridView) -> bool {
    exists|i: int|
        0 <= i < cell_count(g.rows, g.cols) && (g.all_dirty || g.dirty[i]) && g.cells[i * 12 + 1] & 4 == 0 && i * 12 + 8
            + content_len(g.cells, i * 12) > g.cells.len()
}

/// Sets the fill to `c` unless it is known to be `c` already.
fn use_fill_exec(st: PaintState, c: CellColor, ops: &mut Vec<PaintOp>) -> (r: PaintState)
    ensures
        ops_view(final(ops)@) == ops_view(old(ops)@) + use_fill(st, c).0,
        r == use_fill(st, c).1,
{
    let p = c.pack();
    if !st.fill_known || st.fill_packed != p {
        ops.push(PaintOp::SetFill(c));
        assert(ops_view(ops@) =~= ops_view(old(ops)@) + use_fill(st, c).0);
        PaintState { fill_known: true, fill_packed: p, ..st }
    } else {
        assert(ops_view(ops@) =~= ops_view(old(ops)@) + use_fill(st, c).0);
        st
    }
}

/// Pushes one operation.
fn push_op(ops: &mut Vec<PaintOp>, op: PaintOp)
    ensures
        ops_view(final(ops)@) == ops_view(old(ops)@).push(op_view(op)),
{
    ops.push(op);
    assert(ops_view(ops@) =~= ops_view(old(ops)@).push(op_view(op)));
}

/// The characters of an optional text; none when there is no text.
pub open spec fn opt_text(o: Option<String>) -> Seq<char> {
    match o {
        Some(t) => t@,
        None => Seq::<char>::empty(),
    }
}

/// On a partial repaint, clears the cell to black.
fn clear_exec(full: bool, st: PaintState, row: u16, col: u16, wide: bool, ops: &mut Vec<PaintOp>) -> (r: PaintState)
    ensures
        ops_view(final(ops)@) == ops_view(old(ops)@) + clear_step(full, st, row, col, wide).0,
        r == clear_step(full, st, row, col, wide).1,
{
    if !full {
        let s = use_fill_exec(st, CellColor { r: 0, g: 0, b: 0, is_default: true }, ops);
        push_op(ops, PaintOp::Rect { row, col, wide });
        assert(ops_view(ops@) =~= ops_view(old(ops)@) + clear_step(full, st, row, col, wide).0);
        s
    } else {
        assert(ops_view(ops@) =~= ops_view(old(ops)@) + clear_step(full, st, row, col, wide).0);
        st
    }
}

/// Fills in a background other than black.
fn bg_exec(st: PaintState, bg: CellColor, row: u16, col: u16, wide: bool, ops: &mut Vec<PaintOp>) -> (r: PaintState)
    ensures
        ops_view(final(ops)@) == ops_view(old(ops)@) + bg_step(st, bg, row, col, wide).0,
        r == bg_step(st, bg, row, col, wide).1,
{
    let black = bg == (CellColor { r: 0, g: 0, b: 0, is_default: true }) || bg == (CellColor {
        r: 0,
        g: 0,
        b: 0,
        is_default: false,
    });
    if !black {
        let s = use_fill_exec(st, bg, ops);
        push_op(ops, PaintOp::Rect { row, col, wide });
        assert(ops_view(ops@) =~= ops_view(old(ops)@) + bg_step(st, bg, row, col, wide).0);
        s
    } else {
        assert(ops_view(ops@) =~= ops_view(old(ops)@) + bg_step(st, bg, row, col, wide).0);
        st
    }
}

/// Draws content other than nothing or a space, switching the font first
/// when needed. `text` is the content when it is valid UTF-8.
fn text_exec(
    st: PaintState,
    has_content: bool,
    text: Option<String>,
    bold: bool,
    italic: bool,
    underline: bool,
    fg: CellColor,
    row: u16,
    col: u16,
    wide: bool,
    ops: &mut Vec<PaintOp>,
) -> (r: PaintState)
    ensures
        ops_view(final(ops)@) == ops_view(old(ops)@) + text_step(
            st,
            has_content,
            opt_text(text),
            bold,
            italic,
            underline,
            fg,
            row,
            col,
            wide,
        ).0,
        r == text_step(
            st,
            has_content,
            opt_text(text),
            bold,
            italic,
            underline,
            fg,
            row,
            col,
            wide,
        ).1,
{
    let ghost tv = opt_text(text);
    let ghost start = ops_view(ops@);
    if !has_content {
        assert(ops_view(ops@) =~= start + text_step(st, has_content, tv, bold, italic, underline, fg, row, col, wide).0);
        return st;
    }
    match text {
        None => {
            assert(ops_view(ops@) =~= start + text_step(st, has_content, tv, bold, italic, underline, fg, row, col, wide).0);
            st
        },
        Some(t) => {
            let v = chars_of(t.as_str());
            proof {
                reveal_strlit(" ");
            }
            let is_space = v.len() == 1 && v[0] == ' ';
            proof {
                if is_space {
                    assert(tv =~= " "@);
                } else if tv.len() == 1 {
                    assert(" "@[0] == ' ');
                    assert(tv != " "@);
                }
            }
            if v.len() > 0 && !is_space {
                let mut s = st;
                if bold != s.bold || italic != s.italic {
                    push_op(ops, PaintOp::Font { bold, italic });
                    s = PaintState { bold, italic, ..s };
                }
                let ghost mid = ops_view(ops@);
                s = use_fill_exec(s, fg, ops);
                let underline_color = if underline {
                    Some(fg)
                } else {
                    None
                };
                push_op(ops, PaintOp::Text { row, col, wide, text: t, underline: underline_color });
                assert(ops_view(ops@) =~= start + text_step(st, has_content, tv, bold, italic, underline, fg, row, col, wide).0);
                s
            } else {
                assert(ops_view(ops@) =~= start + text_step(st, has_content, tv, bold, italic, underline, fg, row, col, wide).0);
                st
            }
        },
    }
}

/// Appending four runs one after another appends their concatenation.
proof fn lemma_concat4(
    s0: Seq<PaintOpV>,
    a1: Seq<PaintOpV>,
    a2: Seq<PaintOpV>,
    a3: Seq<PaintOpV>,
    a4: Seq<PaintOpV>,
    o1: Seq<PaintOpV>,
    o2: Seq<PaintOpV>,
    o3: Seq<PaintOpV>,
    o4: Seq<PaintOpV>,
)
    requires
        o1 == s0 + a1,
        o2 == o1 + a2,
        o3 == o2 + a3,
        o4 == o3 + a4,
    ensures
        o4 == s0 + (a1 + a2 + a3 + a4),
{
    assert(o4 =~= s0 + (a1 + a2 + a3 + a4));
}

/// A cell that is no wide continuation repaints in four steps.
proof fn lemma_paint_cell_main(g: GridView, i: int, full: bool, st: PaintState, row: u16, col: u16, idx: int)
    requires
        row == (i / g.cols as int) as u16,
        col == (i % g.cols as int) as u16,
        idx == i * 12,
        g.cells[idx + 1] & 4 == 0,
    ensures
        ({
            let c = g.cells;
            let f0 = c[idx];
            let wide = c[idx + 1] & 2 != 0;
            let (a1, s1) = clear_step(full, st, row, col, wide);
            let (a2, s2) = bg_step(s1, cell_bg(c, idx), row, col, wide);
            let (a3, s3) = cursor_step(g, s2, row, col);
            let (a4, s4) = text_step(
                s3,
                content_len(c, idx) > 0,
                drawn_text(c, idx),
                f0 & 16 != 0,
                f0 & 64 != 0,
                f0 & 128 != 0,
                cell_fg(c, idx),
                row,
                col,
                wide,
            );
            paint_cell(g, i, full, st) == (a1 + a2 + a3 + a4, s4)
        }),
{
    reveal(paint_cell);
}

/// The foreground and background of the cell whose bytes start at `idx`.
fn cell_colors(c: &Vec<u8>, idx: usize) -> (r: (CellColor, CellColor))
    requires
        idx + 12 <= c@.len(),
    ensures
        r == (cell_fg(c@, idx as int), cell_bg(c@, idx as int)),
{
    let n = c.len();
    let f0 = c[idx];
    let f1 = c[idx + 1];
    let dim = f0 & 32 != 0;
    if f1 & 1 != 0 {
        (
            CellColor::resolve((f0 >> 2u8) & 3, c[idx + 5], c[idx + 6], c[idx + 7], false, dim),
            CellColor::resolve(f0 & 3, c[idx + 2], c[idx + 3], c[idx + 4], true, false),
        )
    } else {
        (
            CellColor::resolve(f0 & 3, c[idx + 2], c[idx + 3], c[idx + 4], true, dim),
            CellColor::resolve((f0 >> 2u8) & 3, c[idx + 5], c[idx + 6], c[idx + 7], false, false),
        )
    }
}

impl TerminalGrid {
    /// The content bytes of the cell whose bytes start at `idx`, as text
    /// when they are valid UTF-8.
    fn content_text(&self, idx: usize, clen: usize) -> (r: Option<String>)
        requires
            clen == content_len(self@.cells, idx as int),
            idx + 8 + clen <= self@.cells.len(),
        ensures
            clen > 0 ==> match r {
                Some(t) => t@ == drawn_text(self@.cells, idx as int),
                None => drawn_text(self@.cells, idx as int).len() == 0,
            },
    {
        let c = &self.cells;
        let n = c.len();
        let mut bs: Vec<u8> = Vec::new();
        let mut k: usize = 0;
        while k < clen
            invariant
                k <= clen,
                n == c@.len(),
                idx + 8 + clen <= c@.len(),
                bs@ == c@.subrange(idx + 8, idx + 8 + k),
            decreases clen - k,
        {
            bs.push(c[idx + 8 + k]);
            assert(c@.subrange(idx + 8, idx + 8 + k + 1) =~= c@.subrange(idx + 8, idx + 8 + k).push(c@[idx + 8 + k]));
            k += 1;
        }
        utf8_text(bs.as_slice())
    }

    /// The operations that repaint cell `i`, appended to `ops`; returns the
    /// painter's state after them.
    fn paint_cell_exec(&self, i: usize, full: bool, st: PaintState, ops: &mut Vec<PaintOp>) -> (r: PaintState)
        requires
            i < cell_count(self@.rows, self@.cols),
            self@.cells[i * 12 + 1] & 4 == 0 ==> i * 12 + 8 + content_len(self@.cells, i * 12) <= self@.cells.len(),
        ensures
            ops_view(final(ops)@) == ops_view(old(ops)@) + paint_cell(self@, i as int, full, st).0,
            r == paint_cell(self@, i as int, full, st).1,
    {
        proof {
            use_type_invariant(self);
        }
        let ghost g = self@;
        let ghost start = ops_view(ops@);
        let cols = self.cols as usize;
        assert(i < self.rows as int * cols) by {
            assert(cell_count(self.rows, self.cols) == self.rows as int * self.cols as int);
        }
        assert(i / cols < self.rows) by (nonlinear_arith)
            requires
                i < self.rows as int * cols,
                cols > 0,
        ;
        let row = (i / cols) as u16;
        let col = (i % cols) as u16;
        let n = self.cells.len();
        assert(i * 12 + 12 <= self.cells@.len()) by (nonlinear_arith)
            requires
                i < self.rows as int * cols,
                self.cells@.len() == self.rows as int * cols * 12,
        ;
        let idx = i * 12;
        let f0 = self.cells[idx];
        let f1 = self.cells[idx + 1];
        if f1 & 4 != 0 {
            let r = clear_exec(full, st, row, col, false, ops);
            assert(paint_cell(g, i as int, full, st) == clear_step(full, st, row, col, false)) by {
                reveal(paint_cell);
            }
            return r;
        }
        let wide = f1 & 2 != 0;
        let s1 = clear_exec(full, st, row, col, wide, ops);
        let ghost o1 = ops_view(ops@);
        let (fg, bg) = cell_colors(&self.cells, idx);
        let s2 = bg_exec(s1, bg, row, col, wide, ops);
        let ghost o2 = ops_view(ops@);
        let mut s3 = s2;
        if self.mode & 1 != 0 && self.cursor_row == row && self.cursor_col == col {
            push_op(ops, PaintOp::SetCursorFill);
            push_op(ops, PaintOp::Rect { row, col, wide: false });
            s3 = PaintState { fill_known: false, ..s2 };
        }
        assert(ops_view(ops@) =~= o2 + cursor_step(g, s2, row, col).0);
        assert(s3 == cursor_step(g, s2, row, col).1);
        let ghost o3 = ops_view(ops@);
        let clen = ((f1 >> 3u8) & 7) as usize;
        let text = if clen > 0 {
            self.content_text(idx, clen)
        } else {
            None
        };
        let ghost tv = opt_text(text);
        let ghost dt = drawn_text(g.cells, idx as int);
        let s4 = text_exec(s3, clen > 0, text, f0 & 16 != 0, f0 & 64 != 0, f0 & 128 != 0, fg, row, col, wide, ops);
        proof {
            let o4 = ops_view(ops@);
            let a1 = clear_step(full, st, row, col, wide).0;
            let a2 = bg_step(s1, bg, row, col, wide).0;
            let a3 = cursor_step(g, s2, row, col).0;
            let ta = text_step(s3, clen > 0, tv, f0 & 16 != 0, f0 & 64 != 0, f0 & 128 != 0, fg, row, col, wide);
            let tb = text_step(s3, clen > 0, dt, f0 & 16 != 0, f0 & 64 != 0, f0 & 128 != 0, fg, row, col, wide);
            assert(ta == tb) by {
                if clen > 0 {
                    if tv != dt {
                        assert(tv.len() == 0 && dt.len() == 0);
                        assert(tv =~= dt);
                    }
                }
            }
            lemma_concat4(start, a1, a2, a3, ta.0, o1, o2, o3, o4);
            lemma_paint_cell_main(g, i as int, full, st, row, col, idx as int);
        }
        s4
    }
}

/// `n` copies of `false`.
fn vec_of_falses(n: usize) -> (r: Vec<bool>)
    ensures
        r@ == Seq::new(n as nat, |j: int| false),
{
    let mut v: Vec<bool> = Vec::new();
    let mut i: usize = 0;
    while i < n
        invariant
            i <= n,
            v@ == Seq::new(i as nat, |j: int| false),
        decreases n - i,
    {
        v.push(false);
        assert(v@ =~= Seq::new((i + 1) as nat, |j: int| false));
        i += 1;
    }
    v
}

impl TerminalGrid {
    /// The canvas operations of a repaint, in order, in cell units.
    fn paint_ops(&self) -> (r: Vec<PaintOp>)
        requires
            !paint_overreads(self@),
        ensures
            ops_view(r@) == paint_plan(self@),
    {
        proof {
            use_type_invariant(self);
        }
        let ghost g0 = self@;
        let full = self.all_dirty;
        let black = CellColor { r: 0, g: 0, b: 0, is_default: true };
        let mut ops: Vec<PaintOp> = Vec::new();
        if full {
            push_op(&mut ops, PaintOp::SetFill(black));
            push_op(&mut ops, PaintOp::FillAll);
        }
        push_op(&mut ops, PaintOp::Font { bold: false, italic: false });
        let ghost head = ops_view(ops@);
        assert(head =~= (if g0.all_dirty {
            seq![PaintOpV::SetFill(default_bg()), PaintOpV::FillAll]
        } else {
            seq![]
        }) + seq![PaintOpV::Font { bold: false, italic: false }]);
        let mut st = PaintState { fill_known: full, fill_packed: black.pack(), bold: false, italic: false };
        assert(st == paint_start(full));
        let total = self.dirty.len();
        let mut i: usize = 0;
        assert(ops_view(ops@) =~= head + paint_cells(g0, 0, full, paint_start(full)).0);
        while i < total
            invariant
                self@ == g0,
                total == g0.dirty.len(),
                total == cell_count(g0.rows, g0.cols),
                g0.cells.len() == cell_count(g0.rows, g0.cols) * 12,
                full == g0.all_dirty,
                i <= total,
                !paint_overreads(g0),
                ops_view(ops@) == head + paint_cells(g0, i as int, full, paint_start(full)).0,
                st == paint_cells(g0, i as int, full, paint_start(full)).1,
            decreases total - i,
        {
            let ghost pc = paint_cells(g0, i as int, full, paint_start(full));
            if full || self.dirty[i] {
                proof {
                    if g0.cells[i * 12 + 1] & 4 == 0 && i * 12 + 8 + content_len(g0.cells, i * 12) > g0.cells.len() {
                        assert(paint_overreads(g0));
                    }
                }
                st = self.paint_cell_exec(i, full, st, &mut ops);
                proof {
                    assert(ops_view(ops@) =~= head + paint_cells(g0, i + 1, full, paint_start(full)).0);
                }
            } else {
                assert(paint_cells(g0, i + 1, full, paint_start(full)) == pc);
            }
            i += 1;
        }
        assert(ops_view(ops@) =~= paint_plan(g0));
        ops
    }

    /// Repaints what is to be repainted: the canvas operations that do it,
    /// in order, in cell units. Afterwards nothing is marked for repaint.
    pub fn render(&mut self) -> (r: Vec<PaintOp>)
        requires
            !paint_overreads(old(self)@),
        ensures
            ops_view(r@) == paint_plan(old(self)@),
            final(self)@ == (GridView {
                dirty: Seq::new(old(self)@.dirty.len(), |k: int| false),
                all_dirty: false,
                ..old(self)@
            }),
    {
        proof {
            use_type_invariant(&*self);
        }
        let ops = self.paint_ops();
        let mut tmp = TerminalGrid {
            rows: 0,
            cols: 0,
            cells: Vec::new(),
            cursor_row: 0,
            cursor_col: 0,
            mode: 0,
            dirty: Vec::new(),
            all_dirty: true,
        };
        std::mem::swap(&mut tmp, self);
        proof {
            use_type_invariant(&tmp);
        }
        let TerminalGrid { rows, cols, cells, cursor_row, cursor_col, mode, dirty, all_dirty } = tmp;
        let cleared = vec_of_falses(dirty.len());
        *self = grid_of(rows, cols, cells, cursor_row, cursor_col, mode, cleared, false);
        ops
    }
}
/// With no cell marked, the cells of a partial repaint add nothing.
proof fn lemma_paint_nothing_marked(g: GridView, n: int, st: PaintState)
    requires
        0 <= n <= g.dirty.len(),
        forall|k: int| 0 <= k < g.dirty.len() ==> !#[trigger] g.dirty[k],
    ensures
        paint_cells(g, n, false, st) == (Seq::<PaintOpV>::empty(), st),
    decreases n,
{
    if n > 0 {
        lemma_paint_nothing_marked(g, n - 1, st);
    }
}

/// Rendering again right after a render paints nothing: the plan only
/// resets the font.
pub proof fn render_twice_paints_nothing(g: GridView)
    requires
        g.dirty.len() == cell_count(g.rows, g.cols),
    ensures
        paint_plan(
            GridView { dirty: Seq::new(g.dirty.len(), |k: int| false), all_dirty: false, ..g },
        ) == seq![PaintOpV::Font { bold: false, italic: false }],
{
    let h = GridView { dirty: Seq::new(g.dirty.len(), |k: int| false), all_dirty: false, ..g };
    lemma_paint_nothing_marked(h, cell_count(h.rows, h.cols), paint_start(false));
    assert(paint_plan(h) =~= seq![PaintOpV::Font { bold: false, italic: false }]);
}

} // verus!
