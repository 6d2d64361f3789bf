//! The network dashboard's terminal output: it keeps what the screen
//! shows and writes only the cells that changed, with as few cursor moves
//! and attribute changes as it can; and the dashboard's text helpers.
use vstd::prelude::*;
use vstd::utf8::valid_utf8;
use crate::demo::copy_bytes;
use crate::grid::utf8_text;
use crate::text::{chars_of, string_of};

verus! {

// ───────────────────────────── numbers and colours ─────────────────────────────

/// The decimal digits of `n`, as ASCII bytes.
pub open spec fn dec_ascii(n: nat) -> Seq<u8>
    decreases n,
{
    if n < 10 {
        seq![(48 + n) as u8]
    } else {
        dec_ascii(n / 10) + seq![(48 + n % 10) as u8]
    }
}

/// Appends the decimal digits of `value`.
pub fn push_u16(out: &mut Vec<u8>, value: u16)
    ensures
        final(out)@ == old(out)@ + dec_ascii(value as nat),
    decreases value,
{
    if value >= 10 {
        push_u16(out, value / 10);
    }
    out.push(48 + (value % 10) as u8);
    assert(out@ =~= old(out)@ + dec_ascii(value as nat));
}

/// A colour packed in a number: its kind (0 default, 1 palette index,
/// 2 RGB) and its three components, one byte each.
pub open spec fn packed(kind: u8, r: u8, g: u8, b: u8) -> u64 {
    ((kind as u64) << 24u64) | ((r as u64) << 16u64) | ((g as u64) << 8u64) | (b as u64)
}

/// Packs a colour.
pub fn pack_color(kind: u8, r: u8, g: u8, b: u8) -> (p: u64)
    ensures
        p == packed(kind, r, g, b),
        p == kind * 0x1000000 + r * 0x10000 + g * 0x100 + b,
{
    let p = ((kind as u64) << 24u64) | ((r as u64) << 16u64) | ((g as u64) << 8u64) | (b as u64);
    assert(p == kind * 0x1000000 + r * 0x10000 + g * 0x100 + b) by (bit_vector)
        requires
            p == ((kind as u64) << 24u64) | ((r as u64) << 16u64) | ((g as u64) << 8u64) | (b as u64);
    p
}

/// The byte of a packed colour at bit `shift`.
pub open spec fn packed_byte(p: u64, shift: u64) -> u8 {
    ((p >> shift) & 0xff) as u8
}

/// The control sequence that sets the foreground (or background) to a
/// packed colour: a palette index (`38;5;i`), an RGB value (`38;2;r;g;b`),
/// or the default (`39`) for any other kind; `48` and `49` for the
/// background.
pub open spec fn color_sequence(p: u64, is_fg: bool) -> Seq<u8> {
    let kind = packed_byte(p, 24);
    let base: nat = if is_fg {
        38
    } else {
        48
    };
    if kind == 1 {
        seq![27u8, 91u8] + dec_ascii(base) + seq![59u8, 53u8, 59u8] + dec_ascii(packed_byte(p, 16) as nat) + seq![109u8]
    } else if kind == 2 {
        seq![27u8, 91u8] + dec_ascii(base) + seq![59u8, 50u8, 59u8] + dec_ascii(packed_byte(p, 16) as nat)
            + seq![59u8] + dec_ascii(packed_byte(p, 8) as nat) + seq![59u8] + dec_ascii(
            packed_byte(p, 0) as nat,
        ) + seq![109u8]
    } else if is_fg {
        seq![27u8, 91u8, 51u8, 57u8, 109u8]
    } else {
        seq![27u8, 91u8, 52u8, 57u8, 109u8]
    }
}

fn push_bytes(out: &mut Vec<u8>, bytes: &[u8])
    ensures
        final(out)@ == old(out)@ + bytes@,
{
    let mut i: usize = 0;
    while i < bytes.len()
        invariant
            i <= bytes@.len(),
            out@ == old(out)@ + bytes@.take(i as int),
        decreases bytes.len() - i,
    {
        out.push(bytes[i]);
        assert(bytes@.take(i + 1) =~= bytes@.take(i as int).push(bytes@[i as int]));
        i += 1;
    }
    assert(bytes@.take(bytes@.len() as int) =~= bytes@);
}

/// Appends the sequence that sets a colour.
pub fn emit_color(p: u64, is_fg: bool, out: &mut Vec<u8>)
    ensures
        final(out)@ == old(out)@ + color_sequence(p, is_fg),
{
    let kind = ((p >> 24u64) & 0xff) as u8;
    let r = ((p >> 16u64) & 0xff) as u8;
    let g = ((p >> 8u64) & 0xff) as u8;
    let b = (p & 0xff) as u8;
    assert(b == packed_byte(p, 0)) by (bit_vector)
        requires
            b == (p & 0xff) as u8;
    let base: u16 = if is_fg {
        38
    } else {
        48
    };
    if kind == 1 {
        out.push(27);
        out.push(91);
        push_u16(out, base);
        out.push(59);
        out.push(53);
        out.push(59);
        push_u16(out, r as u16);
        out.push(109);
    } else if kind == 2 {
        out.push(27);
        out.push(91);
        push_u16(out, base);
        out.push(59);
        out.push(50);
        out.push(59);
        push_u16(out, r as u16);
        out.push(59);
        push_u16(out, g as u16);
        out.push(59);
        push_u16(out, b as u16);
        out.push(109);
    } else {
        out.push(27);
        out.push(91);
        out.push(if is_fg {
            51
        } else {
            52
        });
        out.push(57);
        out.push(109);
    }
    assert(out@ =~= old(out)@ + color_sequence(p, is_fg));
}


// ───────────────────────────── the renderer ─────────────────────────────

/// What the terminal is known to show: the cells drawn last (a cell is
/// twelve bytes, as in the grid), the size they were drawn at, and the
/// cursor position, colours and attributes in effect (`u16::MAX` and
/// `u64::MAX` for unknown).
pub struct AnsiRenderer {
    pub prev_cells: Vec<u8>,
    pub prev_rows: u16,
    pub prev_cols: u16,
    pub cur_row: u16,
    pub cur_col: u16,
    pub cur_fg: u64,
    pub cur_bg: u64,
    pub cur_attrs: u8,
    pub attrs_known: bool,
}

/// The terminal's cursor and pen: position, colours and attributes.
pub struct Pen {
    pub row: u16,
    pub col: u16,
    pub fg: u64,
    pub bg: u64,
    pub attrs: u8,
    pub known: bool,
}

/// The pen of a renderer.
pub open spec fn pen_of(r: AnsiRenderer) -> Pen {
    Pen {
        row: r.cur_row,
        col: r.cur_col,
        fg: r.cur_fg,
        bg: r.cur_bg,
        attrs: r.cur_attrs,
        known: r.attrs_known,
    }
}

/// `a + b`, at most `u16::MAX`.
pub open spec fn sat_add16(a: u16, b: u16) -> u16 {
    if a + b > 65535 {
        65535
    } else {
        (a + b) as u16
    }
}

/// `ESC [ code m` when attribute `bit` is wanted and not on yet.
pub open spec fn attr_on(attrs: u8, cur: u8, bit: u8, code: u8) -> Seq<u8> {
    if attrs & bit != 0 && cur & bit == 0 {
        seq![27u8, 91u8, code, 109u8]
    } else {
        seq![]
    }
}

/// Whether attributes must be reset before `attrs` can be set: always when
/// the pen is unknown, when an attribute is wanted that is not on, or when
/// one is on that is not wanted and `attrs` is smaller.
pub open spec fn needs_reset(p: Pen, attrs: u8) -> bool {
    !p.known || (attrs & !p.attrs) != 0 || ((p.attrs & !attrs) != 0 && attrs < p.attrs)
}

/// Brings the pen to attributes `attrs` and colours `fg`, `bg`: nothing
/// when it is known to be so already; else a reset (`ESC[0m`) where
/// needed, the attributes that are not on yet (bold, dim, italic,
/// underline, inverse), and the colours that differ.
pub open spec fn sgr_bytes(p: Pen, attrs: u8, fg: u64, bg: u64) -> (Pen, Seq<u8>) {
    if p.known && p.attrs == attrs && p.fg == fg && p.bg == bg {
        (p, seq![])
    } else {
        let reset = needs_reset(p, attrs);
        let a0: u8 = if reset {
            0
        } else {
            p.attrs
        };
        let f0: u64 = if reset {
            u64::MAX
        } else {
            p.fg
        };
        let b0: u64 = if reset {
            u64::MAX
        } else {
            p.bg
        };
        let o0: Seq<u8> = if reset {
            seq![27u8, 91u8, 48u8, 109u8]
        } else {
            seq![]
        };
        let o1 = o0 + attr_on(attrs, a0, 1, 49) + attr_on(attrs, a0, 2, 50) + attr_on(attrs, a0, 4, 51)
            + attr_on(attrs, a0, 8, 52) + attr_on(attrs, a0, 16, 55);
        let o2 = o1 + (if fg != f0 {
            color_sequence(fg, true)
        } else {
            seq![]
        }) + (if bg != b0 {
            color_sequence(bg, false)
        } else {
            seq![]
        });
        (Pen { fg, bg, attrs, known: true, ..p }, o2)
    }
}

/// Moves the cursor to `row`, `col` (`ESC [ row+1 ; col+1 H`) unless it is
/// there.
pub open spec fn move_bytes(p: Pen, row: u16, col: u16) -> (Pen, Seq<u8>) {
    if p.row == row && p.col == col {
        (p, seq![])
    } else {
        (Pen { row, col, ..p }, seq![27u8, 91u8] + dec_ascii((row + 1) as nat) + seq![59u8] + dec_ascii((col + 1) as nat)
            + seq![72u8])
    }
}

impl AnsiRenderer {
    /// A renderer that knows nothing of the screen.
    pub fn new() -> (r: AnsiRenderer)
        ensures
            r.prev_cells@.len() == 0,
            r.prev_rows == 0,
            r.prev_cols == 0,
            pen_of(r) == (Pen { row: u16::MAX, col: u16::MAX, fg: u64::MAX, bg: u64::MAX, attrs: 0, known: false }),
    {
        AnsiRenderer {
            prev_cells: Vec::new(),
            prev_rows: 0,
            prev_cols: 0,
            cur_row: u16::MAX,
            cur_col: u16::MAX,
            cur_fg: u64::MAX,
            cur_bg: u64::MAX,
            cur_attrs: 0,
            attrs_known: false,
        }
    }

    fn push_attr(out: &mut Vec<u8>, attrs: u8, cur: u8, bit: u8, code: u8)
        ensures
            final(out)@ == old(out)@ + attr_on(attrs, cur, bit, code),
    {
        if attrs & bit != 0 && cur & bit == 0 {
            out.push(27);
            out.push(91);
            out.push(code);
            out.push(109);
        }
        assert(out@ =~= old(out)@ + attr_on(attrs, cur, bit, code));
    }

    /// Sets attributes and colours, writing only what changes.
    #[verifier::rlimit(40)]
    pub fn reset_sgr(&mut self, attrs: u8, fg: u64, bg: u64, out: &mut Vec<u8>)
        ensures
            (pen_of(*final(self)), final(out)@) == ({
                let (p, o) = sgr_bytes(pen_of(*old(self)), attrs, fg, bg);
                (p, old(out)@ + o)
            }),
            final(self).prev_cells == old(self).prev_cells,
            final(self).prev_rows == old(self).prev_rows,
            final(self).prev_cols == old(self).prev_cols,
    {
        let need_reset = !self.attrs_known || (attrs & !self.cur_attrs) != 0 || (self.cur_attrs
            & !attrs) != 0 && attrs < self.cur_attrs;
        if !self.attrs_known || self.cur_attrs != attrs || self.cur_fg != fg || self.cur_bg != bg {
            let ghost p = pen_of(*old(self));
            let ghost reset = needs_reset(p, attrs);
            assert(need_reset == reset);
            if need_reset {
                out.push(27);
                out.push(91);
                out.push(48);
                out.push(109);
                self.cur_attrs = 0;
                self.cur_fg = u64::MAX;
                self.cur_bg = u64::MAX;
                self.attrs_known = true;
            }
            let ghost o0: Seq<u8> = if reset {
                seq![27u8, 91u8, 48u8, 109u8]
            } else {
                seq![]
            };
            assert(out@ =~= old(out)@ + o0);
            let a0 = self.cur_attrs;
            let ghost before_attrs = out@;
            Self::push_attr(out, attrs, a0, 1, 49);
            Self::push_attr(out, attrs, a0, 2, 50);
            Self::push_attr(out, attrs, a0, 4, 51);
            Self::push_attr(out, attrs, a0, 8, 52);
            Self::push_attr(out, attrs, a0, 16, 55);
            let ghost o1 = o0 + attr_on(attrs, a0, 1, 49) + attr_on(attrs, a0, 2, 50) + attr_on(attrs, a0, 4, 51)
                + attr_on(attrs, a0, 8, 52) + attr_on(attrs, a0, 16, 55);
            assert(out@ =~= old(out)@ + o1);
            self.cur_attrs = attrs;
            let ghost f0 = self.cur_fg;
            let ghost b0 = self.cur_bg;
            if fg != self.cur_fg {
                emit_color(fg, true, out);
                self.cur_fg = fg;
            }
            let ghost o2a = o1 + (if fg != f0 {
                color_sequence(fg, true)
            } else {
                seq![]
            });
            assert(out@ =~= old(out)@ + o2a);
            if bg != self.cur_bg {
                emit_color(bg, false, out);
                self.cur_bg = bg;
            }
            let ghost o2 = o2a + (if bg != b0 {
                color_sequence(bg, false)
            } else {
                seq![]
            });
            assert(out@ =~= old(out)@ + o2);
            assert(o2 == sgr_bytes(p, attrs, fg, bg).1);
        }
    }

    /// Moves the cursor, writing nothing when it is already there.
    pub fn move_to(&mut self, row: u16, col: u16, out: &mut Vec<u8>)
        requires
            row < u16::MAX,
            col < u16::MAX,
        ensures
            (pen_of(*final(self)), final(out)@) == ({
                let (p, o) = move_bytes(pen_of(*old(self)), row, col);
                (p, old(out)@ + o)
            }),
            final(self).prev_cells == old(self).prev_cells,
            final(self).prev_rows == old(self).prev_rows,
            final(self).prev_cols == old(self).prev_cols,
    {
        if self.cur_row == row && self.cur_col == col {
            return;
        }
        out.push(27);
        out.push(91);
        push_u16(out, row + 1);
        out.push(59);
        push_u16(out, col + 1);
        out.push(72);
        self.cur_row = row;
        self.cur_col = col;
        assert(out@ =~= old(out)@ + move_bytes(pen_of(*old(self)), row, col).1);
    }
}


/// The number of content bytes of a cell.
pub open spec fn content_len(cell: Seq<u8>) -> nat {
    ((cell[1] >> 3u8) & 7u8) as nat
}

/// The attribute bits of a cell: bold, dim, italic, underline, inverse.
pub open spec fn cell_attrs(f0: u8, f1: u8) -> u8 {
    ((f0 >> 4u8) & 1u8) | (((f0 >> 5u8) & 1u8) << 1u8) | (((f0 >> 6u8) & 1u8) << 2u8) | (((f0 >> 7u8)
        & 1u8) << 3u8) | ((f1 & 1u8) << 4u8)
}

/// A cell's foreground and background, swapped when it is inverse.
pub open spec fn cell_colors(cell: Seq<u8>) -> (u64, u64) {
    let f0 = cell[0];
    let fg = packed(f0 & 3u8, cell[2], cell[3], cell[4]);
    let bg = packed((f0 >> 2u8) & 3u8, cell[5], cell[6], cell[7]);
    if cell[1] & 1u8 != 0 {
        (bg, fg)
    } else {
        (fg, bg)
    }
}

/// What is written for a cell, and the pen after it: the continuation of
/// a wide character is a blank with everything reset; another cell sets
/// its attributes and colours, then writes its content (a blank when it
/// has none, `?` when it is not valid UTF-8). The cursor advances by the
/// cell's width (two for a wide one), at most to `u16::MAX`.
pub open spec fn cell_bytes(p: Pen, cell: Seq<u8>) -> (Pen, Seq<u8>) {
    let f0 = cell[0];
    let f1 = cell[1];
    if f1 & 4u8 != 0 {
        let (p1, o1) = sgr_bytes(p, 0, packed(0, 0, 0, 0), packed(0, 0, 0, 0));
        (Pen { col: sat_add16(p1.col, 1), ..p1 }, o1 + seq![32u8])
    } else {
        let (fg, bg) = cell_colors(cell);
        let (p1, o1) = sgr_bytes(p, cell_attrs(f0, f1), fg, bg);
        let n = content_len(cell);
        let content = if n > 0 {
            let b = cell.subrange(8, 8 + n as int);
            if valid_utf8(b) {
                b
            } else {
                seq![63u8]
            }
        } else {
            seq![32u8]
        };
        let w: u16 = if (f1 >> 1u8) & 1u8 != 0 {
            2
        } else {
            1
        };
        (Pen { col: sat_add16(p1.col, w), ..p1 }, o1 + content)
    }
}

impl AnsiRenderer {
    /// Writes one cell at the cursor.
    pub fn emit_cell(&mut self, cell: &[u8], out: &mut Vec<u8>)
        requires
            cell@.len() == 12,
            content_len(cell@) <= 4,
        ensures
            (pen_of(*final(self)), final(out)@) == ({
                let (p, o) = cell_bytes(pen_of(*old(self)), cell@);
                (p, old(out)@ + o)
            }),
            final(self).prev_cells == old(self).prev_cells,
            final(self).prev_rows == old(self).prev_rows,
            final(self).prev_cols == old(self).prev_cols,
    {
        let f0 = cell[0];
        let f1 = cell[1];
        if f1 & 4 != 0 {
            let z = pack_color(0, 0, 0, 0);
            self.reset_sgr(0, z, z, out);
            out.push(32);
            self.cur_col = if self.cur_col < u16::MAX {
                self.cur_col + 1
            } else {
                u16::MAX
            };
            return;
        }
        let fg_type = f0 & 3;
        let bg_type = (f0 >> 2u8) & 3;
        let bold = (f0 >> 4u8) & 1;
        let dim = (f0 >> 5u8) & 1;
        let italic = (f0 >> 6u8) & 1;
        let underline = (f0 >> 7u8) & 1;
        let inverse = f1 & 1;
        let wide = (f1 >> 1u8) & 1;
        let n = ((f1 >> 3u8) & 7) as usize;
        let attrs: u8 = bold | (dim << 1u8) | (italic << 2u8) | (underline << 3u8) | (inverse << 4u8);
        assert(attrs == cell_attrs(f0, f1));
        let (fg, bg) = if inverse != 0 {
            (pack_color(bg_type, cell[5], cell[6], cell[7]), pack_color(fg_type, cell[2], cell[3], cell[4]))
        } else {
            (pack_color(fg_type, cell[2], cell[3], cell[4]), pack_color(bg_type, cell[5], cell[6], cell[7]))
        };
        assert((fg, bg) == cell_colors(cell@));
        self.reset_sgr(attrs, fg, bg, out);
        let ghost mid = out@;
        if n > 0 {
            let b = copy_bytes(cell, 8, 8 + n);
            match utf8_text(b.as_slice()) {
                Some(_) => push_bytes(out, b.as_slice()),
                None => out.push(63),
            }
        } else {
            out.push(32);
        }
        let w: u16 = if wide != 0 {
            2
        } else {
            1
        };
        self.cur_col = if self.cur_col as u32 + w as u32 > 65535 {
            u16::MAX
        } else {
            self.cur_col + w
        };
    }
}


/// The twelve bytes of cell `i`.
pub open spec fn cell_at(cells: Seq<u8>, i: int) -> Seq<u8> {
    cells.subrange(i * 12, i * 12 + 12)
}

/// Whether a frame of `rows` by `cols` has another size than the last one.
pub open spec fn resized(r: AnsiRenderer, rows: u16, cols: u16) -> bool {
    rows != r.prev_rows || cols != r.prev_cols
}

/// The cells that a frame is compared with: the last frame's, or cells
/// that match nothing (all bytes `0xff`) after a resize or when their
/// number is not the frame's.
pub open spec fn compared_cells(r: AnsiRenderer, rows: u16, cols: u16) -> Seq<u8> {
    let prev = if resized(r, rows, cols) {
        seq![]
    } else {
        r.prev_cells@
    };
    let n = rows * cols * 12;
    if prev.len() != n {
        Seq::new(n as nat, |k: int| 0xffu8)
    } else {
        prev
    }
}

/// The pen a frame starts from: unknown after a resize.
pub open spec fn start_pen(r: AnsiRenderer, rows: u16, cols: u16) -> Pen {
    if resized(r, rows, cols) {
        Pen { row: u16::MAX, col: u16::MAX, fg: u64::MAX, bg: u64::MAX, attrs: r.cur_attrs, known: false }
    } else {
        pen_of(r)
    }
}

/// The first `k` cells of a frame drawn over `prev`, in order: a cell that
/// is as before is skipped; another one is drawn at its row and column.
pub open spec fn draw_cells(p: Pen, prev: Seq<u8>, cells: Seq<u8>, cols: u16, k: nat) -> (Pen, Seq<u8>)
    decreases k,
{
    if k == 0 {
        (p, seq![])
    } else {
        let (p1, o1) = draw_cells(p, prev, cells, cols, (k - 1) as nat);
        let i = k - 1;
        if cell_at(cells, i) == cell_at(prev, i) {
            (p1, o1)
        } else {
            let (p2, o2) = move_bytes(p1, (i / (cols as int)) as u16, (i % (cols as int)) as u16);
            let (p3, o3) = cell_bytes(p2, cell_at(cells, i));
            (p3, o1 + o2 + o3)
        }
    }
}

/// What a frame writes: a clear (`ESC[2J`) after a resize, the cells that
/// changed, and the cursor hidden (`ESC[?25l`).
pub open spec fn frame_bytes(r: AnsiRenderer, rows: u16, cols: u16, cells: Seq<u8>) -> Seq<u8> {
    let clear: Seq<u8> = if resized(r, rows, cols) {
        seq![27u8, 91u8, 50u8, 74u8]
    } else {
        seq![]
    };
    clear + draw_cells(start_pen(r, rows, cols), compared_cells(r, rows, cols), cells, cols, (rows * cols) as nat).1
        + seq![27u8, 91u8, 63u8, 50u8, 53u8, 108u8]
}

fn same_cell(a: &[u8], b: &[u8], off: usize) -> (r: bool)
    requires
        off + 12 <= a@.len(),
        off + 12 <= b@.len(),
    ensures
        r == (a@.subrange(off as int, off + 12) == b@.subrange(off as int, off + 12)),
{
    let la = a.len();
    let mut k: usize = 0;
    while k < 12
        invariant
            k <= 12,
            la == a@.len(),
            off + 12 <= a@.len(),
            off + 12 <= b@.len(),
            forall|j: int| off <= j < off + k ==> a@[j] == b@[j],
        decreases 12 - k,
    {
        if a[off + k] != b[off + k] {
            assert(a@.subrange(off as int, off + 12)[k as int] != b@.subrange(off as int, off + 12)[k as int]);
            return false;
        }
        k += 1;
    }
    assert(a@.subrange(off as int, off + 12) =~= b@.subrange(off as int, off + 12));
    true
}

impl AnsiRenderer {
    /// Writes a frame of `rows` by `cols` cells: only the cells that differ
    /// from the last frame, with a clear first when the size changed; the
    /// frame is then the one the terminal shows.
    #[verifier::rlimit(40)]
    pub fn render(&mut self, rows: u16, cols: u16, cells: &[u8], out: &mut Vec<u8>)
        requires
            rows * cols * 12 <= usize::MAX,
            cells@.len() >= rows * cols * 12,
            forall|i: int|
                0 <= i < rows * cols && cell_at(cells@, i) != cell_at(compared_cells(*old(self), rows, cols), i)
                    ==> content_len(#[trigger] cell_at(cells@, i)) <= 4,
        ensures
            final(out)@ == old(out)@ + frame_bytes(*old(self), rows, cols, cells@),
            pen_of(*final(self)) == draw_cells(
                start_pen(*old(self), rows, cols),
                compared_cells(*old(self), rows, cols),
                cells@,
                cols,
                (rows * cols) as nat,
            ).0,
            final(self).prev_cells@ == cells@.subrange(0, rows * cols * 12),
            final(self).prev_rows == rows,
            final(self).prev_cols == cols,
    {
        let ghost prev0 = compared_cells(*self, rows, cols);
        let ghost pen0 = start_pen(*self, rows, cols);
        if rows != self.prev_rows || cols != self.prev_cols {
            out.push(27);
            out.push(91);
            out.push(50);
            out.push(74);
            self.prev_cells.clear();
            self.prev_rows = rows;
            self.prev_cols = cols;
            self.cur_row = u16::MAX;
            self.cur_col = u16::MAX;
            self.attrs_known = false;
            self.cur_fg = u64::MAX;
            self.cur_bg = u64::MAX;
        }
        let total = rows as usize * cols as usize;
        let n = total * 12;
        if self.prev_cells.len() != n {
            self.prev_cells = vec![0xffu8; n];
        }
        assert(self.prev_cells@ =~= prev0);
        assert(pen_of(*self) == pen0);
        let ghost out0 = out@;
        let mut i: usize = 0;
        while i < total
            invariant
                total == rows * cols,
                n == total * 12,
                i <= total,
                n <= cells@.len(),
                prev0.len() == n,
                self.prev_rows == rows,
                self.prev_cols == cols,
                self.prev_cells@.len() == n,
                self.prev_cells@.subrange(0, i * 12) == cells@.subrange(0, i * 12),
                self.prev_cells@.subrange(i * 12, n as int) == prev0.subrange(i * 12, n as int),
                forall|j: int|
                    0 <= j < total && cell_at(cells@, j) != cell_at(prev0, j)
                        ==> content_len(#[trigger] cell_at(cells@, j)) <= 4,
                ({
                    let (p, o) = draw_cells(pen0, prev0, cells@, cols, i as nat);
                    pen_of(*self) == p && out@ == out0 + o
                }),
            decreases total - i,
        {
            let off = i * 12;
            proof {
                assert(cell_at(prev0, i as int) =~= self.prev_cells@.subrange(off as int, off + 12)) by {
                    assert(self.prev_cells@.subrange(off as int, off + 12) =~= self.prev_cells@.subrange(
                        i * 12,
                        n as int,
                    ).subrange(0, 12));
                    assert(prev0.subrange(off as int, off + 12) =~= prev0.subrange(i * 12, n as int).subrange(0, 12));
                }
            }
            if same_cell(cells, self.prev_cells.as_slice(), off) {
                assert(self.prev_cells@.subrange(0, (i + 1) * 12) =~= cells@.subrange(0, (i + 1) * 12)) by {
                    assert forall|j: int| 0 <= j < (i + 1) * 12 implies self.prev_cells@[j] == cells@[j] by {
                        if j < i * 12 {
                            assert(self.prev_cells@.subrange(0, i * 12)[j] == cells@.subrange(0, i * 12)[j]);
                        } else {
                            assert(self.prev_cells@.subrange(off as int, off + 12)[j - off] == cells@.subrange(
                                off as int,
                                off + 12,
                            )[j - off]);
                        }
                    }
                }
                assert(self.prev_cells@.subrange((i + 1) * 12, n as int) =~= prev0.subrange((i + 1) * 12, n as int))
                    by {
                    assert forall|j: int| 0 <= j < n - (i + 1) * 12 implies #[trigger] self.prev_cells@.subrange(
                        (i + 1) * 12,
                        n as int,
                    )[j] == prev0.subrange((i + 1) * 12, n as int)[j] by {
                        assert(self.prev_cells@.subrange(i * 12, n as int)[j + 12] == prev0.subrange(
                            i * 12,
                            n as int,
                        )[j + 12]);
                    }
                }
            } else {
                assert((i as int) / (cols as int) < rows && (i as int) % (cols as int) < cols) by (nonlinear_arith)
                    requires
                        i < rows * cols,
                        cols > 0 || rows * cols == 0;
                let row = (i / cols as usize) as u16;
                let col = (i % cols as usize) as u16;
                assert(cell_at(cells@, i as int) =~= cells@.subrange(off as int, off + 12));
                let cell = copy_bytes(cells, off, off + 12);
                self.move_to(row, col, out);
                self.emit_cell(cell.as_slice(), out);
                let ghost before = self.prev_cells@;
                let mut k: usize = 0;
                while k < 12
                    invariant
                        k <= 12,
                        off + 12 <= n,
                        n <= cells@.len(),
                        self.prev_cells@.len() == n,
                        cell@ == cells@.subrange(off as int, off + 12),
                        forall|j: int| 0 <= j < n && !(off <= j < off + k) ==> self.prev_cells@[j] == before[j],
                        forall|j: int| off <= j < off + k ==> self.prev_cells@[j] == cell@[j - off],
                        self.prev_rows == rows,
                        self.prev_cols == cols,
                        pen_of(*self) == draw_cells(pen0, prev0, cells@, cols, (i + 1) as nat).0,
                    decreases 12 - k,
                {
                    self.prev_cells.set(off + k, cell[k]);
                    k += 1;
                }
                assert(self.prev_cells@.subrange(0, (i + 1) * 12) =~= cells@.subrange(0, (i + 1) * 12)) by {
                    assert forall|j: int| 0 <= j < (i + 1) * 12 implies self.prev_cells@[j] == cells@[j] by {
                        if j < i * 12 {
                            assert(before.subrange(0, i * 12)[j] == cells@.subrange(0, i * 12)[j]);
                        }
                    }
                }
                assert(self.prev_cells@.subrange((i + 1) * 12, n as int) =~= prev0.subrange((i + 1) * 12, n as int))
                    by {
                    assert forall|j: int| 0 <= j < n - (i + 1) * 12 implies #[trigger] self.prev_cells@.subrange(
                        (i + 1) * 12,
                        n as int,
                    )[j] == prev0.subrange((i + 1) * 12, n as int)[j] by {
                        assert(before.subrange(i * 12, n as int)[j + 12] == prev0.subrange(i * 12, n as int)[j + 12]);
                    }
                }
            }
            i += 1;
        }
        out.push(27);
        out.push(91);
        out.push(63);
        out.push(50);
        out.push(53);
        out.push(108);
        assert(self.prev_cells@ =~= cells@.subrange(0, n as int)) by {
            assert(self.prev_cells@.subrange(0, n as int) =~= self.prev_cells@);
        }
        assert(out@ =~= old(out)@ + frame_bytes(*old(self), rows, cols, cells@));
    }
}



proof fn lemma_draw_unchanged(p: Pen, prev: Seq<u8>, cells: Seq<u8>, cols: u16, k: nat)
    requires
        forall|i: int| 0 <= i < k ==> #[trigger] cell_at(cells, i) == cell_at(prev, i),
    ensures
        draw_cells(p, prev, cells, cols, k) == (p, Seq::<u8>::empty()),
    decreases k,
{
    if k > 0 {
        lemma_draw_unchanged(p, prev, cells, cols, (k - 1) as nat);
        assert(cell_at(cells, k - 1) == cell_at(prev, k - 1));
    }
}

/// Drawing a frame again, right after it was drawn, writes nothing but
/// the cursor hiding: the renderer holds the frame and its size, so no
/// cell differs.
pub proof fn redraw_writes_nothing(r: AnsiRenderer, rows: u16, cols: u16, cells: Seq<u8>)
    requires
        cells.len() >= rows * cols * 12,
        r.prev_rows == rows,
        r.prev_cols == cols,
        r.prev_cells@ == cells.subrange(0, rows * cols * 12),
    ensures
        frame_bytes(r, rows, cols, cells) == seq![27u8, 91u8, 63u8, 50u8, 53u8, 108u8],
{
    let n = rows * cols * 12;
    let prev = compared_cells(r, rows, cols);
    assert(prev == cells.subrange(0, n));
    assert forall|i: int| 0 <= i < rows * cols implies #[trigger] cell_at(cells, i) == cell_at(prev, i) by {
        assert(i * 12 + 12 <= n) by (nonlinear_arith)
            requires
                0 <= i < rows * cols,
                n == rows * cols * 12;
        assert(cell_at(prev, i) =~= cell_at(cells, i));
    }
    lemma_draw_unchanged(start_pen(r, rows, cols), prev, cells, cols, (rows * cols) as nat);
    assert(frame_bytes(r, rows, cols, cells) =~= seq![27u8, 91u8, 63u8, 50u8, 53u8, 108u8]);
}

// ───────────────────────────── text helpers ─────────────────────────────

/// The block characters of a sparkline, from lowest to highest.
pub open spec fn level_char(k: int) -> char {
    if k <= 0 {
        '\u{2581}'
    } else if k == 1 {
        '\u{2582}'
    } else if k == 2 {
        '\u{2583}'
    } else if k == 3 {
        '\u{2584}'
    } else if k == 4 {
        '\u{2585}'
    } else if k == 5 {
        '\u{2586}'
    } else if k == 6 {
        '\u{2587}'
    } else {
        '\u{2588}'
    }
}

fn level(k: u64) -> (c: char)
    ensures
        c == level_char(k as int),
{
    if k == 0 {
        '\u{2581}'
    } else if k == 1 {
        '\u{2582}'
    } else if k == 2 {
        '\u{2583}'
    } else if k == 3 {
        '\u{2584}'
    } else if k == 4 {
        '\u{2585}'
    } else if k == 5 {
        '\u{2586}'
    } else if k == 6 {
        '\u{2587}'
    } else {
        '\u{2588}'
    }
}

/// The last `width` values of a history, with zeros in front when it is
/// shorter.
pub open spec fn window(history: Seq<u32>, width: nat) -> Seq<u32> {
    let take = if history.len() < width {
        history.len()
    } else {
        width
    };
    Seq::new(width, |j: int| if j < width - take {
        0u32
    } else {
        history[history.len() - take + (j - (width - take))]
    })
}

/// The largest of some values (zero for none).
pub open spec fn seq_max(s: Seq<u32>) -> u32
    decreases s.len(),
{
    if s.len() == 0 {
        0
    } else {
        let m = seq_max(s.drop_last());
        if s.last() > m {
            s.last()
        } else {
            m
        }
    }
}

/// The character for a value of a sparkline whose largest value is `max`:
/// a blank for zero, else one of eight levels, scaled down.
pub open spec fn spark_char(v: u32, max: u32) -> char {
    if v == 0 {
        ' '
    } else {
        level_char((v * 7) / (max as int))
    }
}

/// A sparkline of the last `width` values of a history, one character
/// each, scaled to the largest.
pub open spec fn sparkline_text(history: Seq<u32>, width: nat) -> Seq<char> {
    let w = window(history, width);
    Seq::new(width, |j: int| spark_char(w[j], seq_max(w)))
}

proof fn lemma_seq_max(s: Seq<u32>)
    ensures
        forall|j: int| 0 <= j < s.len() ==> s[j] <= seq_max(s),
    decreases s.len(),
{
    if s.len() > 0 {
        lemma_seq_max(s.drop_last());
        assert forall|j: int| 0 <= j < s.len() implies s[j] <= seq_max(s) by {
            if j < s.len() - 1 {
                assert(s.drop_last()[j] == s[j]);
            }
        }
    }
}

/// A sparkline of a history, `width` characters wide.
pub fn sparkline(history: &[u32], width: usize) -> (r: String)
    ensures
        r@ == sparkline_text(history@, width as nat),
{
    let ghost w = window(history@, width as nat);
    let len = history.len();
    let take = if len < width {
        len
    } else {
        width
    };
    let mut values: Vec<u32> = Vec::new();
    let mut j: usize = 0;
    while j < width
        invariant
            j <= width,
            len == history@.len(),
            take == (if len < width {
                len
            } else {
                width
            }),
            w == window(history@, width as nat),
            values@ == w.take(j as int),
        decreases width - j,
    {
        let v = if j < width - take {
            0
        } else {
            history[len - take + (j - (width - take))]
        };
        values.push(v);
        assert(values@ =~= w.take(j + 1));
        j += 1;
    }
    assert(values@ =~= w);
    let mut max: u32 = 0;
    let mut k: usize = 0;
    while k < width
        invariant
            k <= width,
            values@ == w,
            w.len() == width,
            max == seq_max(w.take(k as int)),
        decreases width - k,
    {
        assert(w.take(k + 1).drop_last() =~= w.take(k as int));
        if values[k] > max {
            max = values[k];
        }
        k += 1;
    }
    assert(w.take(width as int) =~= w);
    proof {
        lemma_seq_max(w);
    }
    let mut out: Vec<char> = Vec::new();
    let mut k: usize = 0;
    while k < width
        invariant
            k <= width,
            values@ == w,
            w.len() == width,
            max == seq_max(w),
            forall|j: int| 0 <= j < w.len() ==> w[j] <= max,
            out@ == Seq::new(k as nat, |j: int| spark_char(w[j], max)),
        decreases width - k,
    {
        let v = values[k];
        let c = if v == 0 {
            ' '
        } else {
            assert(v <= max);
            assert((v as int * 7) / (max as int) <= 7) by (nonlinear_arith)
                requires
                    v <= max,
                    max > 0;
            level((v as u64 * 7) / max as u64)
        };
        out.push(c);
        assert(out@ =~= Seq::new((k + 1) as nat, |j: int| spark_char(w[j], max)));
        k += 1;
    }
    string_of(out.as_slice())
}

/// Text fitted to `width` characters: padded with blanks when shorter;
/// when longer, cut to `width - 1` characters and `~` (a single `.` when
/// `width` is one).
pub open spec fn fit_text(text: Seq<char>, width: nat) -> Seq<char> {
    if width == 0 {
        seq![]
    } else if text.len() <= width {
        text + Seq::new((width - text.len()) as nat, |j: int| ' ')
    } else if width <= 1 {
        seq!['.']
    } else {
        text.take(width - 1) + seq!['~']
    }
}

/// Fits text to a width.
pub fn truncate_end(text: &str, width: usize) -> (r: String)
    ensures
        r@ == fit_text(text@, width as nat),
{
    if width == 0 {
        return String::new();
    }
    let cs = chars_of(text);
    let count = cs.len();
    let mut out: Vec<char> = Vec::new();
    if count <= width {
        let mut k: usize = 0;
        while k < count
            invariant
                k <= count,
                count == cs@.len(),
                out@ == cs@.take(k as int),
            decreases count - k,
        {
            out.push(cs[k]);
            assert(out@ =~= cs@.take(k + 1));
            k += 1;
        }
        let mut k: usize = count;
        while k < width
            invariant
                count <= k <= width,
                count == cs@.len(),
                out@ == cs@ + Seq::new((k - count) as nat, |j: int| ' '),
            decreases width - k,
        {
            out.push(' ');
            assert(out@ =~= cs@ + Seq::new((k + 1 - count) as nat, |j: int| ' '));
            k += 1;
        }
        assert(cs@.take(count as int) =~= cs@);
        return string_of(out.as_slice());
    }
    if width <= 1 {
        out.push('.');
        return string_of(out.as_slice());
    }
    let mut k: usize = 0;
    while k < width - 1
        invariant
            k <= width - 1,
            width < count,
            count == cs@.len(),
            out@ == cs@.take(k as int),
        decreases width - 1 - k,
    {
        out.push(cs[k]);
        assert(out@ =~= cs@.take(k + 1));
        k += 1;
    }
    out.push('~');
    string_of(out.as_slice())
}

/// The short name of a TCP state (the Linux numbering: 1 established to
/// 11 closing).
pub open spec fn tcp_state_text(state: u8) -> Seq<char> {
    if state == 1 {
        "ESTAB"@
    } else if state == 2 {
        "SYN-S"@
    } else if state == 3 {
        "SYN-R"@
    } else if state == 4 {
        "FIN1"@
    } else if state == 5 {
        "FIN2"@
    } else if state == 6 {
        "TIME"@
    } else if state == 7 {
        "CLOSE"@
    } else if state == 8 {
        "CLSW"@
    } else if state == 9 {
        "LACK"@
    } else if state == 10 {
        "LISTN"@
    } else if state == 11 {
        "CLSG"@
    } else {
        "OTHER"@
    }
}

/// The short name of a TCP state.
pub fn tcp_state_name(state: u8) -> (r: &'static str)
    ensures
        r@ == tcp_state_text(state),
{
    if state == 1 {
        "ESTAB"
    } else if state == 2 {
        "SYN-S"
    } else if state == 3 {
        "SYN-R"
    } else if state == 4 {
        "FIN1"
    } else if state == 5 {
        "FIN2"
    } else if state == 6 {
        "TIME"
    } else if state == 7 {
        "CLOSE"
    } else if state == 8 {
        "CLSW"
    } else if state == 9 {
        "LACK"
    } else if state == 10 {
        "LISTN"
    } else if state == 11 {
        "CLSG"
    } else {
        "OTHER"
    }
}

} // verus!
