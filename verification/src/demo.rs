//! The demo programs' small pieces: their xorshift generator, decimal
//! digits, settings from the environment, and the mouse-driven demo's
//! input reader.
use vstd::prelude::*;
use vstd::utf8::{decode_utf8, valid_utf8};
use crate::dashboard::parse_u16_spec;
use crate::grid::utf8_text;
use crate::server_args::{parse_bounded, parse_bounded_spec};
use crate::text::{chars_of, split_chars, split_seq, views};

verus! {

// ───────────────────────────── random numbers ─────────────────────────────

/// One xorshift64 step (shifts 13, 7, 17).
pub open spec fn xorshift(x: u64) -> u64 {
    let a = x ^ (x << 13u64);
    let b = a ^ (a >> 7u64);
    b ^ (b << 17u64)
}

/// The demos' random number generator.
pub struct Rng {
    pub state: u64,
}

impl Rng {
    /// A generator from a seed (the demos use the time mixed with a
    /// constant).
    pub fn from_seed(seed: u64) -> (r: Rng)
        ensures
            r.state == seed ^ 0xdeadbeefcafe1234u64,
    {
        Rng { state: seed ^ 0xdeadbeefcafe1234u64 }
    }

    /// The next number: the state after one xorshift step.
    pub fn next(&mut self) -> (r: u64)
        ensures
            r == xorshift(old(self).state),
            final(self).state == r,
    {
        let mut x = self.state;
        x = x ^ (x << 13u64);
        x = x ^ (x >> 7u64);
        x = x ^ (x << 17u64);
        self.state = x;
        x
    }
}

/// A nonzero state stays nonzero, so the generator never gets stuck.
pub proof fn xorshift_nonzero(x: u64)
    requires
        x != 0,
    ensures
        xorshift(x) != 0,
{
    assert(x != 0 ==> (x ^ (x << 13u64)) != 0) by (bit_vector);
    let a = x ^ (x << 13u64);
    assert(a != 0 ==> (a ^ (a >> 7u64)) != 0) by (bit_vector);
    let b = a ^ (a >> 7u64);
    assert(b != 0 ==> (b ^ (b << 17u64)) != 0) by (bit_vector);
}

// ───────────────────────────── decimal digits ─────────────────────────────

/// The bytes that the chaos demo writes for a number: three, two or one
/// digit bytes by its size (above 999 the first "digit" byte is past `9`).
pub open spec fn dec_bytes3(n: u16) -> Seq<u8> {
    if n >= 100 {
        seq![(48 + n / 100) as u8, (48 + n % 100 / 10) as u8, (48 + n % 10) as u8]
    } else if n >= 10 {
        seq![(48 + n / 10) as u8, (48 + n % 10) as u8]
    } else {
        seq![(48 + n) as u8]
    }
}

/// Appends the digits of `n`.
pub fn push_dec(buf: &mut Vec<u8>, n: u16)
    requires
        n < 20800,
    ensures
        final(buf)@ == old(buf)@ + dec_bytes3(n),
{
    if n >= 100 {
        buf.push(48 + (n / 100) as u8);
        let m = n % 100;
        buf.push(48 + (m / 10) as u8);
        buf.push(48 + (m % 10) as u8);
    } else if n >= 10 {
        buf.push(48 + (n / 10) as u8);
        buf.push(48 + (n % 10) as u8);
    } else {
        buf.push(48 + n as u8);
    }
    assert(final(buf)@ =~= old(buf)@ + dec_bytes3(n)) by {
        assert(buf@ =~= old(buf)@ + dec_bytes3(n));
    }
}

// ───────────────────────────── settings ─────────────────────────────

/// A setting from an environment variable's value: the number clamped to
/// `min..=max`, or the default when the variable is unset or not a number.
pub open spec fn env_setting(value: Option<Seq<char>>, default: u64, min: u64, max: u64) -> u64 {
    match value {
        Some(s) => match parse_bounded_spec(s, u64::MAX) {
            Some(v) => if v < min {
                min
            } else if v > max {
                max
            } else {
                v
            },
            None => default,
        },
        None => default,
    }
}

/// A setting from an environment variable's value.
pub fn env_u64_value(value: Option<&str>, default: u64, min: u64, max: u64) -> (r: u64)
    requires
        min <= max,
    ensures
        r == env_setting(match value {
            Some(s) => Some(s@),
            None => None,
        }, default, min, max),
{
    match value {
        Some(s) => match parse_bounded(chars_of(s).as_slice(), u64::MAX) {
            Some(v) => {
                if v < min {
                    min
                } else if v > max {
                    max
                } else {
                    v
                }
            },
            None => default,
        },
        None => default,
    }
}

// ───────────────────────────── mouse input ─────────────────────────────

/// The three numbers of an SGR mouse report's parameters `btn;col;row`
/// (more parts are ignored); none unless they are valid UTF-8 and the
/// first three parts read as `u16`.
pub open spec fn mouse_params(p: Seq<u8>) -> Option<(u16, u16, u16)> {
    if !valid_utf8(p) {
        None
    } else {
        let parts = split_seq(decode_utf8(p), ';');
        if parts.len() < 3 {
            None
        } else {
            match (parse_u16_spec(parts[0]), parse_u16_spec(parts[1]), parse_u16_spec(parts[2])) {
                (Some(b), Some(c), Some(r)) => Some((b, c, r)),
                _ => None,
            }
        }
    }
}

fn parse_u16_chars(s: &[char]) -> (r: Option<u16>)
    ensures
        r == parse_u16_spec(s@),
{
    match crate::server_args::parse_usize(s) {
        Some(v) => if v <= 65535 {
            Some(v as u16)
        } else {
            None
        },
        None => None,
    }
}

/// Reads an SGR mouse report's parameters.
pub fn parse_mouse_params(params: &[u8]) -> (r: Option<(u16, u16, u16)>)
    ensures
        r == mouse_params(params@),
{
    let text = match utf8_text(params) {
        Some(t) => t,
        None => {
            return None;
        },
    };
    let cs = chars_of(text.as_str());
    let parts = split_chars(cs.as_slice(), ';');
    if parts.len() < 3 {
        return None;
    }
    assert(views(parts@)[0] == parts@[0]@ && views(parts@)[1] == parts@[1]@ && views(parts@)[2]
        == parts@[2]@);
    let b = parse_u16_chars(parts[0].as_slice());
    let c = parse_u16_chars(parts[1].as_slice());
    let r = parse_u16_chars(parts[2].as_slice());
    match (b, c, r) {
        (Some(b), Some(c), Some(r)) => Some((b, c, r)),
        _ => None,
    }
}

/// A click pulse at a cell, with its age in frames.
#[derive(Clone, Copy, Debug, PartialEq, Eq, Structural)]
pub struct Burst {
    pub col: u16,
    pub row: u16,
    pub age: u16,
}

/// `v` clamped to `lo..=hi`.
pub open spec fn clamp16(v: u16, lo: u16, hi: u16) -> u16 {
    if v < lo {
        lo
    } else if v > hi {
        hi
    } else {
        v
    }
}

/// The first index at or after `i` of a byte that is `M` or `m`.
pub open spec fn report_end(buf: Seq<u8>, i: int) -> int
    decreases buf.len() - i,
{
    if i >= buf.len() || i < 0 || buf[i] == 77 || buf[i] == 109 {
        i
    } else {
        report_end(buf, i + 1)
    }
}

/// The first index at or after `i` of a final byte of a control sequence
/// (0x40 to 0x7e).
pub open spec fn csi_end(buf: Seq<u8>, i: int) -> int
    decreases buf.len() - i,
{
    if i >= buf.len() || i < 0 || (0x40 <= buf[i] <= 0x7e) {
        i
    } else {
        csi_end(buf, i + 1)
    }
}

/// The state of the mouse demo's input: whether to quit, the mouse
/// position, and the click pulses added.
pub struct InputScan {
    pub quit: bool,
    pub col: u16,
    pub row: u16,
    pub bursts: Seq<Burst>,
}

/// Reads the demo's input from `i` on: Ctrl-C, Ctrl-D, `q` or a lone ESC
/// quit; an SGR mouse report moves the mouse (clamped to the screen) and a
/// press of buttons 0-2 adds a pulse there; other control sequences and
/// bytes are skipped.
pub open spec fn scan_input(buf: Seq<u8>, i: int, col: u16, row: u16, cols: u16, rows: u16, bursts: Seq<Burst>) -> InputScan
    decreases buf.len() - i,
{
    if i < 0 || i >= buf.len() {
        InputScan { quit: false, col, row, bursts }
    } else {
        let b = buf[i];
        if b == 3 || b == 4 || b == 113 {
            InputScan { quit: true, col, row, bursts }
        } else if b == 27 {
            if i + 1 < buf.len() && buf[i + 1] == 91 {
                let end = report_end(buf, i + 3);
                if i + 2 < buf.len() && buf[i + 2] == 60 && end < buf.len() {
                    let (c2, r2, b2) = match mouse_params(buf.subrange(i + 3, end)) {
                        Some((btn, c, r)) => {
                            let mc = clamp16(c, 1, cols);
                            let mr = clamp16(r, 1, rows);
                            let press = buf[end] == 77 && btn & 0x20 == 0 && btn & 3 < 3;
                            (mc, mr, if press {
                                bursts.push(Burst { col: mc, row: mr, age: 0 })
                            } else {
                                bursts
                            })
                        },
                        None => (col, row, bursts),
                    };
                    if end + 1 > i {
                        scan_input(buf, end + 1, c2, r2, cols, rows, b2)
                    } else {
                        InputScan { quit: false, col: c2, row: r2, bursts: b2 }
                    }
                } else {
                    let e = csi_end(buf, i + 2);
                    if i < e < buf.len() {
                        scan_input(buf, e + 1, col, row, cols, rows, bursts)
                    } else {
                        InputScan { quit: false, col, row, bursts }
                    }
                }
            } else {
                InputScan { quit: true, col, row, bursts }
            }
        } else {
            scan_input(buf, i + 1, col, row, cols, rows, bursts)
        }
    }
}

proof fn lemma_report_end(buf: Seq<u8>, i: int)
    requires
        0 <= i,
    ensures
        i <= report_end(buf, i) <= (if i > buf.len() { i } else { buf.len() as int }),
        report_end(buf, i) < buf.len() ==> (buf[report_end(buf, i)] == 77 || buf[report_end(buf, i)] == 109),
        forall|j: int| i <= j < report_end(buf, i) ==> #[trigger] buf[j] != 77 && buf[j] != 109,
    decreases buf.len() - i,
{
    if !(i >= buf.len() || buf[i] == 77 || buf[i] == 109) {
        lemma_report_end(buf, i + 1);
    }
}

proof fn lemma_csi_end(buf: Seq<u8>, i: int)
    requires
        0 <= i,
    ensures
        i <= csi_end(buf, i) <= (if i > buf.len() { i } else { buf.len() as int }),
        forall|j: int| i <= j < csi_end(buf, i) ==> !(0x40 <= #[trigger] buf[j] <= 0x7e),
        csi_end(buf, i) < buf.len() ==> 0x40 <= buf[csi_end(buf, i)] <= 0x7e,
    decreases buf.len() - i,
{
    if !(i >= buf.len() || (0x40 <= buf[i] <= 0x7e)) {
        lemma_csi_end(buf, i + 1);
    }
}

pub(crate) fn copy_bytes(buf: &[u8], lo: usize, hi: usize) -> (r: Vec<u8>)
    requires
        lo <= hi <= buf@.len(),
    ensures
        r@ == buf@.subrange(lo as int, hi as int),
{
    let mut v: Vec<u8> = Vec::new();
    let mut k = lo;
    while k < hi
        invariant
            lo <= k <= hi,
            hi <= buf@.len(),
            v@ == buf@.subrange(lo as int, k as int),
        decreases hi - k,
    {
        v.push(buf[k]);
        assert(buf@.subrange(lo as int, k + 1) =~= buf@.subrange(lo as int, k as int).push(buf@[k as int]));
        k += 1;
    }
    v
}

/// Reads the mouse demo's input: whether to quit; the mouse position and
/// the click pulses are updated.
pub fn parse_input(buf: &[u8], mouse_col: &mut u16, mouse_row: &mut u16, bursts: &mut Vec<Burst>, cols: u16, rows: u16) -> (quit: bool)
    requires
        1 <= cols,
        1 <= rows,
    ensures
        ({
            let s = scan_input(buf@, 0, *old(mouse_col), *old(mouse_row), cols, rows, old(bursts)@);
            &&& quit == s.quit
            &&& *final(mouse_col) == s.col
            &&& *final(mouse_row) == s.row
            &&& final(bursts)@ == s.bursts
        }),
{
    let n = buf.len();
    let ghost start = scan_input(buf@, 0, *mouse_col, *mouse_row, cols, rows, bursts@);
    let mut i: usize = 0;
    while i < n
        invariant
            n == buf@.len(),
            i <= n,
            1 <= cols,
            1 <= rows,
            start == scan_input(buf@, 0, *old(mouse_col), *old(mouse_row), cols, rows, old(bursts)@),
            start == scan_input(buf@, i as int, *mouse_col, *mouse_row, cols, rows, bursts@),
        decreases n - i,
    {
        let b = buf[i];
        if b == 3 || b == 4 || b == 113 {
            return true;
        }
        if b == 27 {
            if i + 1 < n && buf[i + 1] == 91 {
                proof {
                    lemma_report_end(buf@, i + 3);
                    lemma_csi_end(buf@, i + 2);
                }
                if i + 2 < n && buf[i + 2] == 60 {
                    let st = i + 3;
                    let mut end = st;
                    while end < n && buf[end] != 77 && buf[end] != 109
                        invariant
                            n == buf@.len(),
                            st <= end <= n,
                            report_end(buf@, st as int) == report_end(buf@, end as int),
                        decreases n - end,
                    {
                        end += 1;
                    }
                    if end < n {
                        let fb = buf[end];
                        let p = copy_bytes(buf, st, end);
                        match parse_mouse_params(p.as_slice()) {
                            Some((btn, c, r)) => {
                                let mc = if c < 1 {
                                    1
                                } else if c > cols {
                                    cols
                                } else {
                                    c
                                };
                                let mr = if r < 1 {
                                    1
                                } else if r > rows {
                                    rows
                                } else {
                                    r
                                };
                                *mouse_col = mc;
                                *mouse_row = mr;
                                if fb == 77 && btn & 0x20 == 0 && btn & 3 < 3 {
                                    bursts.push(Burst { col: mc, row: mr, age: 0 });
                                }
                            },
                            None => {},
                        }
                        i = end + 1;
                        continue;
                    }
                }
                let mut e = i + 2;
                while e < n && !(0x40 <= buf[e] && buf[e] <= 0x7e)
                    invariant
                        n == buf@.len(),
                        i + 2 <= e <= n,
                        csi_end(buf@, (i + 2) as int) == csi_end(buf@, e as int),
                    decreases n - e,
                {
                    e += 1;
                }
                if e >= n {
                    return false;
                }
                i = e + 1;
                continue;
            }
            return true;
        }
        i += 1;
    }
    false
}

} // verus!
