//! Fonts: reading the family and style names from the `name` table of a
//! TrueType/OpenType file (or the first face of a collection), mapping a
//! style name to a CSS weight and style, Base64, and `@font-face` rules.
use vstd::prelude::*;
use crate::text::{
    append_chars, append_str, chars_of, chars_eq, contains_chars, contains_seq, first_index,
    find_char, lines_chars, lines_seq, lowered, split_chars, split_seq, string_of, sub_vec,
    to_lowercase, trim, trim_chars, views,
};
use crate::sorted::{insert_unique, strictly_sorted};

verus! {

broadcast use vstd::string::group_string_axioms;

/// A font's family name and style (subfamily) name.
#[derive(Debug, Clone)]
pub struct FontInfo {
    pub family: String,
    pub subfamily: String,
}

/// One file of a font family, with its CSS weight and style.
#[derive(Debug, Clone)]
pub struct FontVariant {
    pub path: String,
    pub weight: String,
    pub style: String,
}

// ───────────────────────────── Base64 ─────────────────────────────

/// The character of the standard Base64 alphabet for `i < 64`.
pub open spec fn b64_char(i: int) -> char {
    if i < 26 {
        (65 + i) as char
    } else if i < 52 {
        (97 + i - 26) as char
    } else if i < 62 {
        (48 + i - 52) as char
    } else if i == 62 {
        '+'
    } else {
        '/'
    }
}

/// Standard Base64 with `=` padding.
pub open spec fn base64_spec(d: Seq<u8>) -> Seq<char>
    decreases d.len(),
{
    if d.len() == 0 {
        seq![]
    } else {
        let b0 = d[0] as int;
        let b1 = if d.len() > 1 {
            d[1] as int
        } else {
            0
        };
        let b2 = if d.len() > 2 {
            d[2] as int
        } else {
            0
        };
        let c0 = b64_char(b0 / 4);
        let c1 = b64_char((b0 % 4) * 16 + b1 / 16);
        let c2 = if d.len() > 1 {
            b64_char((b1 % 16) * 4 + b2 / 64)
        } else {
            '='
        };
        let c3 = if d.len() > 2 {
            b64_char(b2 % 64)
        } else {
            '='
        };
        if d.len() <= 3 {
            seq![c0, c1, c2, c3]
        } else {
            seq![c0, c1, c2, c3] + base64_spec(d.skip(3))
        }
    }
}

/// The value of a character of the standard Base64 alphabet (`A`–`Z`,
/// `a`–`z`, `0`–`9`, `+`, `/`); padding and any other character count 0.
pub open spec fn b64_value(c: char) -> int {
    let u = c as int;
    if 65 <= u <= 90 {
        u - 65
    } else if 97 <= u <= 122 {
        u - 71
    } else if 48 <= u <= 57 {
        u + 4
    } else if c == '+' {
        62
    } else if c == '/' {
        63
    } else {
        0
    }
}

/// Base64 decoding of padded text: each group of four characters holds 24
/// bits, six per character, most significant first; a group ending in
/// `==` gives its first byte, one ending in `=` its first two, any other
/// all three.
pub open spec fn base64_decode(s: Seq<char>) -> Seq<u8>
    decreases s.len(),
{
    if s.len() < 4 {
        seq![]
    } else {
        let n = b64_value(s[0]) * 262144 + b64_value(s[1]) * 4096 + b64_value(s[2]) * 64 + b64_value(s[3]);
        let x0 = (n / 65536) as u8;
        let x1 = (n / 256 % 256) as u8;
        let x2 = (n % 256) as u8;
        let group = if s[2] == '=' {
            seq![x0]
        } else if s[3] == '=' {
            seq![x0, x1]
        } else {
            seq![x0, x1, x2]
        };
        group + base64_decode(s.skip(4))
    }
}

/// The alphabet character of each six-bit value decodes to that value, and
/// none is the padding character.
proof fn lemma_b64_char_value(i: int)
    requires
        0 <= i < 64,
    ensures
        b64_value(b64_char(i)) == i,
        b64_char(i) != '=',
{
    if i < 26 {
        assert(((65 + i) as char) as int == 65 + i);
    } else if i < 52 {
        assert(((97 + i - 26) as char) as int == 97 + i - 26);
    } else if i < 62 {
        assert(((48 + i - 52) as char) as int == 48 + i - 52);
    }
}

/// The 24 bits of three bytes, cut into four six-bit groups, give the
/// bytes back.
proof fn lemma_b64_group(b0: int, b1: int, b2: int)
    requires
        0 <= b0 < 256,
        0 <= b1 < 256,
        0 <= b2 < 256,
    ensures
        ({
            let n = (b0 / 4) * 262144 + ((b0 % 4) * 16 + b1 / 16) * 4096 + ((b1 % 16) * 4 + b2 / 64) * 64 + b2 % 64;
            &&& n / 65536 == b0
            &&& n / 256 % 256 == b1
            &&& n % 256 == b2
        }),
{
    let x0 = b0 as u32;
    let x1 = b1 as u32;
    let x2 = b2 as u32;
    assert({
        let n = (x0 / 4) * 262144 + ((x0 % 4) * 16 + x1 / 16) * 4096 + ((x1 % 16) * 4 + x2 / 64) * 64 + x2 % 64;
        &&& n / 65536 == x0
        &&& n / 256 % 256 == x1
        &&& n % 256 == x2
    }) by (bit_vector)
        requires
            x0 < 256,
            x1 < 256,
            x2 < 256,
    ;
}

/// Base64 decoding of the encoding gives back the bytes: every six-bit
/// group of each 24-bit chunk is written, and the padding says how many
/// bytes the last chunk holds.
pub proof fn base64_round_trip(d: Seq<u8>)
    ensures
        base64_decode(base64_spec(d)) == d,
    decreases d.len(),
{
    if d.len() > 0 {
        let b0 = d[0] as int;
        let b1 = if d.len() > 1 { d[1] as int } else { 0 };
        let b2 = if d.len() > 2 { d[2] as int } else { 0 };
        let s = base64_spec(d);
        let v0 = b0 / 4;
        let v1 = (b0 % 4) * 16 + b1 / 16;
        let v2 = (b1 % 16) * 4 + b2 / 64;
        let v3 = b2 % 64;
        lemma_b64_char_value(v0);
        lemma_b64_char_value(v1);
        lemma_b64_char_value(v2);
        lemma_b64_char_value(v3);
        lemma_b64_group(b0, b1, b2);
        let head = seq![
            b64_char(v0),
            b64_char(v1),
            if d.len() > 1 { b64_char(v2) } else { '=' },
            if d.len() > 2 { b64_char(v3) } else { '=' },
        ];
        let rest = if d.len() <= 3 { Seq::<char>::empty() } else { base64_spec(d.skip(3)) };
        assert(s =~= head + rest);
        assert(s.skip(4) =~= rest);
        assert(s[0] == head[0] && s[1] == head[1] && s[2] == head[2] && s[3] == head[3]);
        let n = b64_value(s[0]) * 262144 + b64_value(s[1]) * 4096 + b64_value(s[2]) * 64 + b64_value(s[3]);
        assert(n == v0 * 262144 + v1 * 4096 + v2 * 64 + v3);
        let group = if s[2] == '=' {
            seq![(n / 65536) as u8]
        } else if s[3] == '=' {
            seq![(n / 65536) as u8, (n / 256 % 256) as u8]
        } else {
            seq![(n / 65536) as u8, (n / 256 % 256) as u8, (n % 256) as u8]
        };
        assert(base64_decode(s) == group + base64_decode(rest));
        if d.len() > 3 {
            base64_round_trip(d.skip(3));
            assert(group =~= seq![d[0], d[1], d[2]]);
            assert(d =~= seq![d[0], d[1], d[2]] + d.skip(3));
        } else if d.len() == 3 {
            assert(group =~= seq![d[0], d[1], d[2]]);
            assert(d =~= seq![d[0], d[1], d[2]]);
        } else if d.len() == 2 {
            assert(group =~= seq![d[0], d[1]]);
            assert(d =~= seq![d[0], d[1]]);
        } else {
            assert(group =~= seq![d[0]]);
            assert(d =~= seq![d[0]]);
        }
    }
}

/// A character of the standard Base64 alphabet.
pub open spec fn is_b64_char(c: char) -> bool {
    ('A' <= c && c <= 'Z') || ('a' <= c && c <= 'z') || ('0' <= c && c <= '9') || c == '+' || c == '/'
}

/// The encoding has four characters for every three bytes or part of
/// three, each from the alphabet or the padding `=`.
pub proof fn base64_shape(d: Seq<u8>)
    ensures
        base64_spec(d).len() == (d.len() + 2) / 3 * 4,
        forall|i: int| 0 <= i < base64_spec(d).len() ==> is_b64_char(#[trigger] base64_spec(d)[i]) || base64_spec(d)[i] == '=',
    decreases d.len(),
{
    if d.len() > 0 {
        let s = base64_spec(d);
        assert forall|v: int| 0 <= v < 64 implies is_b64_char(#[trigger] b64_char(v)) by {
            if v < 26 {
                assert(((65 + v) as char) as int == 65 + v);
            } else if v < 52 {
                assert(((97 + v - 26) as char) as int == 97 + v - 26);
            } else if v < 62 {
                assert(((48 + v - 52) as char) as int == 48 + v - 52);
            }
        }
        if d.len() > 3 {
            base64_shape(d.skip(3));
            assert forall|i: int| 0 <= i < s.len() implies is_b64_char(#[trigger] s[i]) || s[i] == '=' by {
                if i >= 4 {
                    assert(s[i] == base64_spec(d.skip(3))[i - 4]);
                }
            }
        }
    }
}

/// The Base64 character for a 6-bit value.
fn b64_char_exec(i: u32) -> (r: char)
    requires
        i < 64,
    ensures
        r == b64_char(i as int),
{
    if i < 26 {
        (65 + i as u8) as char
    } else if i < 52 {
        (97 + (i - 26) as u8) as char
    } else if i < 62 {
        (48 + (i - 52) as u8) as char
    } else if i == 62 {
        '+'
    } else {
        '/'
    }
}

/// Standard Base64 with `=` padding.
pub fn base64_encode(data: &[u8]) -> (r: String)
    ensures
        r@ == base64_spec(data@),
{
    let n = data.len();
    let mut out: Vec<char> = Vec::new();
    let mut i: usize = 0;
    assert(data@.skip(0) =~= data@);
    while i < n
        invariant
            n == data@.len(),
            i <= n,
            base64_spec(data@) == out@ + base64_spec(data@.skip(i as int)),
        decreases n - i,
    {
        let ghost rest = data@.skip(i as int);
        let b0 = data[i] as u32;
        let b1: u32 = if n - i > 1 {
            data[i + 1] as u32
        } else {
            0
        };
        let b2: u32 = if n - i > 2 {
            data[i + 2] as u32
        } else {
            0
        };
        let v = (b0 << 16u32) | (b1 << 8u32) | b2;
        assert((v >> 18u32) & 63 == b0 / 4 && (v >> 12u32) & 63 == (b0 % 4) * 16 + b1 / 16 && (v
            >> 6u32) & 63 == (b1 % 16) * 4 + b2 / 64 && v & 63 == b2 % 64) by (bit_vector)
            requires
                b0 < 256,
                b1 < 256,
                b2 < 256,
                v == (b0 << 16u32) | (b1 << 8u32) | b2,
        ;
        let ghost before = out@;
        out.push(b64_char_exec((v >> 18u32) & 63));
        out.push(b64_char_exec((v >> 12u32) & 63));
        if n - i > 1 {
            out.push(b64_char_exec((v >> 6u32) & 63));
        } else {
            out.push('=');
        }
        if n - i > 2 {
            out.push(b64_char_exec(v & 63));
        } else {
            out.push('=');
        }
        assert(rest[0] == data@[i as int]);
        if n - i > 1 {
            assert(rest[1] == data@[i + 1]);
        }
        if n - i > 2 {
            assert(rest[2] == data@[i + 2]);
        }
        if n - i > 3 {
            assert(rest.skip(3) =~= data@.skip(i + 3));
            i += 3;
            assert(base64_spec(data@) == out@ + base64_spec(data@.skip(i as int))) by {
                assert(before + base64_spec(rest) =~= out@ + base64_spec(data@.skip(i as int)));
            }
        } else {
            i = n;
            assert(data@.skip(i as int) =~= Seq::<u8>::empty());
            assert(base64_spec(data@) == out@ + base64_spec(data@.skip(i as int))) by {
                assert(before + base64_spec(rest) =~= out@ + base64_spec(data@.skip(i as int)));
            }
        }
    }
    assert(data@.skip(n as int) =~= Seq::<u8>::empty());
    assert(out@ + Seq::<char>::empty() =~= out@);
    string_of(out.as_slice())
}

/// Base64 output is four characters for every three bytes or part of them.
pub proof fn base64_len(d: Seq<u8>)
    ensures
        base64_spec(d).len() == (d.len() + 2) / 3 * 4,
    decreases d.len(),
{
    if d.len() > 3 {
        base64_len(d.skip(3));
    }
}

// ───────────────────────────── style names ─────────────────────────────

/// CSS weight and style for a style name: bold for "bold", "heavy" or
/// "black", italic for "italic" or "oblique", anywhere in the name and
/// ignoring case.
pub open spec fn weight_style(sub: Seq<char>) -> (Seq<char>, Seq<char>) {
    let s = lowered(sub);
    let bold = contains_seq(s, "bold"@) || contains_seq(s, "heavy"@) || contains_seq(s, "black"@);
    let italic = contains_seq(s, "italic"@) || contains_seq(s, "oblique"@);
    (
        if bold {
            "bold"@
        } else {
            "normal"@
        },
        if italic {
            "italic"@
        } else {
            "normal"@
        },
    )
}

/// Whether the characters contain the literal `lit`.
fn contains_lit(s: &[char], lit: &str) -> (r: bool)
    ensures
        r == contains_seq(s@, lit@),
{
    let l = chars_of(lit);
    contains_chars(s, l.as_slice())
}

/// CSS weight and style for a style name.
pub fn subfamily_to_weight_style(subfamily: &str) -> (r: (&'static str, &'static str))
    ensures
        (r.0@, r.1@) == weight_style(subfamily@),
{
    let s = to_lowercase(subfamily);
    let c = chars_of(s.as_str());
    let bold = contains_lit(c.as_slice(), "bold") || contains_lit(c.as_slice(), "heavy")
        || contains_lit(c.as_slice(), "black");
    let italic = contains_lit(c.as_slice(), "italic") || contains_lit(c.as_slice(), "oblique");
    if bold && italic {
        ("bold", "italic")
    } else if bold {
        ("bold", "normal")
    } else if italic {
        ("normal", "italic")
    } else {
        ("normal", "normal")
    }
}

// ───────────────────────────── the `name` table ─────────────────────────────

/// The text that `String::from_utf16_lossy` makes of UTF-16 code units: a
/// high surrogate followed by a low one gives the character they encode,
/// any other surrogate gives U+FFFD, and any other unit its own character.
pub open spec fn utf16_lossy(u: Seq<u16>) -> Seq<char>
    decreases u.len(),
{
    if u.len() == 0 {
        seq![]
    } else if 0xD800 <= u[0] < 0xDC00 && u.len() >= 2 && 0xDC00 <= u[1] < 0xE000 {
        seq![(0x10000 + (u[0] - 0xD800) * 0x400 + (u[1] - 0xDC00)) as char] + utf16_lossy(u.skip(2))
    } else if 0xD800 <= u[0] < 0xE000 {
        seq!['\u{FFFD}'] + utf16_lossy(u.skip(1))
    } else {
        seq![u[0] as char] + utf16_lossy(u.skip(1))
    }
}

/// The text that `String::from_utf8_lossy` makes of bytes.
pub uninterp spec fn utf8_lossy(bytes: Seq<u8>) -> Seq<char>;

/// `String::from_utf16_lossy` from std: surrogate pairs decode, unpaired
/// surrogates become U+FFFD.
#[verifier::external_body]
fn from_utf16_lossy(units: &[u16]) -> (r: String)
    ensures
        r@ == utf16_lossy(units@),
{
    String::from_utf16_lossy(units)
}

/// `String::from_utf8_lossy` from std: invalid sequences become U+FFFD; a
/// valid UTF-8 input decodes to exactly its characters.
#[verifier::external_body]
fn from_utf8_lossy(bytes: &[u8]) -> (r: String)
    ensures
        r@ == utf8_lossy(bytes@),
        vstd::utf8::valid_utf8(bytes@) ==> r@ == vstd::utf8::decode_utf8(bytes@),
{
    String::from_utf8_lossy(bytes).into_owned()
}

/// The big-endian 16-bit value at `i`.
pub open spec fn be16(d: Seq<u8>, i: int) -> int {
    d[i] as int * 256 + d[i + 1] as int
}

/// The big-endian 32-bit value at `i`.
pub open spec fn be32(d: Seq<u8>, i: int) -> int {
    ((d[i] as int * 256 + d[i + 1] as int) * 256 + d[i + 2] as int) * 256 + d[i + 3] as int
}

/// Big-endian 16-bit code units of `raw`; a last odd byte is dropped.
pub open spec fn be16_units(raw: Seq<u8>) -> Seq<u16> {
    Seq::new(raw.len() / 2, |k: int| be16(raw, 2 * k) as u16)
}

/// Where the `name` table lies: offset and length from the first table
/// record (of `n` at `base + 12`) tagged `name`, or `(0, 0)` if none is.
pub open spec fn name_location(d: Seq<u8>, base: int, n: int, i: int) -> (int, int)
    decreases n - i,
{
    if i >= n {
        (0, 0)
    } else {
        let rec = base + 12 + i * 16;
        if d.subrange(rec, rec + 4) == seq![110u8, 97u8, 109u8, 101u8] {
            (be32(d, rec + 8), be32(d, rec + 12))
        } else {
            name_location(d, base, n, i + 1)
        }
    }
}

/// Name record `r` of the table `tbl` (strings at `so`) if it gives a
/// family (IDs 1, 16) or style (IDs 2, 17) name for the Windows (3) or Mac
/// (1) platform: whether it is a family name, its priority (Windows over
/// Mac, typographic IDs over legacy), and its trimmed non-empty text.
pub open spec fn name_candidate(tbl: Seq<u8>, so: int, r: int) -> Option<(bool, int, Seq<char>)> {
    let rec = 6 + r * 12;
    let platform = be16(tbl, rec);
    let name_id = be16(tbl, rec + 6);
    let length = be16(tbl, rec + 8);
    let str_off = be16(tbl, rec + 10);
    let is_family = name_id == 1 || name_id == 16;
    let is_sub = name_id == 2 || name_id == 17;
    let plat = if platform == 3 {
        2int
    } else if platform == 1 {
        1int
    } else {
        0int
    };
    let start = so + str_off;
    if !is_family && !is_sub {
        None
    } else if plat == 0 {
        None
    } else if start + length > tbl.len() {
        None
    } else {
        let raw = tbl.subrange(start, start + length);
        let text = trim(
            if platform == 3 {
                utf16_lossy(be16_units(raw))
            } else {
                utf8_lossy(raw)
            },
        );
        if text.len() == 0 {
            None
        } else {
            Some((is_family, plat + if name_id >= 16 {
                4int
            } else {
                0int
            }, text))
        }
    }
}

/// The best family and style names (with their priorities) among the
/// first `n` records: a later record replaces an earlier one only with a
/// strictly higher priority.
pub open spec fn best_names(tbl: Seq<u8>, so: int, n: int) -> (Option<Seq<char>>, int, Option<Seq<char>>, int)
    decreases n,
{
    if n <= 0 {
        (None, 0, None, 0)
    } else {
        let st = best_names(tbl, so, n - 1);
        match name_candidate(tbl, so, n - 1) {
            None => st,
            Some((fam, pri, t)) => if fam && pri > st.1 {
                (Some(t), pri, st.2, st.3)
            } else if !fam && pri > st.3 {
                (st.0, st.1, Some(t), pri)
            } else {
                st
            },
        }
    }
}

/// The family and style names of a font file (the first face of a `ttcf`
/// collection), the style `Regular` when none is given.
pub open spec fn font_names(d: Seq<u8>) -> Option<(Seq<char>, Seq<char>)> {
    if d.len() < 12 {
        None
    } else {
        let ttc = d.subrange(0, 4) == seq![116u8, 116u8, 99u8, 102u8];
        if ttc && d.len() < 16 {
            None
        } else {
            let offset = if ttc {
                be32(d, 12)
            } else {
                0
            };
            if offset + 12 > d.len() {
                None
            } else {
                let nt = be16(d, offset + 4);
                if offset + 12 + nt * 16 > d.len() {
                    None
                } else {
                    let loc = name_location(d, offset, nt, 0);
                    if loc.0 == 0 || loc.0 + loc.1 > d.len() {
                        None
                    } else {
                        let tbl = d.skip(loc.0);
                        if tbl.len() < 6 {
                            None
                        } else {
                            let count = be16(tbl, 2);
                            let so = be16(tbl, 4);
                            if tbl.len() < 6 + count * 12 {
                                None
                            } else {
                                let st = best_names(tbl, so, count);
                                match st.0 {
                                    None => None,
                                    Some(f) => Some(
                                        (
                                            f,
                                            match st.2 {
                                                Some(s) => s,
                                                None => "Regular"@,
                                            },
                                        ),
                                    ),
                                }
                            }
                        }
                    }
                }
            }
        }
    }
}

fn be16_at(d: &[u8], i: usize) -> (r: usize)
    requires
        i + 1 < d@.len(),
    ensures
        r == be16(d@, i as int),
{
    (d[i] as usize) * 256 + d[i + 1] as usize
}

fn be32_at(d: &[u8], i: usize) -> (r: usize)
    requires
        i + 3 < d@.len(),
    ensures
        r == be32(d@, i as int),
{
    (((d[i] as usize) * 256 + d[i + 1] as usize) * 256 + d[i + 2] as usize) * 256 + d[i + 3] as usize
}

/// Whether the four bytes at `i` are `a b c e`.
fn tag_at(d: &[u8], i: usize, a: u8, b: u8, c: u8, e: u8) -> (r: bool)
    requires
        i + 3 < d@.len(),
    ensures
        r == (d@.subrange(i as int, i + 4) == seq![a, b, c, e]),
{
    let r = d[i] == a && d[i + 1] == b && d[i + 2] == c && d[i + 3] == e;
    assert(r == (d@.subrange(i as int, i + 4) =~= seq![a, b, c, e]));
    r
}

/// The decoded, trimmed text of a name record.
fn decode_name(d: &[u8], start: usize, length: usize, utf16: bool) -> (r: Vec<char>)
    requires
        start + length <= d@.len(),
    ensures
        r@ == trim(
            if utf16 {
                utf16_lossy(be16_units(d@.subrange(start as int, start + length)))
            } else {
                utf8_lossy(d@.subrange(start as int, start + length))
            },
        ),
{
    let dlen = d.len();
    let ghost raw = d@.subrange(start as int, start + length);
    if utf16 {
        let mut units: Vec<u16> = Vec::new();
        let mut k: usize = 0;
        while k < length / 2
            invariant
                start + length <= d@.len(),
                dlen == d@.len(),
                raw == d@.subrange(start as int, start + length),
                k <= length / 2,
                units@ == be16_units(raw).take(k as int),
            decreases length / 2 - k,
        {
            let u = be16_at(d, start + 2 * k);
            assert(be16(d@, start + 2 * k) == be16(raw, 2 * k));
            units.push(u as u16);
            assert(units@ =~= be16_units(raw).take(k + 1));
            k += 1;
        }
        assert(be16_units(raw).take((length / 2) as int) =~= be16_units(raw));
        let s = from_utf16_lossy(units.as_slice());
        let c = chars_of(s.as_str());
        trim_chars(c.as_slice())
    } else {
        let mut bytes: Vec<u8> = Vec::new();
        let mut k: usize = 0;
        while k < length
            invariant
                start + length <= d@.len(),
                dlen == d@.len(),
                raw == d@.subrange(start as int, start + length),
                k <= length,
                bytes@ == raw.take(k as int),
            decreases length - k,
        {
            bytes.push(d[start + k]);
            assert(bytes@ =~= raw.take(k + 1));
            k += 1;
        }
        assert(raw.take(length as int) =~= raw);
        let s = from_utf8_lossy(bytes.as_slice());
        let c = chars_of(s.as_str());
        trim_chars(c.as_slice())
    }
}

/// Reads the family and style names of a TrueType/OpenType font (or of
/// the first face of a `ttcf` collection) from its `name` table.
/// Family and style names come from the records with name IDs 1/16 and
/// 2/17 for the Windows or Mac platform, preferring Windows and the
/// typographic IDs; the style is `Regular` when none is given.
pub fn read_font_info(data: &[u8]) -> (r: Option<FontInfo>)
    ensures
        match font_names(data@) {
            None => r is None,
            Some((f, s)) => r matches Some(fi) && fi.family@ == f && fi.subfamily@ == s,
        },
{
    let len = data.len();
    if len < 12 {
        return None;
    }
    let ttc = tag_at(data, 0, 116, 116, 99, 102);
    if ttc && len < 16 {
        return None;
    }
    let offset: usize = if ttc {
        be32_at(data, 12)
    } else {
        0
    };
    if offset > len || len - offset < 12 {
        return None;
    }
    let num_tables = be16_at(data, offset + 4);
    if len - offset - 12 < num_tables * 16 {
        return None;
    }
    let mut name_offset: usize = 0;
    let mut name_length: usize = 0;
    let mut i: usize = 0;
    while i < num_tables
        invariant_except_break
            name_location(data@, offset as int, num_tables as int, 0) == name_location(
                data@,
                offset as int,
                num_tables as int,
                i as int,
            ),
            name_offset == 0 && name_length == 0,
        invariant
            len == data@.len(),
            offset + 12 + num_tables * 16 <= len,
            i <= num_tables,
        ensures
            name_location(data@, offset as int, num_tables as int, 0) == (
                name_offset as int,
                name_length as int,
            ),
        decreases num_tables - i,
    {
        let rec = offset + 12 + i * 16;
        assert(rec + 16 <= len) by (nonlinear_arith)
            requires
                rec == offset + 12 + i * 16,
                i < num_tables,
                offset + 12 + num_tables * 16 <= len,
        ;
        if tag_at(data, rec, 110, 97, 109, 101) {
            name_offset = be32_at(data, rec + 8);
            name_length = be32_at(data, rec + 12);
            break;
        }
        i += 1;
    }
    if name_offset == 0 || name_offset > len || len - name_offset < name_length {
        return None;
    }
    let tbl_len = len - name_offset;
    let ghost tbl = data@.skip(name_offset as int);
    if tbl_len < 6 {
        return None;
    }
    let count = be16_at(data, name_offset + 2);
    let string_offset = be16_at(data, name_offset + 4);
    assert(be16(tbl, 2) == count && be16(tbl, 4) == string_offset);
    if tbl_len < 6 + count * 12 {
        return None;
    }
    let mut family: Option<Vec<char>> = None;
    let mut family_pri: usize = 0;
    let mut subfamily: Option<Vec<char>> = None;
    let mut subfamily_pri: usize = 0;
    let mut r: usize = 0;
    while r < count
        invariant
            len == data@.len(),
            tbl == data@.skip(name_offset as int),
            tbl_len == tbl.len(),
            name_offset <= len,
            tbl_len == len - name_offset,
            6 + count * 12 <= tbl_len,
            string_offset == be16(tbl, 4),
            r <= count,
            ({
                let st = best_names(tbl, string_offset as int, r as int);
                &&& (match family {
                    None => st.0 is None,
                    Some(f) => st.0 == Some(f@),
                })
                &&& family_pri == st.1
                &&& (match subfamily {
                    None => st.2 is None,
                    Some(f) => st.2 == Some(f@),
                })
                &&& subfamily_pri == st.3
            }),
        decreases count - r,
    {
        let rec = name_offset + 6 + r * 12;
        assert(6 + r * 12 + 12 <= tbl_len) by (nonlinear_arith)
            requires
                r < count,
                6 + count * 12 <= tbl_len,
        ;
        let platform = be16_at(data, rec);
        let name_id = be16_at(data, rec + 6);
        let length = be16_at(data, rec + 8);
        let str_off = be16_at(data, rec + 10);
        proof {
            let tr = 6 + r * 12;
            assert(be16(tbl, tr) == platform);
            assert(be16(tbl, tr + 6) == name_id);
            assert(be16(tbl, tr + 8) == length);
            assert(be16(tbl, tr + 10) == str_off);
        }
        let is_family = name_id == 1 || name_id == 16;
        let is_subfamily = name_id == 2 || name_id == 17;
        let plat_bonus: usize = if platform == 3 {
            2
        } else if platform == 1 {
            1
        } else {
            0
        };
        let start = string_offset + str_off;
        if (is_family || is_subfamily) && plat_bonus != 0 && start + length <= tbl_len {
            let typo_bonus: usize = if name_id >= 16 {
                4
            } else {
                0
            };
            let priority = plat_bonus + typo_bonus;
            let decoded = decode_name(data, name_offset + start, length, platform == 3);
            proof {
                assert(data@.subrange(name_offset + start, name_offset + start + length)
                    =~= tbl.subrange(start as int, start + length));
            }
            if decoded.len() != 0 {
                if is_family && priority > family_pri {
                    family = Some(decoded);
                    family_pri = priority;
                } else if is_subfamily && priority > subfamily_pri {
                    subfamily = Some(decoded);
                    subfamily_pri = priority;
                }
            }
        }
        r += 1;
    }
    match family {
        None => None,
        Some(f) => {
            let sub = match subfamily {
                Some(s) => string_of(s.as_slice()),
                None => string_of(chars_of("Regular").as_slice()),
            };
            Some(FontInfo { family: string_of(f.as_slice()), subfamily: sub })
        },
    }
}


// ───────────────────────────── matching a family ─────────────────────────────

/// ASCII letters to lowercase, other characters unchanged.
pub open spec fn ascii_lower(c: char) -> char {
    if 'A' <= c && c <= 'Z' {
        ((c as u32) + 32) as char
    } else {
        c
    }
}

fn ascii_lower_exec(c: char) -> (r: char)
    ensures
        r == ascii_lower(c),
{
    if 'A' <= c && c <= 'Z' {
        ((c as u8) + 32) as char
    } else {
        c
    }
}

/// `str::eq_ignore_ascii_case`: equal once ASCII letters are lowercased.
pub open spec fn eq_ascii_nocase(a: Seq<char>, b: Seq<char>) -> bool {
    a.len() == b.len() && forall|i: int| 0 <= i < a.len() ==> ascii_lower(#[trigger] a[i]) == ascii_lower(b[i])
}

/// `str::eq_ignore_ascii_case`.
pub fn eq_ignore_ascii_case(a: &str, b: &str) -> (r: bool)
    ensures
        r == eq_ascii_nocase(a@, b@),
{
    let x = chars_of(a);
    let y = chars_of(b);
    if x.len() != y.len() {
        return false;
    }
    let mut i: usize = 0;
    while i < x.len()
        invariant
            x@ == a@,
            y@ == b@,
            x.len() == y.len(),
            i <= x.len(),
            forall|j: int| 0 <= j < i ==> ascii_lower(#[trigger] x@[j]) == ascii_lower(y@[j]),
        decreases x.len() - i,
    {
        if ascii_lower_exec(x[i]) != ascii_lower_exec(y[i]) {
            return false;
        }
        i += 1;
    }
    true
}

/// `s` without its spaces.
pub open spec fn without_spaces(s: Seq<char>) -> Seq<char>
    decreases s.len(),
{
    if s.len() == 0 {
        s
    } else if s.last() == ' ' {
        without_spaces(s.drop_last())
    } else {
        without_spaces(s.drop_last()).push(s.last())
    }
}

fn drop_spaces(s: &[char]) -> (r: Vec<char>)
    ensures
        r@ == without_spaces(s@),
{
    let mut r: Vec<char> = Vec::new();
    let mut i: usize = 0;
    while i < s.len()
        invariant
            i <= s@.len(),
            r@ == without_spaces(s@.take(i as int)),
        decreases s.len() - i,
    {
        assert(s@.take(i + 1).drop_last() =~= s@.take(i as int));
        assert(s@.take(i + 1).last() == s@[i as int]);
        if s[i] != ' ' {
            r.push(s[i]);
        }
        i += 1;
    }
    assert(s@.take(s@.len() as int) =~= s@);
    r
}

/// Whether a font file whose `name` table gives `parsed` belongs to the
/// family asked for: the names agree ignoring case, or ignoring case and
/// spaces.
pub open spec fn family_match(parsed: Seq<char>, family: Seq<char>) -> bool {
    lowered(parsed) == lowered(family) || without_spaces(lowered(parsed)) == without_spaces(
        lowered(family),
    )
}

/// Whether a font file whose `name` table gives `parsed` belongs to `family`.
pub fn family_matches(parsed: &str, family: &str) -> (r: bool)
    ensures
        r == family_match(parsed@, family@),
{
    let p = chars_of(to_lowercase(parsed).as_str());
    let f = chars_of(to_lowercase(family).as_str());
    if chars_eq(p.as_slice(), f.as_slice()) {
        return true;
    }
    let ps = drop_spaces(p.as_slice());
    let fs = drop_spaces(f.as_slice());
    chars_eq(ps.as_slice(), fs.as_slice())
}

/// The extension of a path as `Path::extension` gives it: the text after
/// the last `.` of the file name, none when the name has no `.` but at
/// its start (or is `..`).
pub open spec fn path_extension(path: Seq<char>) -> Option<Seq<char>> {
    let name = file_name(path);
    match last_dot(name) {
        Some(i) => if i == 0 || name == seq!['.', '.'] {
            None
        } else {
            Some(name.skip(i + 1))
        },
        None => None,
    }
}

/// The part of a path after its last `/`.
pub open spec fn file_name(path: Seq<char>) -> Seq<char>
    decreases path.len(),
{
    if path.len() == 0 || path.last() == '/' {
        seq![]
    } else {
        file_name(path.drop_last()).push(path.last())
    }
}

/// The index of the last `.`.
pub open spec fn last_dot(s: Seq<char>) -> Option<int>
    decreases s.len(),
{
    if s.len() == 0 {
        None
    } else if s.last() == '.' {
        Some(s.len() - 1)
    } else {
        last_dot(s.drop_last())
    }
}

/// Index just after the last `c` in `s[..end]`, or 0.
fn after_last(s: &[char], end: usize, c: char) -> (r: usize)
    requires
        end <= s@.len(),
    ensures
        r <= end,
        r > 0 ==> s@[r - 1] == c,
        forall|j: int| r <= j < end ==> s@[j] != c,
{
    let mut i = end;
    while i > 0 && s[i - 1] != c
        invariant
            i <= end <= s@.len(),
            forall|j: int| i <= j < end ==> s@[j] != c,
        decreases i,
    {
        i -= 1;
    }
    i
}

proof fn lemma_file_name(path: Seq<char>, k: int)
    requires
        0 <= k <= path.len(),
        k > 0 ==> path[k - 1] == '/',
        forall|j: int| k <= j < path.len() ==> path[j] != '/',
    ensures
        file_name(path) == path.skip(k),
    decreases path.len(),
{
    if path.len() > k {
        lemma_file_name(path.drop_last(), k);
        assert(path.drop_last().skip(k).push(path.last()) =~= path.skip(k));
    } else if path.len() > 0 {
        assert(path.skip(k) =~= Seq::<char>::empty());
    }
}

proof fn lemma_last_dot(s: Seq<char>, k: int)
    requires
        0 <= k <= s.len(),
        k > 0 ==> s[k - 1] == '.',
        forall|j: int| k <= j < s.len() ==> s[j] != '.',
    ensures
        last_dot(s) == (if k == 0 {
            None
        } else {
            Some(k - 1)
        }),
    decreases s.len(),
{
    if s.len() > k {
        lemma_last_dot(s.drop_last(), k);
    }
}

/// Whether a path names a font file: extension `ttf`, `otf`, `woff`,
/// `woff2` or `ttc`.
pub open spec fn is_font_path(path: Seq<char>) -> bool {
    match path_extension(path) {
        Some(e) => e == "ttf"@ || e == "otf"@ || e == "woff"@ || e == "woff2"@ || e == "ttc"@,
        None => false,
    }
}

/// Whether a path names a font file.
pub fn is_font_file(path: &str) -> (r: bool)
    ensures
        r == is_font_path(path@),
{
    let p = chars_of(path);
    let k = after_last(p.as_slice(), p.len(), '/');
    proof {
        lemma_file_name(p@, k as int);
    }
    let name = sub_vec(p.as_slice(), k, p.len());
    assert(name@ =~= p@.skip(k as int));
    let d = after_last(name.as_slice(), name.len(), '.');
    proof {
        lemma_last_dot(name@, d as int);
    }
    if d <= 1 {
        return false;
    }
    if name.len() == 2 && name[0] == '.' && name[1] == '.' {
        assert(name@ =~= seq!['.', '.']);
        return false;
    }
    assert(name@ != seq!['.', '.']);
    let ext = sub_vec(name.as_slice(), d, name.len());
    assert(ext@ =~= name@.skip(d as int));
    crate::text::chars_eq_str(ext.as_slice(), "ttf") || crate::text::chars_eq_str(ext.as_slice(), "otf")
        || crate::text::chars_eq_str(ext.as_slice(), "woff") || crate::text::chars_eq_str(
        ext.as_slice(),
        "woff2",
    ) || crate::text::chars_eq_str(ext.as_slice(), "ttc")
}

/// The variant that a font file found in a font directory gives for the
/// family asked for: when its `name` table could be read and its family
/// matches, the file with the weight and style of its style name.
pub fn dir_variant(path: &str, info: Option<FontInfo>, family: &str) -> (r: Option<FontVariant>)
    ensures
        match info {
            Some(fi) if family_match(fi.family@, family@) => r matches Some(v) && v.path@ == path@
                && (v.weight@, v.style@) == weight_style(fi.subfamily@),
            _ => r is None,
        },
{
    match info {
        Some(fi) => {
            if !family_matches(fi.family.as_str(), family) {
                return None;
            }
            let (w, st) = subfamily_to_weight_style(fi.subfamily.as_str());
            Some(
                FontVariant {
                    path: string_of(chars_of(path).as_slice()),
                    weight: string_of(chars_of(w).as_slice()),
                    style: string_of(chars_of(st).as_slice()),
                },
            )
        },
        None => None,
    }
}

/// The variant that a file named by `fc-match` gives: when its `name`
/// table could be read and its family equals the one asked for (ignoring
/// ASCII case), the file with the weight and style of the style name that
/// `fc-match` printed.
pub fn matched_variant(path: &str, style: &str, info: Option<FontInfo>, family: &str) -> (r:
    Option<FontVariant>)
    ensures
        match info {
            Some(fi) if eq_ascii_nocase(fi.family@, family@) => r matches Some(v) && v.path@
                == path@ && (v.weight@, v.style@) == weight_style(style@),
            _ => r is None,
        },
{
    match info {
        Some(fi) => {
            if !eq_ignore_ascii_case(fi.family.as_str(), family) {
                return None;
            }
            let (w, st) = subfamily_to_weight_style(style);
            Some(
                FontVariant {
                    path: string_of(chars_of(path).as_slice()),
                    weight: string_of(chars_of(w).as_slice()),
                    style: string_of(chars_of(st).as_slice()),
                },
            )
        },
        None => None,
    }
}

// ───────────────────────────── fontconfig output ─────────────────────────────

/// The path/style pairs of `fc-match --format '%{file}\n%{style}\n'`:
/// lines taken two at a time (a last odd line ignored), each trimmed,
/// dropping pairs with an empty path or a path seen before.
pub open spec fn fc_match_pairs(ls: Seq<Seq<char>>) -> Seq<(Seq<char>, Seq<char>)>
    decreases ls.len(),
{
    if ls.len() < 2 {
        seq![]
    } else {
        let n = (ls.len() / 2 * 2) as int;
        let prev = fc_match_pairs(ls.take(n - 2));
        let path = trim(ls[n - 2]);
        let style = trim(ls[n - 1]);
        if path.len() == 0 || (exists|i: int| 0 <= i < prev.len() && (#[trigger] prev[i]).0 == path) {
            prev
        } else {
            prev.push((path, style))
        }
    }
}

/// The views of path/style pairs.
pub open spec fn string_pairs(v: Seq<(String, String)>) -> Seq<(Seq<char>, Seq<char>)> {
    Seq::new(v.len(), |i: int| (v[i].0@, v[i].1@))
}

/// Reads the output of `fc-match` into path/style pairs.
pub fn fc_match_entries(text: &str) -> (r: Vec<(String, String)>)
    ensures
        string_pairs(r@) == fc_match_pairs(lines_seq(text@)),
{
    let lines = lines_chars(chars_of(text).as_slice());
    let ghost ls = views(lines@);
    let mut out: Vec<(String, String)> = Vec::new();
    let mut i: usize = 0;
    while i + 1 < lines.len()
        invariant
            ls == views(lines@),
            i % 2 == 0,
            i <= ls.len(),
            string_pairs(out@) == fc_match_pairs(ls.take(i as int)),
        decreases lines.len() - i,
    {
        let ghost prev = string_pairs(out@);
        let path = trim_chars(lines[i].as_slice());
        let style = trim_chars(lines[i + 1].as_slice());
        assert(ls.take(i + 2).len() == i + 2);
        assert((i + 2) / 2 * 2 == i + 2) by (nonlinear_arith)
            requires
                i % 2 == 0,
        ;
        assert(ls.take(i + 2).take(i as int) =~= ls.take(i as int));
        assert(ls.take(i + 2)[i as int] == lines@[i as int]@);
        assert(ls.take(i + 2)[i + 1] == lines@[i + 1]@);
        let mut seen = false;
        let mut k: usize = 0;
        while k < out.len()
            invariant
                k <= out@.len(),
                prev == string_pairs(out@),
                seen == (exists|j: int| 0 <= j < k && (#[trigger] prev[j]).0 == path@),
            decreases out.len() - k,
        {
            let same = chars_eq(chars_of(out[k].0.as_str()).as_slice(), path.as_slice());
            assert(prev[k as int].0 == out@[k as int].0@);
            if same {
                seen = true;
            }
            k += 1;
        }
        if path.len() != 0 && !seen {
            let ghost pv = path@;
            let ghost sv = style@;
            out.push((string_of(path.as_slice()), string_of(style.as_slice())));
            assert(string_pairs(out@) =~= prev.push((pv, sv)));
        }
        i += 2;
    }
    proof {
        let n = ls.len();
        if n >= 2 {
            assert((n / 2 * 2) as int == i);
        }
        assert(fc_match_pairs(ls) == fc_match_pairs(ls.take(i as int))) by {
            if n >= 2 {
                assert(ls.take(i as int).len() == i);
                if i >= 2 {
                    assert(ls.take(i as int).take(i - 2) =~= ls.take(i - 2));
                    assert(ls.take(i as int)[i - 2] == ls[i - 2]);
                    assert(ls.take(i as int)[i - 1] == ls[i - 1]);
                }
            } else {
                assert(ls.take(i as int).len() < 2);
            }
        }
    }
    out
}

/// The family names of `fc-list --format '%{family}\n'`: every line split
/// at `,`, each piece trimmed, the non-empty ones.
pub open spec fn fc_family_names(text: Seq<char>) -> Set<Seq<char>> {
    Set::new(
        |n: Seq<char>|
            n.len() > 0 && exists|i: int, j: int|
                0 <= i < lines_seq(text).len() && 0 <= j < split_seq(lines_seq(text)[i], ',').len()
                    && trim(#[trigger] split_seq(lines_seq(text)[i], ',')[j]) == n,
    )
}

/// The families that `fc-list` printed, sorted and without repetitions;
/// none when there is no name.
pub fn fc_list_families(text: &str) -> (r: Option<Vec<String>>)
    ensures
        match r {
            None => fc_family_names(text@).is_empty(),
            Some(v) => strictly_sorted(Seq::new(v@.len(), |k: int| v@[k]@)) && Seq::new(
                v@.len(),
                |k: int| v@[k]@,
            ).to_set() == fc_family_names(text@) && v@.len() > 0,
        },
{
    let lines = lines_chars(chars_of(text).as_slice());
    let ghost ls = views(lines@);
    assert(ls == lines_seq(text@));
    let mut fams: Vec<Vec<char>> = Vec::new();
    let mut i: usize = 0;
    while i < lines.len()
        invariant
            ls == views(lines@),
            ls == lines_seq(text@),
            i <= ls.len(),
            strictly_sorted(views(fams@)),
            views(fams@).to_set() == Set::new(
                |n: Seq<char>|
                    n.len() > 0 && exists|a: int, b: int|
                        0 <= a < i && 0 <= b < split_seq(ls[a], ',').len() && trim(
                            #[trigger] split_seq(ls[a], ',')[b],
                        ) == n,
            ),
        decreases lines.len() - i,
    {
        let pieces = split_chars(lines[i].as_slice(), ',');
        let ghost ps = views(pieces@);
        assert(ps == split_seq(ls[i as int], ','));
        let mut j: usize = 0;
        while j < pieces.len()
            invariant
                ls == views(lines@),
                i < ls.len(),
                ps == views(pieces@),
                ps == split_seq(ls[i as int], ','),
                j <= ps.len(),
                strictly_sorted(views(fams@)),
                views(fams@).to_set() == Set::new(
                    |n: Seq<char>|
                        n.len() > 0 && ((exists|a: int, b: int|
                            0 <= a < i && 0 <= b < split_seq(ls[a], ',').len() && trim(
                                #[trigger] split_seq(ls[a], ',')[b],
                            ) == n) || (exists|b: int| 0 <= b < j && trim(#[trigger] ps[b]) == n)),
                ),
            decreases pieces.len() - j,
        {
            let name = trim_chars(pieces[j].as_slice());
            let ghost before = views(fams@).to_set();
            let ghost nv = name@;
            assert(nv == trim(ps[j as int]));
            if name.len() > 0 {
                insert_unique(&mut fams, name);
            }
            assert(views(fams@).to_set() =~= Set::new(
                |n: Seq<char>|
                    n.len() > 0 && ((exists|a: int, b: int|
                        0 <= a < i && 0 <= b < split_seq(ls[a], ',').len() && trim(
                            #[trigger] split_seq(ls[a], ',')[b],
                        ) == n) || (exists|b: int| 0 <= b < j + 1 && trim(#[trigger] ps[b]) == n)),
            )) by {
                assert forall|n: Seq<char>| #[trigger] views(fams@).to_set().contains(n) implies
                    n.len() > 0 && ((exists|a: int, b: int|
                    0 <= a < i && 0 <= b < split_seq(ls[a], ',').len() && trim(
                        #[trigger] split_seq(ls[a], ',')[b],
                    ) == n) || (exists|b: int| 0 <= b < j + 1 && trim(#[trigger] ps[b]) == n)) by {
                    if n == nv && nv.len() > 0 {
                        assert(trim(ps[j as int]) == n);
                    }
                }
            }
            j += 1;
        }
        assert(views(fams@).to_set() =~= Set::new(
            |n: Seq<char>|
                n.len() > 0 && exists|a: int, b: int|
                    0 <= a < i + 1 && 0 <= b < split_seq(ls[a], ',').len() && trim(
                        #[trigger] split_seq(ls[a], ',')[b],
                    ) == n,
        )) by {
            assert forall|n: Seq<char>| #[trigger] views(fams@).to_set().contains(n) implies n.len()
                > 0 && exists|a: int, b: int|
                0 <= a < i + 1 && 0 <= b < split_seq(ls[a], ',').len() && trim(
                    #[trigger] split_seq(ls[a], ',')[b],
                ) == n by {
                if exists|b: int| 0 <= b < j && trim(#[trigger] ps[b]) == n {
                    let b = choose|b: int| 0 <= b < j && trim(#[trigger] ps[b]) == n;
                    assert(trim(split_seq(ls[i as int], ',')[b]) == n);
                }
            }
            assert forall|n: Seq<char>|
                n.len() > 0 && (exists|a: int, b: int|
                    0 <= a < i + 1 && 0 <= b < split_seq(ls[a], ',').len() && trim(
                        #[trigger] split_seq(ls[a], ',')[b],
                    ) == n) implies #[trigger] views(fams@).to_set().contains(n) by {
                let (a, b) = choose|a: int, b: int|
                    0 <= a < i + 1 && 0 <= b < split_seq(ls[a], ',').len() && trim(
                        #[trigger] split_seq(ls[a], ',')[b],
                    ) == n;
                if a == i {
                    assert(trim(ps[b]) == n);
                }
            }
        }
        i += 1;
    }
    assert(views(fams@).to_set() =~= fc_family_names(text@));
    if fams.len() == 0 {
        assert(views(fams@).to_set() =~= Set::<Seq<char>>::empty());
        return None;
    }
    let mut out: Vec<String> = Vec::new();
    let mut k: usize = 0;
    while k < fams.len()
        invariant
            k <= fams@.len(),
            out@.len() == k,
            Seq::new(out@.len(), |x: int| out@[x]@) == views(fams@).take(k as int),
        decreases fams.len() - k,
    {
        let s = string_of(fams[k].as_slice());
        let ghost prev = out@;
        out.push(s);
        assert(Seq::new(out@.len(), |x: int| out@[x]@) =~= views(fams@).take(k + 1)) by {
            assert forall|x: int| 0 <= x < k implies out@[x]@ == views(fams@).take(k + 1)[x] by {
                assert(out@[x] == prev[x]);
                assert(Seq::new(prev.len(), |y: int| prev[y]@)[x] == views(fams@).take(k as int)[x]);
            }
        }
        k += 1;
    }
    assert(views(fams@).take(fams@.len() as int) =~= views(fams@));
    Some(out)
}

// ───────────────────────────── `@font-face` rules ─────────────────────────────

/// The text after the last `.` of a path, or the whole path without one.
pub open spec fn after_last_dot(p: Seq<char>) -> Seq<char>
    decreases p.len(),
{
    if p.len() == 0 {
        p
    } else if p.last() == '.' {
        seq![]
    } else {
        after_last_dot(p.drop_last()).push(p.last())
    }
}

/// The MIME type of a font file by its extension; `font/ttf` for any other.
pub open spec fn font_mime(ext: Seq<char>) -> Seq<char> {
    if ext == "otf"@ {
        "font/otf"@
    } else if ext == "woff"@ {
        "font/woff"@
    } else if ext == "woff2"@ {
        "font/woff2"@
    } else {
        "font/ttf"@
    }
}

/// The `@font-face` rule of one file: the family, its weight and style, and
/// its data inline as a Base64 `data:` URL; one line.
pub open spec fn font_face_rule(family: Seq<char>, v: FontVariant, data: Seq<u8>) -> Seq<char> {
    "@font-face { font-family: '"@ + family + "'; font-weight: "@ + v.weight@ + "; font-style: "@
        + v.style@ + "; src: url('data:"@ + font_mime(after_last_dot(v.path@)) + ";base64,"@
        + base64_spec(data) + "'); }\n"@
}

/// The rules of files, in order.
pub open spec fn font_face_rules(family: Seq<char>, files: Seq<(FontVariant, Vec<u8>)>) -> Seq<char>
    decreases files.len(),
{
    if files.len() == 0 {
        seq![]
    } else {
        font_face_rules(family, files.drop_last()) + font_face_rule(
            family,
            files.last().0,
            files.last().1@,
        )
    }
}

fn mime_of(path: &[char]) -> (r: &'static str)
    ensures
        r@ == font_mime(after_last_dot(path@)),
{
    let d = after_last(path, path.len(), '.');
    let ext = sub_vec(path, d, path.len());
    proof {
        lemma_after_last_dot(path@, d as int);
    }
    if crate::text::chars_eq_str(ext.as_slice(), "otf") {
        "font/otf"
    } else if crate::text::chars_eq_str(ext.as_slice(), "woff") {
        "font/woff"
    } else if crate::text::chars_eq_str(ext.as_slice(), "woff2") {
        "font/woff2"
    } else {
        "font/ttf"
    }
}

proof fn lemma_after_last_dot(p: Seq<char>, k: int)
    requires
        0 <= k <= p.len(),
        k > 0 ==> p[k - 1] == '.',
        forall|j: int| k <= j < p.len() ==> p[j] != '.',
    ensures
        after_last_dot(p) == p.subrange(k, p.len() as int),
    decreases p.len(),
{
    if p.len() > k {
        lemma_after_last_dot(p.drop_last(), k);
        assert(p.drop_last().subrange(k, p.len() - 1).push(p.last()) =~= p.subrange(
            k,
            p.len() as int,
        ));
    } else if p.len() > 0 {
        assert(p.subrange(k, p.len() as int) =~= Seq::<char>::empty());
    } else {
        assert(p.subrange(k, p.len() as int) =~= p);
    }
}

/// The `@font-face` rules of a family's files with their data, one per
/// file in order; none when there is no file.
pub fn font_face_css(family: &str, files: &[(FontVariant, Vec<u8>)]) -> (r: Option<String>)
    ensures
        files@.len() == 0 ==> r is None,
        files@.len() > 0 ==> (r matches Some(css) && css@ == font_face_rules(family@, files@)),
{
    if files.len() == 0 {
        return None;
    }
    let fam = chars_of(family);
    let mut css: Vec<char> = Vec::new();
    let mut i: usize = 0;
    while i < files.len()
        invariant
            i <= files@.len(),
            fam@ == family@,
            css@ == font_face_rules(family@, files@.take(i as int)),
        decreases files.len() - i,
    {
        let v = &files[i].0;
        let data = &files[i].1;
        append_str(&mut css, "@font-face { font-family: '");
        append_chars(&mut css, fam.as_slice());
        append_str(&mut css, "'; font-weight: ");
        append_chars(&mut css, chars_of(v.weight.as_str()).as_slice());
        append_str(&mut css, "; font-style: ");
        append_chars(&mut css, chars_of(v.style.as_str()).as_slice());
        append_str(&mut css, "; src: url('data:");
        append_str(&mut css, mime_of(chars_of(v.path.as_str()).as_slice()));
        append_str(&mut css, ";base64,");
        let b64 = base64_encode(data.as_slice());
        append_chars(&mut css, chars_of(b64.as_str()).as_slice());
        append_str(&mut css, "'); }\n");
        assert(files@.take(i + 1).drop_last() =~= files@.take(i as int));
        assert(files@.take(i + 1).last() == files@[i as int]);
        i += 1;
    }
    assert(files@.take(files@.len() as int) =~= files@);
    Some(string_of(css.as_slice()))
}

} // verus!
