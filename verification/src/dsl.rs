//! The layout language of the desktop client: `line(a, b)`, `col(..)` and
//! `tabs(..)` splits of named panes, with labels, weights and commands.
//!
//! The reader works on the characters of the text; where it reports a
//! position, it is the byte offset of the character in the text's UTF-8
//! encoding.
use vstd::prelude::*;
use vstd::utf8::{char_is_scalar, char_u32_cast, encode_scalar, encode_utf8, has_width_1_encoding, has_width_2_encoding, has_width_3_encoding, has_width_4_encoding};
use vstd::string::StringSliceAdditionalSpecFns;
use crate::bsp::{opt_view, child_view, children_view, child_text, children_text, escape_char, escaped, is_special, keyword, needs_quotes, node_text, quoted_name, lemma_children_view_len, lemma_children_view_push, node_view, BspChild, BspNode, ChildV, Direction, NodeV};
use crate::text::{append_chars, append_str, chars_eq_str, chars_of, is_ws, dec, dec_u64, string_of, sub_vec};

verus! {

broadcast use vstd::string::group_string_axioms;

// ───────────────────────────── byte offsets ─────────────────────────────

/// The number of bytes of a character in UTF-8.
pub open spec fn utf8_width(c: char) -> nat {
    let u = c as u32;
    if u <= 0x7f {
        1
    } else if u <= 0x7ff {
        2
    } else if u <= 0xffff {
        3
    } else {
        4
    }
}

/// The number of bytes of a text in UTF-8.
pub open spec fn utf8_len(s: Seq<char>) -> nat
    decreases s.len(),
{
    if s.len() == 0 {
        0
    } else {
        utf8_len(s.drop_last()) + utf8_width(s.last())
    }
}

/// The byte offset of the character at index `i`.
pub open spec fn byte_pos(s: Seq<char>, i: int) -> nat {
    utf8_len(s.take(i))
}

proof fn lemma_encode_push(a: Seq<char>, c: char)
    ensures
        encode_utf8(a.push(c)) == encode_utf8(a) + encode_scalar(c as u32),
    decreases a.len(),
{
    if a.len() == 0 {
        assert(a.push(c).drop_first() =~= Seq::<char>::empty());
        assert(encode_utf8(a.push(c)) =~= encode_scalar(c as u32) + encode_utf8(Seq::<char>::empty()));
        assert(encode_utf8(a) =~= Seq::<u8>::empty());
        assert(encode_utf8(a) + encode_scalar(c as u32) =~= encode_scalar(c as u32));
    } else {
        assert(a.push(c).drop_first() =~= a.drop_first().push(c));
        lemma_encode_push(a.drop_first(), c);
        assert(encode_utf8(a.push(c)) =~= encode_scalar(a[0] as u32) + encode_utf8(a.drop_first().push(c)));
        assert(encode_utf8(a.push(c)) =~= encode_utf8(a) + encode_scalar(c as u32));
    }
}

proof fn lemma_scalar_width(c: char)
    ensures
        encode_scalar(c as u32).len() == utf8_width(c),
{
    char_is_scalar(c);
}

/// The UTF-8 length of a text is that of its encoding.
proof fn lemma_utf8_len(s: Seq<char>)
    ensures
        utf8_len(s) == encode_utf8(s).len(),
    decreases s.len(),
{
    if s.len() > 0 {
        lemma_utf8_len(s.drop_last());
        lemma_encode_push(s.drop_last(), s.last());
        assert(s.drop_last().push(s.last()) =~= s);
        lemma_scalar_width(s.last());
    } else {
        assert(encode_utf8(s) =~= Seq::<u8>::empty());
    }
}

proof fn lemma_utf8_len_take(s: Seq<char>, i: int)
    requires
        0 <= i <= s.len(),
    ensures
        utf8_len(s.take(i)) <= utf8_len(s),
    decreases s.len() - i,
{
    if i < s.len() {
        lemma_utf8_len_take(s, i + 1);
        assert(s.take(i + 1).drop_last() =~= s.take(i));
    } else {
        assert(s.take(i) =~= s);
    }
}

fn char_width(c: char) -> (r: usize)
    ensures
        r == utf8_width(c),
{
    let u = c as u32;
    if u <= 0x7f {
        1
    } else if u <= 0x7ff {
        2
    } else if u <= 0xffff {
        3
    } else {
        4
    }
}

/// The byte offset of the character at index `i`, where the text is `nb`
/// bytes long.
fn byte_offset(s: &[char], nb: usize, i: usize) -> (r: usize)
    requires
        i <= s@.len(),
        nb == utf8_len(s@),
    ensures
        r == byte_pos(s@, i as int),
{
    let mut k: usize = 0;
    let mut acc: usize = 0;
    while k < i
        invariant
            k <= i <= s@.len(),
            nb == utf8_len(s@),
            acc == utf8_len(s@.take(k as int)),
        decreases i - k,
    {
        proof {
            assert(s@.take(k + 1).drop_last() =~= s@.take(k as int));
            lemma_utf8_len_take(s@, k + 1);
        }
        acc = acc + char_width(s[k]);
        k += 1;
    }
    acc
}

// ───────────────────────────── characters ─────────────────────────────

/// `u8::is_ascii_whitespace`: space, tab, line feed, form feed and
/// carriage return.
pub open spec fn is_blank(c: char) -> bool {
    c == ' ' || c == '\t' || c == '\n' || c == '\x0C' || c == '\r'
}

/// A character that ends a bare name: a blank or a special character.
pub open spec fn ends_name(c: char) -> bool {
    is_blank(c) || is_special(c)
}

/// The chars that the reader makes of a character inside quotes: one per
/// byte of its UTF-8 encoding, the byte taken as a code point (so a
/// character outside ASCII comes out as several).
pub open spec fn byte_chars(c: char) -> Seq<char> {
    let e = encode_scalar(c as u32);
    Seq::new(e.len(), |k: int| e[k] as char)
}

fn is_blank_char(c: char) -> (r: bool)
    ensures
        r == is_blank(c),
{
    c == ' ' || c == '\t' || c == '\n' || c == '\x0C' || c == '\r'
}

fn ends_name_char(c: char) -> (r: bool)
    ensures
        r == ends_name(c),
{
    is_blank_char(c) || c == '(' || c == ')' || c == ',' || c == '@' || c == '\'' || c == '"' || c
        == '\\' || c == ':' || c == '='
}

fn push_byte_chars(out: &mut Vec<char>, c: char)
    ensures
        final(out)@ == old(out)@ + byte_chars(c),
{
    let u = c as u32;
    proof {
        char_is_scalar(c);
    }
    if u <= 0x7f {
        let b: u8 = (u & 0x7F) as u8;
        out.push(b as char);
    } else if u <= 0x7ff {
        let b1: u8 = 0xC0 | ((u >> 6) & 0x1F) as u8;
        let b2: u8 = 0x80 | (u & 0x3F) as u8;
        out.push(b1 as char);
        out.push(b2 as char);
    } else if u <= 0xffff {
        let b1: u8 = 0xE0 | ((u >> 12) & 0x0F) as u8;
        let b2: u8 = 0x80 | ((u >> 6) & 0x3F) as u8;
        let b3: u8 = 0x80 | (u & 0x3F) as u8;
        out.push(b1 as char);
        out.push(b2 as char);
        out.push(b3 as char);
    } else {
        let b1: u8 = 0xF0 | ((u >> 18) & 0x7) as u8;
        let b2: u8 = 0x80 | ((u >> 12) & 0x3F) as u8;
        let b3: u8 = 0x80 | ((u >> 6) & 0x3F) as u8;
        let b4: u8 = 0x80 | (u & 0x3F) as u8;
        out.push(b1 as char);
        out.push(b2 as char);
        out.push(b3 as char);
        out.push(b4 as char);
    }
    assert(out@ =~= old(out)@ + byte_chars(c));
}


// ───────────────────────────── tokens ─────────────────────────────

/// The first index at or after `p` that is not a blank.
pub open spec fn skip_blanks(s: Seq<char>, p: int) -> int
    decreases s.len() - p,
{
    if 0 <= p < s.len() && is_blank(s[p]) {
        skip_blanks(s, p + 1)
    } else {
        p
    }
}

/// The end of a bare name that starts at `p`.
pub open spec fn name_end(s: Seq<char>, p: int) -> int
    decreases s.len() - p,
{
    if 0 <= p < s.len() && !ends_name(s[p]) {
        name_end(s, p + 1)
    } else {
        p
    }
}

/// The rest of a quoted name from `i`, after `acc` was read, closed by
/// the quote `q`: a backslash takes the next character as it is. Gives the
/// name and the index after the closing quote, or none and the end of
/// the text when the quote is not closed.
pub open spec fn quoted_rest(s: Seq<char>, q: char, i: int, acc: Seq<char>) -> (Option<Seq<char>>, int)
    decreases s.len() - i,
{
    if i < 0 || i >= s.len() {
        (None, s.len() as int)
    } else if s[i] == '\\' && i + 1 < s.len() {
        quoted_rest(s, q, i + 2, acc + byte_chars(s[i + 1]))
    } else if s[i] == q {
        (Some(acc), i + 1)
    } else {
        quoted_rest(s, q, i + 1, acc + byte_chars(s[i]))
    }
}

/// The message for a missing name.
pub open spec fn no_name_error(s: Seq<char>, p: int) -> Seq<char> {
    "expected identifier at pos "@ + dec(byte_pos(s, p))
}

/// A name at `p` after blanks: a quoted one (in `"` or `'`), or a bare
/// one of at least one character. Gives it, or the error, with the index
/// after what was read.
pub open spec fn name_at(s: Seq<char>, p: int) -> (Result<Seq<char>, Seq<char>>, int) {
    let p0 = skip_blanks(s, p);
    if 0 <= p0 < s.len() && (s[p0] == '"' || s[p0] == '\'') {
        match quoted_rest(s, s[p0], p0 + 1, seq![]) {
            (Some(t), e) => (Ok(t), e),
            (None, e) => (Err("unterminated string"@), e),
        }
    } else {
        let e = name_end(s, p0);
        if e == p0 {
            (Err(no_name_error(s, p0)), p0)
        } else {
            (Ok(s.subrange(p0, e)), e)
        }
    }
}

proof fn lemma_skip_blanks(s: Seq<char>, p: int)
    requires
        0 <= p <= s.len(),
    ensures
        p <= skip_blanks(s, p) <= s.len(),
        skip_blanks(s, p) < s.len() ==> !is_blank(s[skip_blanks(s, p)]),
        skip_blanks(s, skip_blanks(s, p)) == skip_blanks(s, p),
    decreases s.len() - p,
{
    if p < s.len() && is_blank(s[p]) {
        lemma_skip_blanks(s, p + 1);
    }
}

proof fn lemma_name_end(s: Seq<char>, p: int)
    requires
        0 <= p <= s.len(),
    ensures
        p <= name_end(s, p) <= s.len(),
    decreases s.len() - p,
{
    if p < s.len() && !ends_name(s[p]) {
        lemma_name_end(s, p + 1);
    }
}

proof fn lemma_quoted_rest(s: Seq<char>, q: char, i: int, acc: Seq<char>)
    requires
        0 <= i,
    ensures
        quoted_rest(s, q, i, acc).1 <= s.len() || quoted_rest(s, q, i, acc).1 == i + 1,
        i <= s.len() ==> i < quoted_rest(s, q, i, acc).1 <= s.len() || (i == s.len()
            && quoted_rest(s, q, i, acc).1 == s.len()),
    decreases s.len() - i,
{
    if i < s.len() {
        if s[i] == '\\' && i + 1 < s.len() {
            lemma_quoted_rest(s, q, i + 2, acc + byte_chars(s[i + 1]));
        } else if s[i] != q {
            lemma_quoted_rest(s, q, i + 1, acc + byte_chars(s[i]));
        }
    }
}

/// The index after a name that was read is past `p` and within the text.
proof fn lemma_name_at(s: Seq<char>, p: int)
    requires
        0 <= p <= s.len(),
    ensures
        p <= name_at(s, p).1 <= s.len(),
        name_at(s, p).0 is Ok ==> p < name_at(s, p).1,
{
    lemma_skip_blanks(s, p);
    let p0 = skip_blanks(s, p);
    if 0 <= p0 < s.len() && (s[p0] == '"' || s[p0] == '\'') {
        lemma_quoted_rest(s, s[p0], p0 + 1, seq![]);
    } else {
        lemma_name_end(s, p0);
    }
}

fn skip_blanks_at(s: &[char], p: usize) -> (r: usize)
    requires
        p <= s@.len(),
    ensures
        r == skip_blanks(s@, p as int),
{
    proof {
        lemma_skip_blanks(s@, p as int);
    }
    let mut i = p;
    while i < s.len() && is_blank_char(s[i])
        invariant
            p <= i <= s@.len(),
            skip_blanks(s@, i as int) == skip_blanks(s@, p as int),
        decreases s.len() - i,
    {
        i += 1;
    }
    i
}

/// The view of a name's result.
pub open spec fn name_view(r: (Result<Vec<char>, String>, usize)) -> (Result<Seq<char>, Seq<char>>, int) {
    (match r.0 {
        Ok(t) => Ok(t@),
        Err(e) => Err(e@),
    }, r.1 as int)
}

fn error_at(prefix: &str, s: &[char], nb: usize, p: usize) -> (r: String)
    requires
        p <= s@.len(),
        nb == utf8_len(s@),
    ensures
        r@ == prefix@ + dec(byte_pos(s@, p as int)),
{
    let mut out = chars_of(prefix);
    let off = byte_offset(s, nb, p);
    let d = dec_u64(off as u64);
    append_chars(&mut out, d.as_slice());
    string_of(out.as_slice())
}

fn quoted_at(s: &[char], q: char, p: usize) -> (r: (Option<Vec<char>>, usize))
    requires
        p <= s@.len(),
    ensures
        (match r.0 {
            Some(t) => Some(t@),
            None => None,
        }, r.1 as int) == quoted_rest(s@, q, p as int, seq![]),
{
    let mut acc: Vec<char> = Vec::new();
    let mut i = p;
    let n = s.len();
    while i < n
        invariant
            n == s@.len(),
            p <= i <= n,
            quoted_rest(s@, q, i as int, acc@) == quoted_rest(s@, q, p as int, seq![]),
        decreases n - i,
    {
        let c = s[i];
        if c == '\\' && i + 1 < n {
            push_byte_chars(&mut acc, s[i + 1]);
            i += 2;
        } else if c == q {
            return (Some(acc), i + 1);
        } else {
            push_byte_chars(&mut acc, c);
            i += 1;
        }
    }
    (None, n)
}

fn name_at_exec(s: &[char], nb: usize, p: usize) -> (r: (Result<Vec<char>, String>, usize))
    requires
        p <= s@.len(),
        nb == utf8_len(s@),
    ensures
        name_view(r) == name_at(s@, p as int),
{
    let p0 = skip_blanks_at(s, p);
    proof {
        lemma_skip_blanks(s@, p as int);
    }
    if p0 < s.len() && (s[p0] == '"' || s[p0] == '\'') {
        let (t, e) = quoted_at(s, s[p0], p0 + 1);
        match t {
            Some(t) => (Ok(t), e),
            None => (Err(string_of(chars_of("unterminated string").as_slice())), e),
        }
    } else {
        proof {
            lemma_name_end(s@, p0 as int);
        }
        let mut e = p0;
        while e < s.len() && !ends_name_char(s[e])
            invariant
                p0 <= e <= s@.len(),
                name_end(s@, e as int) == name_end(s@, p0 as int),
            decreases s.len() - e,
        {
            e += 1;
        }
        if e == p0 {
            (Err(error_at("expected identifier at pos ", s, nb, p0)), p0)
        } else {
            (Ok(sub_vec(s, p0, e)), e)
        }
    }
}


/// `ch` after blanks at `p`: the index after it, or the error at the
/// first non-blank.
pub open spec fn expect_at(s: Seq<char>, p: int, ch: char) -> (Result<(), Seq<char>>, int) {
    let p0 = skip_blanks(s, p);
    if 0 <= p0 < s.len() && s[p0] == ch {
        (Ok(()), p0 + 1)
    } else {
        (Err("expected '"@ + seq![ch] + "' at pos "@ + dec(byte_pos(s, p0))), p0)
    }
}

/// A character of a number: an ASCII digit or a dot.
pub open spec fn is_number_char(c: char) -> bool {
    ('0' <= c && c <= '9') || c == '.'
}

/// The end of the digits and dots from `p`.
pub open spec fn number_end(s: Seq<char>, p: int) -> int
    decreases s.len() - p,
{
    if 0 <= p < s.len() && is_number_char(s[p]) {
        number_end(s, p + 1)
    } else {
        p
    }
}

/// Whether digits and dots that start with a digit are a decimal number
/// that `f32::from_str` takes: at most one dot.
pub open spec fn one_dot_at_most(t: Seq<char>) -> bool {
    forall|i: int, j: int| 0 <= i < j < t.len() && t[i] == '.' ==> t[j] != '.'
}

/// A weight after blanks at `p`: when a digit comes, the digits and dots
/// from there (their text if it is a number, none if not) and the index
/// after them; else none and `p` itself.
pub open spec fn weight_at(s: Seq<char>, p: int) -> (Option<Seq<char>>, int) {
    let p0 = skip_blanks(s, p);
    if 0 <= p0 < s.len() && '0' <= s[p0] && s[p0] <= '9' {
        let e = number_end(s, p0);
        let t = s.subrange(p0, e);
        (if one_dot_at_most(t) {
            Some(t)
        } else {
            None
        }, e)
    } else {
        (None, p)
    }
}

/// A command after blanks at `p`: `=` and a name. Gives the name (none
/// when there is no `=` or no name after it) and the index after what was
/// read.
pub open spec fn command_at(s: Seq<char>, p: int) -> (Option<Seq<char>>, int) {
    let p0 = skip_blanks(s, p);
    if 0 <= p0 < s.len() && s[p0] == '=' {
        let (r, e) = name_at(s, p0 + 1);
        (match r {
            Ok(t) => Some(t),
            Err(_) => None,
        }, e)
    } else {
        (None, p0)
    }
}

proof fn lemma_number_end(s: Seq<char>, p: int)
    requires
        0 <= p <= s.len(),
    ensures
        p <= number_end(s, p) <= s.len(),
    decreases s.len() - p,
{
    if p < s.len() && is_number_char(s[p]) {
        lemma_number_end(s, p + 1);
    }
}

proof fn lemma_weight_command(s: Seq<char>, p: int)
    requires
        0 <= p <= s.len(),
    ensures
        p <= weight_at(s, p).1 <= s.len(),
        p <= command_at(s, p).1 <= s.len(),
{
    lemma_skip_blanks(s, p);
    let p0 = skip_blanks(s, p);
    lemma_number_end(s, p0);
    if 0 <= p0 < s.len() && s[p0] == '=' {
        lemma_name_at(s, p0 + 1);
    }
}

fn expect_exec(s: &[char], nb: usize, p: usize, ch: char) -> (r: (Result<(), String>, usize))
    requires
        p <= s@.len(),
        nb == utf8_len(s@),
    ensures
        (match r.0 {
            Ok(u) => Ok(u),
            Err(e) => Err(e@),
        }, r.1 as int) == expect_at(s@, p as int, ch),
        p <= r.1 <= s@.len(),
        r.0 is Ok ==> p < r.1,
{
    let p0 = skip_blanks_at(s, p);
    proof {
        lemma_skip_blanks(s@, p as int);
    }
    if p0 < s.len() && s[p0] == ch {
        (Ok(()), p0 + 1)
    } else {
        let mut msg = chars_of("expected '");
        msg.push(ch);
        append_str(&mut msg, "' at pos ");
        let off = byte_offset(s, nb, p0);
        let d = dec_u64(off as u64);
        append_chars(&mut msg, d.as_slice());
        assert(msg@ =~= "expected '"@ + seq![ch] + "' at pos "@ + dec(byte_pos(s@, p0 as int)));
        (Err(string_of(msg.as_slice())), p0)
    }
}

fn weight_exec(s: &[char], p: usize) -> (r: (Option<String>, usize))
    requires
        p <= s@.len(),
    ensures
        (match r.0 {
            Some(t) => Some(t@),
            None => None,
        }, r.1 as int) == weight_at(s@, p as int),
{
    let p0 = skip_blanks_at(s, p);
    proof {
        lemma_skip_blanks(s@, p as int);
    }
    if p0 < s.len() && '0' <= s[p0] && s[p0] <= '9' {
        proof {
            lemma_number_end(s@, p0 as int);
        }
        let mut e = p0;
        let mut dots: usize = 0;
        while e < s.len() && (('0' <= s[e] && s[e] <= '9') || s[e] == '.')
            invariant
                p0 <= e <= s@.len(),
                p0 == skip_blanks(s@, p as int),
                p0 < s@.len(),
                '0' <= s@[p0 as int] && s@[p0 as int] <= '9',
                number_end(s@, e as int) == number_end(s@, p0 as int),
                forall|k: int| p0 <= k < e ==> is_number_char(#[trigger] s@[k]),
                dots <= 1,
                dots == 0 <==> (forall|k: int| p0 <= k < e ==> #[trigger] s@[k] != '.'),
                dots == 1 ==> one_dot_at_most(s@.subrange(p0 as int, e as int)),
            decreases s.len() - e,
        {
            if s[e] == '.' {
                if dots == 1 {
                    let ghost t = s@.subrange(p0 as int, number_end(s@, p0 as int));
                    let ghost k = choose|k: int| p0 <= k < e && #[trigger] s@[k] == '.';
                    proof {
                        assert(exists|k: int| p0 <= k < e && #[trigger] s@[k] == '.');
                        assert(p0 <= k < e && s@[k] == '.');
                        lemma_number_end_sub(s@, p0 as int, e as int);
                        lemma_number_end(s@, p0 as int);
                        assert(e < number_end(s@, p0 as int));
                        assert(t[k - p0] == '.');
                        assert(t[e - p0] == '.');
                        assert(!one_dot_at_most(t));
                    }
                    let mut e2 = e;
                    while e2 < s.len() && (('0' <= s[e2] && s[e2] <= '9') || s[e2] == '.')
                        invariant
                            e <= e2 <= s@.len(),
                            p0 == skip_blanks(s@, p as int),
                            p0 < s@.len(),
                            '0' <= s@[p0 as int] && s@[p0 as int] <= '9',
                            t == s@.subrange(p0 as int, number_end(s@, p0 as int)),
                            !one_dot_at_most(t),
                            number_end(s@, e2 as int) == number_end(s@, p0 as int),
                        decreases s.len() - e2,
                    {
                        e2 += 1;
                    }
                    return (None, e2);
                }
                dots = 1;
                assert(one_dot_at_most(s@.subrange(p0 as int, e + 1)));
            } else if dots == 1 {
                assert(one_dot_at_most(s@.subrange(p0 as int, e + 1)));
            }
            e += 1;
        }
        let t = sub_vec(s, p0, e);
        assert(t@ =~= s@.subrange(p0 as int, e as int));
        (Some(string_of(t.as_slice())), e)
    } else {
        (None, p)
    }
}

proof fn lemma_number_end_sub(s: Seq<char>, p0: int, e: int)
    requires
        0 <= p0 <= e < s.len(),
        is_number_char(s[e]),
        forall|k: int| p0 <= k < e ==> is_number_char(#[trigger] s[k]),
        number_end(s, e) == number_end(s, p0),
    ensures
        e < number_end(s, p0),
{
    lemma_number_end(s, e + 1);
}

fn command_exec(s: &[char], nb: usize, p: usize) -> (r: (Option<String>, usize))
    requires
        p <= s@.len(),
        nb == utf8_len(s@),
    ensures
        (match r.0 {
            Some(t) => Some(t@),
            None => None,
        }, r.1 as int) == command_at(s@, p as int),
{
    let p0 = skip_blanks_at(s, p);
    proof {
        lemma_skip_blanks(s@, p as int);
    }
    if p0 < s.len() && s[p0] == '=' {
        let (r, e) = name_at_exec(s, nb, p0 + 1);
        match r {
            Ok(t) => (Some(string_of(t.as_slice())), e),
            Err(_) => (None, e),
        }
    } else {
        (None, p0)
    }
}


// ───────────────────────────── layouts ─────────────────────────────

/// The split direction that a name stands for: `line`, `col` or `tabs`.
pub open spec fn keyword_direction(id: Seq<char>) -> Option<Direction> {
    if id == keyword(Direction::Horizontal) {
        Some(Direction::Horizontal)
    } else if id == keyword(Direction::Vertical) {
        Some(Direction::Vertical)
    } else if id == keyword(Direction::Tabs) {
        Some(Direction::Tabs)
    } else {
        None
    }
}

/// An entry of a layout at `p`: a name, then
/// - for a keyword, the split it opens, and a weight;
/// - for another name followed by `:`, that name is the label of the
///   entry after the colon: a split (for a keyword) with a weight, or a
///   pane with a weight and a command;
/// - else a pane of that tag with a weight and a command.
/// Gives the entry or the first error, with the index after what was read.
pub open spec fn entry_at(s: Seq<char>, p: int) -> (Result<ChildV, Seq<char>>, int)
    decreases s.len() - p, 0int,
{
    if p < 0 || p > s.len() {
        (Err(seq![]), p)
    } else {
        let (r1, p1) = name_at(s, p);
        match r1 {
            Err(e) => (Err(e), p1),
            Ok(id) => {
                let p2 = skip_blanks(s, p1);
                match keyword_direction(id) {
                    Some(d) => if p < p2 <= s.len() {
                        match split_at(s, p2, d) {
                            (Ok(node), p3) => {
                                let (w, p4) = weight_at(s, skip_blanks(s, p3));
                                (Ok(ChildV { node, weight: w, label: None }), p4)
                            },
                            (Err(e), p3) => (Err(e), p3),
                        }
                    } else {
                        (Err(seq![]), p2)
                    },
                    None => if p2 < s.len() && s[p2] == ':' {
                        let (r2, p3) = name_at(s, p2 + 1);
                        match r2 {
                            Err(e) => (Err(e), p3),
                            Ok(nid) => match keyword_direction(nid) {
                                Some(d) => if p < p3 <= s.len() {
                                    match split_at(s, p3, d) {
                                        (Ok(node), p4) => {
                                            let (w, p5) = weight_at(s, skip_blanks(s, p4));
                                            (Ok(ChildV { node, weight: w, label: Some(id) }), p5)
                                        },
                                        (Err(e), p4) => (Err(e), p4),
                                    }
                                } else {
                                    (Err(seq![]), p3)
                                },
                                None => {
                                    let (w, p4) = weight_at(s, skip_blanks(s, p3));
                                    let (c, p5) = command_at(s, p4);
                                    (Ok(ChildV { node: NodeV::Leaf { tag: nid, command: c }, weight: w, label: Some(id) }), p5)
                                },
                            },
                        }
                    } else {
                        let (w, p3) = weight_at(s, p2);
                        let (c, p4) = command_at(s, p3);
                        (Ok(ChildV { node: NodeV::Leaf { tag: id, command: c }, weight: w, label: None }), p4)
                    },
                }
            },
        }
    }
}

/// A split of direction `d` at `p`: `(`, its entries separated by `,`,
/// and `)`; other than tabs it needs two entries at least.
pub open spec fn split_at(s: Seq<char>, p: int, d: Direction) -> (Result<NodeV, Seq<char>>, int)
    decreases s.len() - p, 0int,
{
    if p < 0 || p > s.len() {
        (Err(seq![]), p)
    } else {
        match expect_at(s, p, '(') {
            (Err(e), p1) => (Err(e), p1),
            (Ok(_), p1) => if p < p1 <= s.len() {
                match children_at(s, p1, seq![]) {
                    (Ok(cs), p2) => if cs.len() < 2 && d != Direction::Tabs {
                        (Err("split must have at least 2 children"@), p2)
                    } else {
                        (Ok(NodeV::Split { direction: d, children: cs }), p2)
                    },
                    (Err(e), p2) => (Err(e), p2),
                }
            } else {
                (Err(seq![]), p1)
            },
        }
    }
}

/// The entries of a split from `p` on, after those in `acc`, up to its
/// closing bracket.
pub open spec fn children_at(s: Seq<char>, p: int, acc: Seq<ChildV>) -> (Result<Seq<ChildV>, Seq<char>>, int)
    decreases s.len() - p, 1int,
{
    if p < 0 || p > s.len() {
        (Err(seq![]), p)
    } else {
        let p0 = skip_blanks(s, p);
        if p0 < s.len() && s[p0] == ')' {
            (Ok(acc), p0 + 1)
        } else {
            let (r, p1) = if acc.len() > 0 {
                expect_at(s, p0, ',')
            } else {
                (Ok(()), p0)
            };
            match r {
                Err(e) => (Err(e), p1),
                Ok(_) => if p <= p1 <= s.len() {
                    match entry_at(s, p1) {
                        (Ok(c), p2) => if p < p2 <= s.len() {
                            children_at(s, p2, acc.push(c))
                        } else {
                            (Err(seq![]), p2)
                        },
                        (Err(e), p2) => (Err(e), p2),
                    }
                } else {
                    (Err(seq![]), p1)
                },
            }
        }
    }
}

/// The layout that a text describes: its first entry, from the start
/// (what follows it is not read).
pub open spec fn layout_of(s: Seq<char>) -> Result<(NodeV, Option<Seq<char>>), Seq<char>> {
    match entry_at(s, 0).0 {
        Ok(c) => Ok((c.node, c.weight)),
        Err(e) => Err(e),
    }
}

fn keyword_exec(id: &[char]) -> (r: Option<Direction>)
    ensures
        r == keyword_direction(id@),
{
    proof {
        reveal_strlit("line");
        reveal_strlit("col");
        reveal_strlit("tabs");
    }
    assert("line"@ =~= keyword(Direction::Horizontal));
    assert("col"@ =~= keyword(Direction::Vertical));
    assert("tabs"@ =~= keyword(Direction::Tabs));
    if chars_eq_str(id, "line") {
        Some(Direction::Horizontal)
    } else if chars_eq_str(id, "col") {
        Some(Direction::Vertical)
    } else if chars_eq_str(id, "tabs") {
        Some(Direction::Tabs)
    } else {
        None
    }
}

/// The view of an entry's result.
pub open spec fn entry_view(r: (Result<BspChild, String>, usize)) -> (Result<ChildV, Seq<char>>, int) {
    (match r.0 {
        Ok(c) => Ok(child_view(c)),
        Err(e) => Err(e@),
    }, r.1 as int)
}

/// The view of a split's result.
pub open spec fn split_view(r: (Result<BspNode, String>, usize)) -> (Result<NodeV, Seq<char>>, int) {
    (match r.0 {
        Ok(n) => Ok(node_view(n)),
        Err(e) => Err(e@),
    }, r.1 as int)
}


fn entry_exec(s: &[char], nb: usize, p: usize) -> (r: (Result<BspChild, String>, usize))
    requires
        p <= s@.len(),
        nb == utf8_len(s@),
    ensures
        entry_view(r) == entry_at(s@, p as int),
        p <= r.1 <= s@.len(),
        r.0 is Ok ==> p < r.1,
    decreases s@.len() - p,
{
    let (r1, p1) = name_at_exec(s, nb, p);
    proof {
        lemma_name_at(s@, p as int);
    }
    let id = match r1 {
        Err(e) => {
            return (Err(e), p1);
        },
        Ok(id) => id,
    };
    let p2 = skip_blanks_at(s, p1);
    proof {
        lemma_skip_blanks(s@, p1 as int);
    }
    match keyword_exec(id.as_slice()) {
        Some(d) => {
            let (sr, p3) = split_exec(s, nb, p2, d);
            match sr {
                Ok(node) => {
                    let q = skip_blanks_at(s, p3);
                    proof {
                        lemma_skip_blanks(s@, p3 as int);
                        lemma_weight_command(s@, q as int);
                    }
                    let (w, p4) = weight_exec(s, q);
                    (Ok(BspChild { node, weight: w, label: None }), p4)
                },
                Err(e) => (Err(e), p3),
            }
        },
        None => {
            if p2 < s.len() && s[p2] == ':' {
                let (r2, p3) = name_at_exec(s, nb, p2 + 1);
                proof {
                    lemma_name_at(s@, p2 + 1);
                }
                let nid = match r2 {
                    Err(e) => {
                        return (Err(e), p3);
                    },
                    Ok(nid) => nid,
                };
                let label = string_of(id.as_slice());
                match keyword_exec(nid.as_slice()) {
                    Some(d) => {
                        let (sr, p4) = split_exec(s, nb, p3, d);
                        match sr {
                            Ok(node) => {
                                let q = skip_blanks_at(s, p4);
                                proof {
                                    lemma_skip_blanks(s@, p4 as int);
                                    lemma_weight_command(s@, q as int);
                                }
                                let (w, p5) = weight_exec(s, q);
                                (Ok(BspChild { node, weight: w, label: Some(label) }), p5)
                            },
                            Err(e) => (Err(e), p4),
                        }
                    },
                    None => {
                        let q = skip_blanks_at(s, p3);
                        proof {
                            lemma_skip_blanks(s@, p3 as int);
                            lemma_weight_command(s@, q as int);
                        }
                        let (w, p4) = weight_exec(s, q);
                        proof {
                            lemma_weight_command(s@, p4 as int);
                        }
                        let (c, p5) = command_exec(s, nb, p4);
                        let tag = string_of(nid.as_slice());
                        (Ok(BspChild { node: BspNode::Leaf { tag, command: c }, weight: w, label: Some(label) }), p5)
                    },
                }
            } else {
                proof {
                    lemma_weight_command(s@, p2 as int);
                }
                let (w, p3) = weight_exec(s, p2);
                proof {
                    lemma_weight_command(s@, p3 as int);
                }
                let (c, p4) = command_exec(s, nb, p3);
                let tag = string_of(id.as_slice());
                (Ok(BspChild { node: BspNode::Leaf { tag, command: c }, weight: w, label: None }), p4)
            }
        },
    }
}

fn split_exec(s: &[char], nb: usize, p: usize, d: Direction) -> (r: (Result<BspNode, String>, usize))
    requires
        p <= s@.len(),
        nb == utf8_len(s@),
    ensures
        split_view(r) == split_at(s@, p as int, d),
        p <= r.1 <= s@.len(),
        r.0 is Ok ==> p < r.1,
    decreases s@.len() - p,
{
    let (er, p1) = expect_exec(s, nb, p, '(');
    if let Err(e) = er {
        return (Err(e), p1);
    }
    let ghost start = children_at(s@, p1 as int, seq![]);
    let mut children: Vec<BspChild> = Vec::new();
    let mut pos = p1;
    assert(children_view(children@) =~= Seq::<ChildV>::empty());
    loop
        invariant
            p < p1 <= pos <= s@.len(),
            nb == utf8_len(s@),
            split_at(s@, p as int, d) == (match start {
                (Ok(cs), p2) => if cs.len() < 2 && d != Direction::Tabs {
                    (Err("split must have at least 2 children"@), p2)
                } else {
                    (Ok(NodeV::Split { direction: d, children: cs }), p2)
                },
                (Err(e), p2) => (Err(e), p2),
            }),
            children_at(s@, pos as int, children_view(children@)) == start,
        decreases s@.len() - pos,
    {
        let p0 = skip_blanks_at(s, pos);
        proof {
            lemma_skip_blanks(s@, pos as int);
            lemma_children_view_len(children@);
        }
        if p0 < s.len() && s[p0] == ')' {
            let end = p0 + 1;
            if children.len() < 2 && d != Direction::Tabs {
                return (Err(string_of(chars_of("split must have at least 2 children").as_slice())), end);
            }
            return (Ok(BspNode::Split { direction: d, children }), end);
        }
        let q = if children.len() > 0 {
            let (cr, q) = expect_exec(s, nb, p0, ',');
            if let Err(e) = cr {
                return (Err(e), q);
            }
            q
        } else {
            p0
        };
        let (er2, p2) = entry_exec(s, nb, q);
        match er2 {
            Err(e) => {
                return (Err(e), p2);
            },
            Ok(c) => {
                let ghost old_children = children@;
                proof {
                    lemma_children_view_push(old_children, c);
                }
                children.push(c);
                pos = p2;
            },
        }
    }
}

/// Reads a layout text: its first entry, as a tree and the entry's
/// weight, or the first error.
pub fn parse_dsl(input: &str) -> (r: Result<(BspNode, Option<String>), String>)
    ensures
        match (r, layout_of(input@)) {
            (Ok((n, w)), Ok((nv, wv))) => node_view(n) == nv && opt_view(w) == wv,
            (Err(e), Err(ev)) => e@ == ev,
            _ => false,
        },
{
    let s = chars_of(input);
    let nb = input.as_bytes().len();
    proof {
        lemma_utf8_len(input@);
        assert(input.spec_bytes() == encode_utf8(input@));
    }
    let (r, _) = entry_exec(s.as_slice(), nb, 0);
    match r {
        Ok(c) => Ok((c.node, c.weight)),
        Err(e) => Err(e),
    }
}


// ───────────────────────────── reading back what was written ─────────────────────────────

/// A name that can be written and read back: not empty, and all ASCII
/// when it must be quoted (the reader takes quoted text byte by byte).
pub open spec fn name_ok(x: Seq<char>) -> bool {
    x.len() > 0 && (needs_quotes(x) ==> forall|i: int| 0 <= i < x.len() ==> (#[trigger] x[i] as u32) < 0x80)
}

/// A tag or label that can be read back: a good name that is not a split
/// keyword.
pub open spec fn tag_ok(x: Seq<char>) -> bool {
    name_ok(x) && keyword_direction(x) is None
}

/// A weight that can be read back: digits and dots, starting with a digit,
/// with one dot at most.
pub open spec fn weight_ok(w: Seq<char>) -> bool {
    w.len() > 0 && '0' <= w[0] && w[0] <= '9' && (forall|i: int| 0 <= i < w.len() ==> is_number_char(
        #[trigger] w[i],
    )) && one_dot_at_most(w)
}

/// What a child needs besides its node: a good label and weight, and no
/// pane with both a command and a weight (its text puts the command first,
/// where the reader wants the weight first).
pub open spec fn child_extras_ok(c: ChildV) -> bool {
    &&& (c.label matches Some(l) ==> tag_ok(l))
    &&& (c.weight matches Some(w) ==> weight_ok(w))
    &&& !(c.weight is Some && c.node matches NodeV::Leaf { command: Some(_), .. })
}

/// A layout tree whose text reads back as itself: good names, tags and
/// weights throughout, and two children at least in each split other than
/// tabs.
pub open spec fn node_ok(n: NodeV) -> bool
    decreases n,
{
    match n {
        NodeV::Leaf { tag, command } => tag_ok(tag) && (command matches Some(c) ==> name_ok(c)),
        NodeV::Split { direction, children } => (children.len() >= 2 || direction == Direction::Tabs)
            && forall|i: int|
            0 <= i < children.len() ==> node_ok(#[trigger] children[i].node) && child_extras_ok(children[i]),
    }
}


/// `t` stands in `s` at `p`.
pub open spec fn text_at(s: Seq<char>, p: int, t: Seq<char>) -> bool {
    0 <= p && p + t.len() <= s.len() && s.subrange(p, p + t.len()) == t
}

proof fn lemma_text_at_split(s: Seq<char>, p: int, a: Seq<char>, b: Seq<char>)
    requires
        text_at(s, p, a + b),
    ensures
        text_at(s, p, a),
        text_at(s, p + a.len(), b),
{
    let whole = s.subrange(p, p + a.len() + b.len());
    assert(whole == a + b);
    assert(s.subrange(p, p + a.len()) =~= whole.subrange(0, a.len() as int));
    assert(whole.subrange(0, a.len() as int) =~= a);
    assert(s.subrange(p + a.len(), p + a.len() + b.len()) =~= whole.subrange(a.len() as int, whole.len() as int));
    assert(whole.subrange(a.len() as int, whole.len() as int) =~= b);
}

proof fn lemma_text_at_char(s: Seq<char>, p: int, t: Seq<char>, i: int)
    requires
        text_at(s, p, t),
        0 <= i < t.len(),
    ensures
        s[p + i] == t[i],
{
    assert(s.subrange(p, p + t.len())[i] == s[p + i]);
}

proof fn lemma_blank_is_ws(c: char)
    requires
        is_blank(c),
    ensures
        is_ws(c),
{
}

proof fn lemma_byte_chars_ascii(c: char)
    requires
        (c as u32) < 0x80,
    ensures
        byte_chars(c) == seq![c],
{
    let u = c as u32;
    assert(has_width_1_encoding(u));
    assert((u & 0x7F) == u) by (bit_vector)
        requires
            u < 0x80;
    char_u32_cast(c, u);
    assert(((u & 0x7F) as u8) as char == c);
    assert(byte_chars(c) =~= seq![c]);
}

proof fn lemma_escaped_concat(a: Seq<char>, b: Seq<char>)
    ensures
        escaped(a + b) == escaped(a) + escaped(b),
    decreases b.len(),
{
    if b.len() == 0 {
        assert(a + b =~= a);
        assert(escaped(b) =~= Seq::<char>::empty());
        assert(escaped(a) + escaped(b) =~= escaped(a));
    } else {
        assert((a + b).drop_last() =~= a + b.drop_last());
        lemma_escaped_concat(a, b.drop_last());
        assert(escaped(a + b) =~= escaped(a) + escaped(b));
    }
}

proof fn lemma_escaped_front(x: Seq<char>)
    requires
        x.len() > 0,
    ensures
        escaped(x) == escape_char(x[0]) + escaped(x.drop_first()),
{
    assert(x =~= seq![x[0]] + x.drop_first());
    lemma_escaped_concat(seq![x[0]], x.drop_first());
    assert(seq![x[0]].drop_last() =~= Seq::<char>::empty());
    assert(escaped(Seq::<char>::empty()) =~= Seq::<char>::empty());
    assert(seq![x[0]].last() == x[0]);
    assert(escaped(seq![x[0]]) == escaped(Seq::<char>::empty()) + escape_char(x[0]));
    assert(escaped(seq![x[0]]) =~= escape_char(x[0]));
}

/// The text of a child.
pub open spec fn child_text_of(c: ChildV) -> Seq<char> {
    child_text(c.label, node_text(c.node), c.weight)
}

proof fn lemma_children_text_front(cs: Seq<ChildV>)
    requires
        cs.len() >= 1,
    ensures
        cs.len() == 1 ==> children_text(cs) == child_text_of(cs[0]),
        cs.len() >= 2 ==> children_text(cs) == child_text_of(cs[0]) + seq![',', ' '] + children_text(cs.drop_first()),
    decreases cs.len(),
{
    if cs.len() == 2 {
        assert(cs.drop_last() =~= seq![cs[0]]);
        assert(cs.drop_first() =~= seq![cs[1]]);
        assert(children_text(seq![cs[0]]) == child_text_of(cs[0]));
        assert(children_text(seq![cs[1]]) == child_text_of(cs[1]));
        assert(cs.last() == cs[1]);
        assert(children_text(cs) == children_text(cs.drop_last()) + seq![',', ' '] + child_text_of(cs.last()));
    } else if cs.len() > 2 {
        lemma_children_text_front(cs.drop_last());
        assert(cs.drop_last().drop_first() =~= cs.drop_first().drop_last());
        assert(cs.drop_first().last() == cs.last());
        assert(children_text(cs) =~= child_text_of(cs[0]) + seq![',', ' '] + children_text(cs.drop_first()));
    }
}


/// A position where an entry's text ends: the end of the text, or a comma
/// or closing bracket.
pub open spec fn ends_entry(s: Seq<char>, e: int) -> bool {
    e == s.len() || (0 <= e < s.len() && (s[e] == ',' || s[e] == ')'))
}

proof fn lemma_quoted_read(s: Seq<char>, i: int, acc: Seq<char>, x: Seq<char>)
    requires
        forall|k: int| 0 <= k < x.len() ==> (#[trigger] x[k] as u32) < 0x80,
        text_at(s, i, escaped(x) + seq!['"']),
    ensures
        quoted_rest(s, '"', i, acc) == (Some(acc + x), i + escaped(x).len() + 1),
    decreases x.len(),
{
    lemma_text_at_split(s, i, escaped(x), seq!['"']);
    if x.len() == 0 {
        assert(escaped(x) =~= Seq::<char>::empty());
        lemma_text_at_char(s, i + escaped(x).len(), seq!['"'], 0);
        assert(acc + x =~= acc);
    } else {
        let c = x[0];
        let rest = x.drop_first();
        lemma_escaped_front(x);
        assert(escaped(x) + seq!['"'] =~= escape_char(c) + (escaped(rest) + seq!['"']));
        lemma_text_at_split(s, i, escape_char(c), escaped(rest) + seq!['"']);
        let n = escape_char(c).len() as int;
        lemma_byte_chars_ascii(c);
        assert(forall|k: int| 0 <= k < rest.len() ==> (#[trigger] rest[k] as u32) < 0x80) by {
            assert forall|k: int| 0 <= k < rest.len() implies (#[trigger] rest[k] as u32) < 0x80 by {
                assert(rest[k] == x[k + 1]);
            }
        }
        lemma_quoted_read(s, i + n, acc + seq![c], rest);
        assert(acc + seq![c] + rest =~= acc + x);
        lemma_text_at_char(s, i, escape_char(c), 0);
        lemma_text_at_split(s, i + n, escaped(rest), seq!['"']);
        lemma_text_at_char(s, i + n + escaped(rest).len(), seq!['"'], 0);
        if c == '\\' || c == '"' {
            lemma_text_at_char(s, i, escape_char(c), 1);
            lemma_byte_chars_ascii(s[i + 1]);
        }
    }
}

proof fn lemma_bare_end(s: Seq<char>, p: int, x: Seq<char>, k: int)
    requires
        !needs_quotes(x),
        text_at(s, p, x),
        p + x.len() == s.len() || ends_name(s[p + x.len()]),
        0 <= k <= x.len(),
    ensures
        name_end(s, p + k) == p + x.len(),
    decreases x.len() - k,
{
    if k < x.len() {
        lemma_text_at_char(s, p, x, k);
        if ends_name(x[k]) {
            if is_blank(x[k]) {
                lemma_blank_is_ws(x[k]);
            }
            assert(needs_quotes(x));
        }
        lemma_bare_end(s, p, x, k + 1);
    }
}

/// The first character of a name's text: a quote, or neither a blank nor
/// a special character.
proof fn lemma_name_first(x: Seq<char>)
    requires
        x.len() > 0,
    ensures
        quoted_name(x).len() > 0,
        quoted_name(x)[0] == '"' || (!is_blank(quoted_name(x)[0]) && !is_special(quoted_name(x)[0])),
{
    if !needs_quotes(x) {
        if is_blank(x[0]) {
            lemma_blank_is_ws(x[0]);
        }
        if is_blank(x[0]) || is_special(x[0]) {
            assert(needs_quotes(x));
        }
    }
}

proof fn lemma_name_read(s: Seq<char>, p0: int, p: int, x: Seq<char>)
    requires
        name_ok(x),
        0 <= p0 <= p,
        skip_blanks(s, p0) == p,
        text_at(s, p, quoted_name(x)),
        p + quoted_name(x).len() == s.len() || ends_name(s[p + quoted_name(x).len()]),
    ensures
        name_at(s, p0) == (Ok::<Seq<char>, Seq<char>>(x), p + quoted_name(x).len()),
{
    lemma_name_first(x);
    lemma_text_at_char(s, p, quoted_name(x), 0);
    if needs_quotes(x) {
        assert(quoted_name(x) =~= seq!['"'] + (escaped(x) + seq!['"']));
        lemma_text_at_split(s, p, seq!['"'], escaped(x) + seq!['"']);
        lemma_quoted_read(s, p + 1, seq![], x);
        assert(Seq::<char>::empty() + x =~= x);
    } else {
        lemma_bare_end(s, p, x, 0);
        assert(s.subrange(p, p + x.len()) == x);
    }
}

proof fn lemma_number_read(s: Seq<char>, q: int, w: Seq<char>, k: int)
    requires
        forall|i: int| 0 <= i < w.len() ==> is_number_char(#[trigger] w[i]),
        text_at(s, q, w),
        q + w.len() == s.len() || !is_number_char(s[q + w.len()]),
        0 <= k <= w.len(),
    ensures
        number_end(s, q + k) == q + w.len(),
    decreases w.len() - k,
{
    if k < w.len() {
        lemma_text_at_char(s, q, w, k);
        lemma_number_read(s, q, w, k + 1);
    }
}

proof fn lemma_weight_read(s: Seq<char>, q: int, w: Seq<char>)
    requires
        weight_ok(w),
        text_at(s, q, w),
        q + w.len() == s.len() || !is_number_char(s[q + w.len()]),
    ensures
        weight_at(s, q) == (Some(w), q + w.len()),
{
    lemma_text_at_char(s, q, w, 0);
    lemma_number_read(s, q, w, 0);
}

proof fn lemma_no_weight(s: Seq<char>, q: int)
    requires
        0 <= q <= s.len(),
        q == s.len() || (!is_blank(s[q]) && !('0' <= s[q] && s[q] <= '9')),
    ensures
        weight_at(s, q) == (None::<Seq<char>>, q),
{
}

proof fn lemma_command_read(s: Seq<char>, q: int, c: Seq<char>)
    requires
        name_ok(c),
        text_at(s, q, seq!['='] + quoted_name(c)),
        ends_entry(s, q + 1 + quoted_name(c).len()),
    ensures
        command_at(s, q) == (Some(c), q + 1 + quoted_name(c).len()),
{
    lemma_text_at_split(s, q, seq!['='], quoted_name(c));
    lemma_text_at_char(s, q, seq!['='], 0);
    lemma_name_first(c);
    lemma_text_at_char(s, q + 1, quoted_name(c), 0);
    lemma_name_read(s, q + 1, q + 1, c);
}

proof fn lemma_no_command(s: Seq<char>, q: int)
    requires
        0 <= q <= s.len(),
        q == s.len() || (!is_blank(s[q]) && s[q] != '='),
    ensures
        command_at(s, q) == (None::<Seq<char>>, q),
{
}


proof fn lemma_keyword(d: Direction)
    ensures
        keyword(d).len() > 0,
        !needs_quotes(keyword(d)),
        name_ok(keyword(d)),
        quoted_name(keyword(d)) == keyword(d),
        keyword_direction(keyword(d)) == Some(d),
        'a' <= keyword(d)[0] && keyword(d)[0] <= 'z',
{
    let k = keyword(d);
    assert forall|i: int| 0 <= i < k.len() implies !is_ws(#[trigger] k[i]) && !is_special(k[i]) by {
        assert('a' <= k[i] && k[i] <= 'z');
    }
    assert(keyword(Direction::Horizontal) != keyword(Direction::Vertical));
    assert(keyword(Direction::Horizontal) != keyword(Direction::Tabs));
    assert(keyword(Direction::Vertical) != keyword(Direction::Tabs)) by {
        assert(keyword(Direction::Vertical).len() != keyword(Direction::Tabs).len());
    }
    assert(keyword(Direction::Horizontal)[0] != keyword(Direction::Vertical)[0]);
    assert(keyword(Direction::Horizontal)[0] != keyword(Direction::Tabs)[0]);
}

/// The weight part of a child's text.
pub open spec fn weight_text(w: Option<Seq<char>>) -> Seq<char> {
    match w {
        Some(t) => seq![' '] + t,
        None => seq![],
    }
}

/// The command part of a pane's text.
pub open spec fn command_text(c: Option<Seq<char>>) -> Seq<char> {
    match c {
        Some(t) => seq!['='] + quoted_name(t),
        None => seq![],
    }
}

proof fn lemma_weight_tail(s: Seq<char>, q: int, w: Option<Seq<char>>)
    requires
        0 <= q,
        w matches Some(t) ==> weight_ok(t),
        text_at(s, q, weight_text(w)),
        ends_entry(s, q + weight_text(w).len()),
    ensures
        weight_at(s, skip_blanks(s, q)) == (w, q + weight_text(w).len()),
        skip_blanks(s, q) < s.len() ==> s[skip_blanks(s, q)] != ':',
{
    match w {
        Some(t) => {
            assert(weight_text(w) =~= seq![' '] + t);
            lemma_text_at_split(s, q, seq![' '], t);
            lemma_text_at_char(s, q, seq![' '], 0);
            lemma_text_at_char(s, q + 1, t, 0);
            assert(skip_blanks(s, q + 1) == q + 1);
            lemma_weight_read(s, q + 1, t);
        },
        None => {},
    }
}

proof fn lemma_leaf_tail(s: Seq<char>, q: int, command: Option<Seq<char>>, w: Option<Seq<char>>)
    requires
        0 <= q,
        command matches Some(c) ==> name_ok(c),
        w matches Some(t) ==> weight_ok(t),
        !(command is Some && w is Some),
        text_at(s, q, command_text(command) + weight_text(w)),
        ends_entry(s, q + command_text(command).len() + weight_text(w).len()),
    ensures
        ({
            let (w2, q2) = weight_at(s, skip_blanks(s, q));
            let (c2, q3) = command_at(s, q2);
            w2 == w && c2 == command && q3 == q + command_text(command).len() + weight_text(w).len()
        }),
        skip_blanks(s, q) < s.len() ==> s[skip_blanks(s, q)] != ':',
{
    match command {
        Some(c) => {
            assert(command_text(command) + weight_text(w) =~= seq!['='] + quoted_name(c));
            lemma_text_at_char(s, q, seq!['='] + quoted_name(c), 0);
            lemma_no_weight(s, q);
            lemma_command_read(s, q, c);
        },
        None => {
            assert(command_text(command) + weight_text(w) =~= weight_text(w));
            lemma_weight_tail(s, q, w);
            lemma_no_command(s, q + weight_text(w).len());
        },
    }
}

/// The first character of a node's text is no blank.
proof fn lemma_node_first(n: NodeV)
    requires
        node_ok(n),
    ensures
        node_text(n).len() > 0,
        !is_blank(node_text(n)[0]),
{
    match n {
        NodeV::Leaf { tag, command } => {
            lemma_name_first(tag);
            assert(node_text(n)[0] == quoted_name(tag)[0]);
        },
        NodeV::Split { direction, children } => {
            lemma_keyword(direction);
            assert(node_text(n)[0] == keyword(direction)[0]);
        },
    }
}


/// The separator before the rest of a split's entries.
pub open spec fn separator(acc: Seq<ChildV>, rest: Seq<ChildV>) -> Seq<char> {
    if acc.len() > 0 && rest.len() > 0 {
        seq![',', ' ']
    } else {
        seq![]
    }
}

proof fn lemma_read_plain_leaf(s: Seq<char>, p0: int, p: int, c: ChildV)
    requires
        c.label is None,
        c.node is Leaf,
        node_ok(c.node),
        child_extras_ok(c),
        0 <= p0 <= p,
        skip_blanks(s, p0) == p,
        text_at(s, p, child_text_of(c)),
        ends_entry(s, p + child_text_of(c).len()),
    ensures
        entry_at(s, p0) == (Ok::<ChildV, Seq<char>>(c), p + child_text_of(c).len()),
{
    let wt = weight_text(c.weight);
    let tag = c.node->tag;
    let command = c.node->command;
    let ct = quoted_name(tag) + (command_text(command) + wt);
    assert(child_text_of(c) =~= ct);
    lemma_text_at_split(s, p, quoted_name(tag), command_text(command) + wt);
    let p1 = p + quoted_name(tag).len();
    lemma_leaf_tail(s, p1, command, c.weight);
    if command is Some || c.weight is Some {
        lemma_text_at_char(s, p1, command_text(command) + wt, 0);
    }
    lemma_name_read(s, p0, p, tag);
    if command is None && c.weight is Some {
        lemma_text_at_char(s, p1, command_text(command) + wt, 1);
        assert(skip_blanks(s, p1 + 1) == p1 + 1);
    }
    assert(skip_blanks(s, skip_blanks(s, p1)) == skip_blanks(s, p1));
}

proof fn lemma_read_plain_split(s: Seq<char>, p0: int, p: int, c: ChildV)
    requires
        c.label is None,
        c.node is Split,
        node_ok(c.node),
        child_extras_ok(c),
        0 <= p0 <= p,
        skip_blanks(s, p0) == p,
        text_at(s, p, child_text_of(c)),
        ends_entry(s, p + child_text_of(c).len()),
    ensures
        entry_at(s, p0) == (Ok::<ChildV, Seq<char>>(c), p + child_text_of(c).len()),
    decreases c.node, 1int,
{
    let wt = weight_text(c.weight);
    let direction = c.node->direction;
    let children = c.node->children;
    lemma_keyword(direction);
    let kw = keyword(direction);
    let inner = seq!['('] + children_text(children) + seq![')'];
    assert(child_text_of(c) =~= kw + (inner + wt));
    lemma_text_at_split(s, p, kw, inner + wt);
    lemma_text_at_split(s, p + kw.len(), inner, wt);
    lemma_text_at_char(s, p + kw.len(), inner, 0);
    lemma_name_read(s, p0, p, kw);
    let p1 = p + kw.len();
    assert(skip_blanks(s, p1) == p1);
    lemma_read_split(s, p1, direction, children);
    lemma_weight_tail(s, p1 + inner.len(), c.weight);
}

proof fn lemma_read_label(s: Seq<char>, p0: int, p: int, c: ChildV) -> (q: int)
    requires
        c.label is Some,
        node_ok(c.node),
        child_extras_ok(c),
        0 <= p0 <= p,
        skip_blanks(s, p0) == p,
        text_at(s, p, child_text_of(c)),
    ensures
        name_at(s, p0) == (Ok::<Seq<char>, Seq<char>>(c.label->0), q - 2),
        skip_blanks(s, q - 2) == q - 2,
        s[q - 2] == ':',
        skip_blanks(s, q - 1) == q,
        q == p + quoted_name(c.label->0).len() + 2,
        text_at(s, q, node_text(c.node) + weight_text(c.weight)),
{
    let l = c.label->0;
    let nt = node_text(c.node);
    let wt = weight_text(c.weight);
    assert(child_text_of(c) =~= quoted_name(l) + (seq![':', ' '] + (nt + wt)));
    lemma_text_at_split(s, p, quoted_name(l), seq![':', ' '] + (nt + wt));
    let p1 = p + quoted_name(l).len();
    lemma_text_at_split(s, p1, seq![':', ' '], nt + wt);
    lemma_text_at_char(s, p1, seq![':', ' '], 0);
    lemma_text_at_char(s, p1, seq![':', ' '], 1);
    lemma_name_read(s, p0, p, l);
    let q = p1 + 2;
    lemma_node_first(c.node);
    lemma_text_at_char(s, q, nt + wt, 0);
    assert(skip_blanks(s, q) == q);
    q
}

proof fn lemma_read_labelled_leaf(s: Seq<char>, p0: int, p: int, c: ChildV)
    requires
        c.label is Some,
        c.node is Leaf,
        node_ok(c.node),
        child_extras_ok(c),
        0 <= p0 <= p,
        skip_blanks(s, p0) == p,
        text_at(s, p, child_text_of(c)),
        ends_entry(s, p + child_text_of(c).len()),
    ensures
        entry_at(s, p0) == (Ok::<ChildV, Seq<char>>(c), p + child_text_of(c).len()),
{
    let q = lemma_read_label(s, p0, p, c);
    let wt = weight_text(c.weight);
    let tag = c.node->tag;
    let command = c.node->command;
    assert(node_text(c.node) + wt =~= quoted_name(tag) + (command_text(command) + wt));
    lemma_text_at_split(s, q, quoted_name(tag), command_text(command) + wt);
    let p3 = q + quoted_name(tag).len();
    assert(p3 + command_text(command).len() + wt.len() == p + child_text_of(c).len());
    lemma_leaf_tail(s, p3, command, c.weight);
    if command is Some || c.weight is Some {
        lemma_text_at_char(s, p3, command_text(command) + wt, 0);
    }
    lemma_name_read(s, q - 1, q, tag);
}

#[verifier::rlimit(60)]
proof fn lemma_read_labelled_split(s: Seq<char>, p0: int, p: int, c: ChildV)
    requires
        c.label is Some,
        c.node is Split,
        node_ok(c.node),
        child_extras_ok(c),
        0 <= p0 <= p,
        skip_blanks(s, p0) == p,
        text_at(s, p, child_text_of(c)),
        ends_entry(s, p + child_text_of(c).len()),
    ensures
        entry_at(s, p0) == (Ok::<ChildV, Seq<char>>(c), p + child_text_of(c).len()),
    decreases c.node, 1int,
{
    let q = lemma_read_label(s, p0, p, c);
    let wt = weight_text(c.weight);
    let direction = c.node->direction;
    let children = c.node->children;
    lemma_keyword(direction);
    let kw = keyword(direction);
    let inner = seq!['('] + children_text(children) + seq![')'];
    assert(node_text(c.node) + wt =~= kw + (inner + wt));
    lemma_text_at_split(s, q, kw, inner + wt);
    lemma_text_at_split(s, q + kw.len(), inner, wt);
    lemma_text_at_char(s, q + kw.len(), inner, 0);
    lemma_name_read(s, q - 1, q, kw);
    let p3 = q + kw.len();
    assert(p3 + inner.len() + wt.len() == p + child_text_of(c).len());
    lemma_read_split(s, p3, direction, children);
    lemma_weight_tail(s, p3 + inner.len(), c.weight);
}

proof fn lemma_read_entry(s: Seq<char>, p0: int, p: int, c: ChildV)
    requires
        node_ok(c.node),
        child_extras_ok(c),
        0 <= p0 <= p,
        skip_blanks(s, p0) == p,
        text_at(s, p, child_text_of(c)),
        ends_entry(s, p + child_text_of(c).len()),
    ensures
        entry_at(s, p0) == (Ok::<ChildV, Seq<char>>(c), p + child_text_of(c).len()),
    decreases c.node, 2int,
{
    if c.label is None {
        if c.node is Leaf {
            lemma_read_plain_leaf(s, p0, p, c);
        } else {
            lemma_read_plain_split(s, p0, p, c);
        }
    } else {
        if c.node is Leaf {
            lemma_read_labelled_leaf(s, p0, p, c);
        } else {
            lemma_read_labelled_split(s, p0, p, c);
        }
    }
}

proof fn lemma_read_split(s: Seq<char>, p: int, d: Direction, cs: Seq<ChildV>)
    requires
        node_ok((NodeV::Split { direction: d, children: cs })),
        0 <= p,
        text_at(s, p, seq!['('] + children_text(cs) + seq![')']),
    ensures
        split_at(s, p, d) == (Ok::<NodeV, Seq<char>>((NodeV::Split { direction: d, children: cs })), p
            + children_text(cs).len() + 2),
    decreases (NodeV::Split { direction: d, children: cs }), 0int,
{
    let body = children_text(cs) + seq![')'];
    assert(seq!['('] + children_text(cs) + seq![')'] =~= seq!['('] + body);
    lemma_text_at_split(s, p, seq!['('], body);
    lemma_text_at_char(s, p, seq!['('], 0);
    assert(skip_blanks(s, p) == p);
    assert(separator(Seq::<ChildV>::empty(), cs) + children_text(cs) + seq![')'] =~= body);
    lemma_read_children(s, p + 1, seq![], cs);
    assert(Seq::<ChildV>::empty() + cs =~= cs);
}

/// The first character of a child's text is neither a blank nor a
/// closing bracket.
proof fn lemma_child_first(c: ChildV)
    requires
        node_ok(c.node),
        child_extras_ok(c),
    ensures
        child_text_of(c).len() > 0,
        !is_blank(child_text_of(c)[0]),
        child_text_of(c)[0] != ')',
{
    lemma_node_first(c.node);
    match c.label {
        Some(l) => {
            lemma_name_first(l);
            assert(child_text_of(c)[0] == quoted_name(l)[0]);
        },
        None => {
            assert(child_text_of(c)[0] == node_text(c.node)[0]);
            match c.node {
                NodeV::Leaf { tag, command } => {
                    lemma_name_first(tag);
                },
                NodeV::Split { direction, children } => {
                    lemma_keyword(direction);
                },
            }
        },
    }
}

#[verifier::rlimit(60)]
proof fn lemma_read_children(s: Seq<char>, q: int, acc: Seq<ChildV>, rest: Seq<ChildV>)
    requires
        forall|i: int|
            0 <= i < rest.len() ==> node_ok(#[trigger] rest[i].node) && child_extras_ok(rest[i]),
        0 <= q,
        text_at(s, q, separator(acc, rest) + children_text(rest) + seq![')']),
    ensures
        children_at(s, q, acc) == (Ok::<Seq<ChildV>, Seq<char>>(acc + rest), q + separator(acc, rest).len()
            + children_text(rest).len() + 1),
    decreases rest, 2int,
{
    let x = separator(acc, rest) + children_text(rest) + seq![')'];
    if rest.len() == 0 {
        assert(x =~= seq![')']);
        lemma_text_at_char(s, q, x, 0);
        assert(skip_blanks(s, q) == q);
        assert(acc + rest =~= acc);
    } else {
        let c = rest[0];
        let more = rest.drop_first();
        lemma_children_text_front(rest);
        let tail = (if more.len() > 0 {
            seq![',', ' ']
        } else {
            seq![]
        }) + children_text(more) + seq![')'];
        assert(children_text(rest) + seq![')'] =~= child_text_of(c) + tail);
        let sep = separator(acc, rest);
        assert(x =~= sep + (child_text_of(c) + tail));
        lemma_text_at_split(s, q, sep, child_text_of(c) + tail);
        lemma_text_at_split(s, q + sep.len(), child_text_of(c), tail);
        let start = q + sep.len();
        let e = start + child_text_of(c).len();
        lemma_text_at_char(s, e, tail, 0);
        assert(ends_entry(s, e));
        lemma_child_first(c);
        lemma_text_at_char(s, start, child_text_of(c), 0);
        assert(skip_blanks(s, start) == start);
        let p1 = if acc.len() > 0 {
            assert(sep == seq![',', ' ']);
            lemma_text_at_char(s, q, sep, 0);
            lemma_text_at_char(s, q, sep, 1);
            assert(skip_blanks(s, q) == q);
            assert(is_blank(s[q + 1]));
            assert(skip_blanks(s, q + 1) == start);
            q + 1
        } else {
            assert(sep.len() == 0);
            assert(skip_blanks(s, q) == q);
            q
        };
        assert(decreases_to!(rest => rest[0]));
        assert(decreases_to!(rest[0] => rest[0].node));
        lemma_read_entry(s, p1, start, c);
        assert(decreases_to!(rest => rest.subrange(1, rest.len() as int)));
        assert(more == rest.subrange(1, rest.len() as int));
        assert(separator(acc.push(c), more) + children_text(more) + seq![')'] =~= tail);
        lemma_read_children(s, e, acc.push(c), more);
        assert(acc.push(c) + more =~= acc + rest);
    }
}


/// Reading back the text that `serialize_dsl` writes for a tree gives the
/// tree itself, with no weight of its own, whenever the tree is one whose
/// text can be read back (`node_ok`: names not empty and, where quoted,
/// ASCII; tags and labels no keywords; weights decimal numbers; no pane
/// with both a command and a weight; two children at least in each split
/// other than tabs).
pub proof fn layout_text_round_trip(n: NodeV)
    requires
        node_ok(n),
    ensures
        layout_of(node_text(n)) == Ok::<(NodeV, Option<Seq<char>>), Seq<char>>((n, None)),
{
    let c = ChildV { node: n, weight: None, label: None };
    let s = node_text(n);
    assert(child_text_of(c) =~= s);
    assert(s.subrange(0, s.len() as int) =~= s);
    lemma_node_first(n);
    assert(skip_blanks(s, 0) == 0);
    lemma_read_entry(s, 0, 0, c);
}

} // verus!
