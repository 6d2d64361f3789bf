//! The decisions of the command-line agent: escape sequences in text sent
//! to a terminal, signal names, the capture size, and how an exit status is
//! reported and turned into an exit code.
use vstd::prelude::*;
use vstd::string::StringSliceAdditionalSpecFns;
use crate::text::{
    append_chars, append_str, chars_eq_str, chars_of, dec_i64, dec_int, starts_with,
    starts_with_str, string_of, sub_vec,
};

verus! {

broadcast use vstd::string::group_string_axioms;

/// The value of an ASCII hex digit.
pub open spec fn hex_value(b: u8) -> Option<u8> {
    if 48 <= b <= 57 {
        Some((b - 48) as u8)
    } else if 97 <= b <= 102 {
        Some((b - 97 + 10) as u8)
    } else if 65 <= b <= 70 {
        Some((b - 65 + 10) as u8)
    } else {
        None
    }
}

/// The value of an ASCII hex digit.
pub fn hex_digit(b: u8) -> (r: Option<u8>)
    ensures
        r == hex_value(b),
{
    if 48u8 <= b && b <= 57u8 {
        Some(b - 48u8)
    } else if 97u8 <= b && b <= 102u8 {
        Some(b - 97u8 + 10)
    } else if 65u8 <= b && b <= 70u8 {
        Some(b - 65u8 + 10)
    } else {
        None
    }
}

/// The bytes that the escapes in `b` stand for: `\n`, `\r`, `\t`, `\\`,
/// `\0` and `\xHH`; any other backslash stands for itself.
pub open spec fn unescape(b: Seq<u8>) -> Seq<u8>
    decreases b.len(),
{
    if b.len() == 0 {
        seq![]
    } else if b[0] == 92 && b.len() >= 2 {
        let c = b[1];
        if c == 110 {
            seq![10u8] + unescape(b.skip(2))
        } else if c == 114 {
            seq![13u8] + unescape(b.skip(2))
        } else if c == 116 {
            seq![9u8] + unescape(b.skip(2))
        } else if c == 92 {
            seq![92u8] + unescape(b.skip(2))
        } else if c == 48 {
            seq![0u8] + unescape(b.skip(2))
        } else if c == 120 && b.len() >= 4 && hex_value(b[2]) is Some && hex_value(b[3]) is Some {
            seq![(hex_value(b[2])->0 * 16 + hex_value(b[3])->0) as u8] + unescape(b.skip(4))
        } else {
            seq![b[0]] + unescape(b.skip(1))
        }
    } else {
        seq![b[0]] + unescape(b.skip(1))
    }
}

/// The sixteen hexadecimal digits in lower case, `0`–`9` then `a`–`f`, as
/// ASCII bytes, the digit of value `v` at index `v`.
pub open spec fn lower_hex_digits() -> Seq<u8> {
    seq![48u8, 49, 50, 51, 52, 53, 54, 55, 56, 57, 97, 98, 99, 100, 101, 102]
}

/// The sixteen hexadecimal digits in upper case, `0`–`9` then `A`–`F`.
pub open spec fn upper_hex_digits() -> Seq<u8> {
    seq![48u8, 49, 50, 51, 52, 53, 54, 55, 56, 57, 65, 66, 67, 68, 69, 70]
}

/// A hexadecimal digit, in either case, has the value of its place among
/// the sixteen digits, and nothing else is a digit.
pub proof fn hex_digit_values(b: u8)
    ensures
        forall|v: int| 0 <= v < 16 ==> hex_value(#[trigger] lower_hex_digits()[v]) == Some(v as u8),
        forall|v: int| 0 <= v < 16 ==> hex_value(#[trigger] upper_hex_digits()[v]) == Some(v as u8),
        hex_value(b) is Some ==> exists|v: int|
            0 <= v < 16 && (lower_hex_digits()[v] == b || upper_hex_digits()[v] == b),
{
    assert forall|v: int| 0 <= v < 16 implies hex_value(#[trigger] lower_hex_digits()[v]) == Some(v as u8) by {
        if v < 10 {
            assert(lower_hex_digits()[v] == 48 + v);
        } else {
            assert(lower_hex_digits()[v] == 87 + v);
        }
    }
    assert forall|v: int| 0 <= v < 16 implies hex_value(#[trigger] upper_hex_digits()[v]) == Some(v as u8) by {
        if v < 10 {
            assert(upper_hex_digits()[v] == 48 + v);
        } else {
            assert(upper_hex_digits()[v] == 55 + v);
        }
    }
    if hex_value(b) is Some {
        if 48 <= b <= 57 {
            assert(lower_hex_digits()[b - 48] == b);
        } else if 97 <= b <= 102 {
            assert(lower_hex_digits()[b - 87] == b);
        } else {
            assert(upper_hex_digits()[b - 55] == b);
        }
    }
}

/// `\x` and two hexadecimal digits stand for the byte whose value they
/// write, upper case or lower case alike: sixteen times the first digit's
/// value plus the second's.
pub proof fn hex_escape_law(hi: int, lo: int, rest: Seq<u8>)
    requires
        0 <= hi < 16,
        0 <= lo < 16,
    ensures
        unescape(seq![92u8, 120u8, upper_hex_digits()[hi], upper_hex_digits()[lo]] + rest) == seq![(hi * 16 + lo) as u8]
            + unescape(rest),
        unescape(seq![92u8, 120u8, lower_hex_digits()[hi], lower_hex_digits()[lo]] + rest) == seq![(hi * 16 + lo) as u8]
            + unescape(rest),
{
    hex_digit_values(0);
    let u = seq![92u8, 120u8, upper_hex_digits()[hi], upper_hex_digits()[lo]] + rest;
    let l = seq![92u8, 120u8, lower_hex_digits()[hi], lower_hex_digits()[lo]] + rest;
    assert(hex_value(upper_hex_digits()[hi]) == Some(hi as u8));
    assert(hex_value(upper_hex_digits()[lo]) == Some(lo as u8));
    assert(hex_value(lower_hex_digits()[hi]) == Some(hi as u8));
    assert(hex_value(lower_hex_digits()[lo]) == Some(lo as u8));
    assert(u.skip(4) =~= rest);
    assert(l.skip(4) =~= rest);
    assert(u[0] == 92 && u[1] == 120 && u[2] == upper_hex_digits()[hi] && u[3] == upper_hex_digits()[lo]);
    assert(l[0] == 92 && l[1] == 120 && l[2] == lower_hex_digits()[hi] && l[3] == lower_hex_digits()[lo]);
}

/// The two-character escapes: `\n` is a line feed (10), `\r` a carriage
/// return (13), `\t` a tab (9), `\\` one backslash (92) and `\0` a NUL (0);
/// a backslash before anything else stands for itself.
pub proof fn simple_escapes_law(rest: Seq<u8>, c: u8)
    ensures
        unescape(seq![92u8, 110u8] + rest) == seq![10u8] + unescape(rest),
        unescape(seq![92u8, 114u8] + rest) == seq![13u8] + unescape(rest),
        unescape(seq![92u8, 116u8] + rest) == seq![9u8] + unescape(rest),
        unescape(seq![92u8, 92u8] + rest) == seq![92u8] + unescape(rest),
        unescape(seq![92u8, 48u8] + rest) == seq![0u8] + unescape(rest),
        c != 110 && c != 114 && c != 116 && c != 92 && c != 48 && c != 120 ==> unescape(seq![92u8, c] + rest)
            == seq![92u8] + unescape(seq![c] + rest),
        c != 92 ==> unescape(seq![c] + rest) == seq![c] + unescape(rest),
{
    assert((seq![92u8, 110u8] + rest).skip(2) =~= rest);
    assert((seq![92u8, 114u8] + rest).skip(2) =~= rest);
    assert((seq![92u8, 116u8] + rest).skip(2) =~= rest);
    assert((seq![92u8, 92u8] + rest).skip(2) =~= rest);
    assert((seq![92u8, 48u8] + rest).skip(2) =~= rest);
    assert((seq![92u8, c] + rest).skip(1) =~= seq![c] + rest);
    assert((seq![c] + rest).skip(1) =~= rest);
}

/// The bytes of `s` with its escapes replaced by what they stand for.
pub fn parse_escapes(s: &str) -> (r: Vec<u8>)
    ensures
        r@ == unescape(s.spec_bytes()),
{
    let bytes = s.as_bytes();
    let ghost b = bytes@;
    let n = bytes.len();
    let mut out: Vec<u8> = Vec::new();
    let mut i: usize = 0;
    assert(b.skip(0) =~= b);
    while i < n
        invariant
            n == b.len(),
            b == bytes@,
            i <= n,
            unescape(b) == out@ + unescape(b.skip(i as int)),
        decreases n - i,
    {
        let ghost rest = b.skip(i as int);
        let ghost before = out@;
        assert(rest.skip(1) =~= b.skip(i + 1));
        assert(rest[0] == bytes[i as int]);
        if bytes[i] == 92u8 && i + 1 < n {
            assert(rest.skip(2) =~= b.skip(i + 2));
            assert(rest[1] == b[i + 1]);
            let c = bytes[i + 1];
            if c == 110u8 {
                out.push(10u8);
                i += 2;
            } else if c == 114u8 {
                out.push(13u8);
                i += 2;
            } else if c == 116u8 {
                out.push(9u8);
                i += 2;
            } else if c == 92u8 {
                out.push(92u8);
                i += 2;
            } else if c == 48u8 {
                out.push(0);
                i += 2;
            } else if c == 120u8 && n - i > 3 {
                let hi = hex_digit(bytes[i + 2]);
                let lo = hex_digit(bytes[i + 3]);
                assert(rest.skip(4) =~= b.skip(i + 4));
                assert(rest[2] == b[i + 2] && rest[3] == b[i + 3]);
                match (hi, lo) {
                    (Some(h), Some(l)) => {
                        let v = h << 4 | l;
                        assert(v == h * 16 + l) by (bit_vector)
                            requires
                                h < 16,
                                l < 16,
                                v == h << 4 | l,
                        ;
                        out.push(v);
                        i += 4;
                    },
                    _ => {
                        out.push(bytes[i]);
                        i += 1;
                    },
                }
            } else {
                out.push(bytes[i]);
                i += 1;
            }
        } else {
            out.push(bytes[i]);
            i += 1;
        }
        assert(unescape(b) == out@ + unescape(b.skip(i as int))) by {
            assert(before + unescape(rest) =~= out@ + unescape(b.skip(i as int)));
        }
    }
    assert(b.skip(n as int) =~= Seq::<u8>::empty());
    assert(out@ + Seq::<u8>::empty() =~= out@);
    out
}

/// The size to resize a terminal to before a capture: given either side,
/// both (24 rows, 80 columns where unset); given neither, none.
pub fn capture_size(rows: Option<u16>, cols: Option<u16>) -> (r: Option<(u16, u16)>)
    ensures
        r == (if rows is Some || cols is Some {
            Some(
                (
                    match rows {
                        Some(x) => x,
                        None => 24u16,
                    },
                    match cols {
                        Some(x) => x,
                        None => 80u16,
                    },
                ),
            )
        } else {
            None
        }),
{
    if rows.is_some() || cols.is_some() {
        let r = match rows {
            Some(x) => x,
            None => 24,
        };
        let c = match cols {
            Some(x) => x,
            None => 80,
        };
        Some((r, c))
    } else {
        None
    }
}

// ───────────────────────────── integers ─────────────────────────────

/// Whether `c` is an ASCII digit.
pub open spec fn is_digit(c: char) -> bool {
    '0' <= c <= '9'
}

/// The value of a string of ASCII digits.
pub open spec fn digits_value(d: Seq<char>) -> nat
    decreases d.len(),
{
    if d.len() == 0 {
        0
    } else {
        digits_value(d.drop_last()) * 10 + (d.last() as nat - 48) as nat
    }
}

/// Whether `d` is all ASCII digits.
pub open spec fn all_digits(d: Seq<char>) -> bool {
    forall|i: int| 0 <= i < d.len() ==> is_digit(#[trigger] d[i])
}

/// `s` without a leading `+` or `-`.
pub open spec fn unsigned_part(s: Seq<char>) -> Seq<char> {
    if s.len() > 0 && (s[0] == '-' || s[0] == '+') {
        s.drop_first()
    } else {
        s
    }
}

/// What `str::parse::<i32>` gives: an optional `+` or `-` sign, then one
/// or more ASCII digits, with the value in range.
pub open spec fn parse_i32_spec(s: Seq<char>) -> Option<i32> {
    let body = unsigned_part(s);
    if body.len() == 0 || !all_digits(body) {
        None
    } else {
        let v: int = if s.len() > 0 && s[0] == '-' {
            -(digits_value(body) as int)
        } else {
            digits_value(body) as int
        };
        if i32::MIN <= v <= i32::MAX {
            Some(v as i32)
        } else {
            None
        }
    }
}

proof fn lemma_digits_value_monotone(d: Seq<char>, c: char)
    requires
        is_digit(c),
    ensures
        digits_value(d.push(c)) >= digits_value(d),
        digits_value(d.push(c)) == digits_value(d) * 10 + (c as nat - 48),
{
    assert(d.push(c).drop_last() =~= d);
}

/// `str::parse::<i32>`.
pub fn parse_i32(s: &[char]) -> (r: Option<i32>)
    ensures
        r == parse_i32_spec(s@),
{
    let n = s.len();
    let neg = n > 0 && s[0] == '-';
    let start: usize = if n > 0 && (s[0] == '-' || s[0] == '+') {
        1
    } else {
        0
    };
    let ghost body = unsigned_part(s@);
    assert(body =~= s@.subrange(start as int, n as int));
    if start == n {
        return None;
    }
    // Saturates at 2^31 + 1, above every magnitude an `i32` can take.
    let cap: u64 = 2147483649;
    let mut acc: u64 = 0;
    let mut i = start;
    while i < n
        invariant
            n == s@.len(),
            start <= i <= n,
            body == s@.subrange(start as int, n as int),
            body == unsigned_part(s@),
            cap == 2147483649,
            forall|j: int| start <= j < i ==> is_digit(#[trigger] s@[j]),
            acc == (if digits_value(s@.subrange(start as int, i as int)) < cap {
                digits_value(s@.subrange(start as int, i as int))
            } else {
                cap as nat
            }),
        decreases n - i,
    {
        let c = s[i];
        if !('0' <= c && c <= '9') {
            assert(body[i - start] == c);
            assert(!is_digit(body[i - start]));
            assert(!all_digits(body));
            return None;
        }
        let d = (c as u32 - 48) as u64;
        proof {
            assert(s@.subrange(start as int, i + 1) =~= s@.subrange(start as int, i as int).push(c));
            lemma_digits_value_monotone(s@.subrange(start as int, i as int), c);
        }
        if acc >= cap {
            acc = cap;
        } else {
            let next = acc * 10 + d;
            acc = if next >= cap {
                cap
            } else {
                next
            };
        }
        i += 1;
    }
    assert(all_digits(body)) by {
        assert forall|j: int| 0 <= j < body.len() implies is_digit(#[trigger] body[j]) by {
            assert(body[j] == s@[start + j]);
        }
    }
    assert(s@.subrange(start as int, n as int) =~= body);
    if neg {
        if acc > 2147483648 {
            None
        } else {
            Some((0 - (acc as i64)) as i32)
        }
    } else {
        if acc > 2147483647 {
            None
        } else {
            Some(acc as i32)
        }
    }
}

/// The number of a signal given by number or by name (with or without
/// `SIG`), for the signals the agent knows by name.
pub open spec fn signal_number(s: Seq<char>) -> Option<i32> {
    match parse_i32_spec(s) {
        Some(n) => Some(n),
        None => {
            let name = if starts_with(s, "SIG"@) {
                s.skip(3)
            } else {
                s
            };
            if name == "HUP"@ {
                Some(1)
            } else if name == "INT"@ {
                Some(2)
            } else if name == "QUIT"@ {
                Some(3)
            } else if name == "KILL"@ {
                Some(9)
            } else if name == "USR1"@ {
                Some(10)
            } else if name == "USR2"@ {
                Some(12)
            } else if name == "TERM"@ {
                Some(15)
            } else if name == "CONT"@ {
                Some(18)
            } else if name == "STOP"@ {
                Some(19)
            } else {
                None
            }
        },
    }
}

/// A signal given by number or name; an unknown name is an error.
pub fn parse_signal(s: &str) -> (r: Result<i32, String>)
    ensures
        match signal_number(s@) {
            Some(n) => r == Ok::<i32, String>(n),
            None => r matches Err(m) && m@ == "unknown signal: "@ + s@,
        },
{
    let cs = chars_of(s);
    if let Some(n) = parse_i32(cs.as_slice()) {
        return Ok(n);
    }
    proof {
        reveal_strlit("SIG");
    }
    let name: Vec<char> = if starts_with_str(cs.as_slice(), "SIG") {
        sub_vec(cs.as_slice(), 3, cs.len())
    } else {
        sub_vec(cs.as_slice(), 0, cs.len())
    };
    proof {
        if starts_with(s@, "SIG"@) {
            assert(name@ =~= s@.skip(3));
        } else {
            assert(name@ =~= s@);
        }
    }
    let nm = name.as_slice();
    if chars_eq_str(nm, "HUP") {
        Ok(1)
    } else if chars_eq_str(nm, "INT") {
        Ok(2)
    } else if chars_eq_str(nm, "QUIT") {
        Ok(3)
    } else if chars_eq_str(nm, "KILL") {
        Ok(9)
    } else if chars_eq_str(nm, "USR1") {
        Ok(10)
    } else if chars_eq_str(nm, "USR2") {
        Ok(12)
    } else if chars_eq_str(nm, "TERM") {
        Ok(15)
    } else if chars_eq_str(nm, "CONT") {
        Ok(18)
    } else if chars_eq_str(nm, "STOP") {
        Ok(19)
    } else {
        let mut m = chars_of("unknown signal: ");
        append_chars(&mut m, cs.as_slice());
        Err(string_of(m.as_slice()))
    }
}

// ───────────────────────────── exit status ─────────────────────────────

/// How an exit status is shown: `exited` when unknown, `exited(N)` for an
/// exit code, `signal(N)` for death by signal `N` (a negative status).
pub open spec fn exit_status_text(status: int, unknown: int) -> Seq<char> {
    if status == unknown {
        "exited"@
    } else if status >= 0 {
        "exited("@ + dec_int(status) + ")"@
    } else {
        "signal("@ + dec_int(-status) + ")"@
    }
}

/// How an exit status is shown; `unknown` is the protocol's status for an
/// exit whose status is not known.
pub fn format_exit_status(status: i32, unknown: i32) -> (r: String)
    requires
        status != i32::MIN || status == unknown,
    ensures
        r@ == exit_status_text(status as int, unknown as int),
{
    let mut v: Vec<char>;
    if status == unknown {
        v = chars_of("exited");
    } else if status >= 0 {
        v = chars_of("exited(");
        let d = dec_i64(status as i64);
        append_chars(&mut v, d.as_slice());
        append_str(&mut v, ")");
    } else {
        v = chars_of("signal(");
        let d = dec_i64(-(status as i64));
        append_chars(&mut v, d.as_slice());
        append_str(&mut v, ")");
    }
    string_of(v.as_slice())
}

/// The process exit code for an exit status: 1 when unknown, the code
/// itself, or 128 plus the signal number.
pub fn exit_code_from_status(status: i32, unknown: i32) -> (r: i32)
    requires
        status == unknown || status >= 0 || 128 - status <= i32::MAX,
    ensures
        r == (if status == unknown {
            1
        } else if status >= 0 {
            status as int
        } else {
            128 - status
        }),
{
    if status == unknown {
        1
    } else if status >= 0 {
        status
    } else {
        128 + (-status)
    }
}

} // verus!
