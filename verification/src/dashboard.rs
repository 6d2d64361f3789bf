//! The network dashboard's keyboard and mouse input: the bytes a terminal
//! sends are read into input events (keys, cursor and paging sequences,
//! SGR mouse reports); a sequence cut off at the end of the bytes read so
//! far waits for the rest.
use vstd::prelude::*;
use vstd::utf8::{decode_utf8, valid_utf8};
use crate::grid::utf8_text;
use crate::server_args::{parse_usize, parse_usize_spec};
use crate::text::{chars_of, split_chars, split_seq, views};

verus! {

/// A panel of the dashboard.
#[derive(Clone, Copy, Debug, PartialEq, Eq, Structural)]
pub enum Panel {
    Peers,
    Connections,
    Events,
}

impl Panel {
    /// The next panel, in the order peers, connections, events.
    pub fn next(self) -> (r: Panel)
        ensures
            r == match self {
                Panel::Peers => Panel::Connections,
                Panel::Connections => Panel::Events,
                Panel::Events => Panel::Peers,
            },
    {
        match self {
            Panel::Peers => Panel::Connections,
            Panel::Connections => Panel::Events,
            Panel::Events => Panel::Peers,
        }
    }

    /// The previous panel.
    pub fn prev(self) -> (r: Panel)
        ensures
            r == match self {
                Panel::Peers => Panel::Events,
                Panel::Connections => Panel::Peers,
                Panel::Events => Panel::Connections,
            },
    {
        match self {
            Panel::Peers => Panel::Events,
            Panel::Connections => Panel::Peers,
            Panel::Events => Panel::Connections,
        }
    }
}

/// Moving to the next panel and back again returns to the same panel.
pub proof fn panel_next_prev(p: Panel)
    ensures
        match p {
            Panel::Peers => Panel::Connections,
            Panel::Connections => Panel::Events,
            Panel::Events => Panel::Peers,
        } matches q && match q {
            Panel::Peers => Panel::Events,
            Panel::Connections => Panel::Peers,
            Panel::Events => Panel::Connections,
        } == p,
{
}

/// What a mouse report does.
#[derive(Clone, Copy, Debug, PartialEq, Eq, Structural)]
pub enum MouseKind {
    Left,
    WheelUp,
    WheelDown,
}

/// A mouse report at a zero-based row and column.
#[derive(Clone, Copy, Debug, PartialEq, Eq, Structural)]
pub struct MouseInput {
    pub row: u16,
    pub col: u16,
    pub kind: MouseKind,
}

/// An input event of the dashboard.
#[derive(Clone, Copy, Debug, PartialEq, Eq, Structural)]
pub enum InputEvent {
    Quit,
    NextPanel,
    PrevPanel,
    Focus(Panel),
    Move(i32),
    Page(i32),
    Home,
    End,
    Activate,
    CycleSort,
    ClearFilter,
    ToggleHelp,
    Mouse(MouseInput),
}

/// What the bytes at the head of the input are: an event and the number
/// of bytes it takes, bytes to skip, or the start of a sequence that is
/// not complete yet.
#[derive(Clone, Copy, Debug, PartialEq, Eq, Structural)]
pub enum EscapeParse {
    Event(usize, InputEvent),
    Ignore(usize),
    Incomplete,
}

/// The index of the first byte of `b` equal to `x` or `y`.
pub open spec fn first_of(b: Seq<u8>, x: u8, y: u8) -> Option<int>
    decreases b.len(),
{
    if b.len() == 0 {
        None
    } else if b[0] == x || b[0] == y {
        Some(0)
    } else {
        match first_of(b.drop_first(), x, y) {
            Some(i) => Some(i + 1),
            None => None,
        }
    }
}

/// What `str::parse::<u16>` gives.
pub open spec fn parse_u16_spec(s: Seq<char>) -> Option<u16> {
    match parse_usize_spec(s) {
        Some(v) => if v <= 65535 {
            Some(v as u16)
        } else {
            None
        },
        None => None,
    }
}

/// The number of a text that is valid UTF-8 and reads as a `u16`.
pub open spec fn utf8_u16(b: Seq<u8>) -> Option<u16> {
    if valid_utf8(b) {
        parse_u16_spec(decode_utf8(b))
    } else {
        None
    }
}

/// `ESC [ n ~`: 1 and 7 are Home, 4 and 8 End, 5 and 6 page up and down;
/// another number, or none, is skipped up to the `~`.
pub open spec fn tilde_parse(b: Seq<u8>) -> EscapeParse {
    match first_of(b, 126, 126) {
        None => EscapeParse::Incomplete,
        Some(term) => {
            let n = (term + 1) as usize;
            match utf8_u16(b.subrange(2, term)) {
                Some(v) => if v == 1 || v == 7 {
                    EscapeParse::Event(n, InputEvent::Home)
                } else if v == 4 || v == 8 {
                    EscapeParse::Event(n, InputEvent::End)
                } else if v == 5 {
                    EscapeParse::Event(n, InputEvent::Page(-1i32))
                } else if v == 6 {
                    EscapeParse::Event(n, InputEvent::Page(1i32))
                } else {
                    EscapeParse::Ignore(n)
                },
                None => EscapeParse::Ignore(n),
            }
        },
    }
}

/// An SGR mouse report `ESC [ < button ; col ; row (M|m)` (one-based
/// column and row): a wheel (button bit 6; bit 0 down) or a left press
/// (`M` with button bits 0-1 clear); anything else up to the terminator is
/// skipped.
pub open spec fn mouse_parse(b: Seq<u8>) -> EscapeParse {
    match first_of(b, 77, 109) {
        None => EscapeParse::Incomplete,
        Some(term) => {
            let n = (term + 1) as usize;
            let body = b.subrange(3, term);
            if !valid_utf8(body) {
                EscapeParse::Ignore(n)
            } else {
                let parts = split_seq(decode_utf8(body), ';');
                let button = parse_u16_spec(parts[0]);
                let col = if parts.len() > 1 {
                    parse_u16_spec(parts[1])
                } else {
                    None
                };
                let row = if parts.len() > 2 {
                    parse_u16_spec(parts[2])
                } else {
                    None
                };
                if button is None || !(col matches Some(c) && c > 0) || !(row matches Some(r) && r > 0) {
                    EscapeParse::Ignore(n)
                } else {
                    let bt = button->0;
                    let m = MouseInput { row: (row->0 - 1) as u16, col: (col->0 - 1) as u16, kind: MouseKind::Left };
                    if bt & 64 != 0 {
                        EscapeParse::Event(
                            n,
                            InputEvent::Mouse(
                                MouseInput {
                                    kind: if bt & 1 == 0 {
                                        MouseKind::WheelUp
                                    } else {
                                        MouseKind::WheelDown
                                    },
                                    ..m
                                },
                            ),
                        )
                    } else if b[term] == 77 && bt & 3 == 0 {
                        EscapeParse::Event(n, InputEvent::Mouse(m))
                    } else {
                        EscapeParse::Ignore(n)
                    }
                }
            }
        },
    }
}

/// A control sequence `ESC [ …`: cursor keys move and switch panels,
/// Home/End, back-tab, mouse reports and `~` sequences; another final
/// byte skips the two bytes.
pub open spec fn csi_parse(b: Seq<u8>) -> EscapeParse {
    if b.len() < 3 {
        EscapeParse::Incomplete
    } else {
        let c = b[2];
        if c == 65 {
            EscapeParse::Event(3, InputEvent::Move(-1i32))
        } else if c == 66 {
            EscapeParse::Event(3, InputEvent::Move(1i32))
        } else if c == 67 {
            EscapeParse::Event(3, InputEvent::NextPanel)
        } else if c == 68 {
            EscapeParse::Event(3, InputEvent::PrevPanel)
        } else if c == 72 {
            EscapeParse::Event(3, InputEvent::Home)
        } else if c == 70 {
            EscapeParse::Event(3, InputEvent::End)
        } else if c == 90 {
            EscapeParse::Event(3, InputEvent::PrevPanel)
        } else if c == 60 {
            mouse_parse(b)
        } else if c == 49 || c == 52 || c == 53 || c == 54 || c == 55 || c == 56 {
            tilde_parse(b)
        } else {
            EscapeParse::Ignore(2)
        }
    }
}

/// A sequence starting with ESC: `ESC [` control sequences, `ESC O H` and
/// `ESC O F` (Home and End), other `ESC O` pairs skipped, a lone ESC
/// followed by anything else skipped.
pub open spec fn escape_parse(b: Seq<u8>) -> EscapeParse {
    if b.len() < 2 {
        EscapeParse::Incomplete
    } else if b[1] == 91 {
        csi_parse(b)
    } else if b[1] == 79 {
        if b.len() < 3 {
            EscapeParse::Incomplete
        } else if b[2] == 72 {
            EscapeParse::Event(3, InputEvent::Home)
        } else if b[2] == 70 {
            EscapeParse::Event(3, InputEvent::End)
        } else {
            EscapeParse::Ignore(2)
        }
    } else {
        EscapeParse::Ignore(1)
    }
}

/// What the head of non-empty input is: `q`, `Q`, Ctrl-C and Ctrl-D quit;
/// Tab and `l` go to the next panel, `h` to the previous; `1`-`3` focus a
/// panel; `k` and `j` move; space and Enter activate; `s` cycles the sort;
/// `c` clears the filter; `?` toggles help; ESC starts a sequence; any
/// other byte is skipped.
pub open spec fn input_step(b: Seq<u8>) -> EscapeParse {
    let c = b[0];
    if c == 113 || c == 81 || c == 3 || c == 4 {
        EscapeParse::Event(1, InputEvent::Quit)
    } else if c == 9 || c == 108 {
        EscapeParse::Event(1, InputEvent::NextPanel)
    } else if c == 104 {
        EscapeParse::Event(1, InputEvent::PrevPanel)
    } else if c == 49 {
        EscapeParse::Event(1, InputEvent::Focus(Panel::Peers))
    } else if c == 50 {
        EscapeParse::Event(1, InputEvent::Focus(Panel::Connections))
    } else if c == 51 {
        EscapeParse::Event(1, InputEvent::Focus(Panel::Events))
    } else if c == 107 {
        EscapeParse::Event(1, InputEvent::Move(-1i32))
    } else if c == 106 {
        EscapeParse::Event(1, InputEvent::Move(1i32))
    } else if c == 32 || c == 13 || c == 10 {
        EscapeParse::Event(1, InputEvent::Activate)
    } else if c == 115 || c == 83 {
        EscapeParse::Event(1, InputEvent::CycleSort)
    } else if c == 99 || c == 67 {
        EscapeParse::Event(1, InputEvent::ClearFilter)
    } else if c == 63 {
        EscapeParse::Event(1, InputEvent::ToggleHelp)
    } else if c == 27 {
        escape_parse(b)
    } else {
        EscapeParse::Ignore(1)
    }
}

/// The number of bytes a step takes.
pub open spec fn consumed(p: EscapeParse) -> int {
    match p {
        EscapeParse::Event(n, _) => n as int,
        EscapeParse::Ignore(n) => n as int,
        EscapeParse::Incomplete => 0,
    }
}

/// The events of the input from `i` on, and the bytes left waiting: steps
/// are taken until the input is used up or a sequence is incomplete.
pub open spec fn drain_from(buf: Seq<u8>, i: int) -> (Seq<InputEvent>, Seq<u8>)
    decreases buf.len() - i,
{
    if i < 0 || i >= buf.len() {
        (seq![], seq![])
    } else {
        let p = input_step(buf.skip(i));
        let n = consumed(p);
        if p is Incomplete || n < 1 || i + n > buf.len() {
            (seq![], buf.skip(i))
        } else {
            let (es, rest) = drain_from(buf, i + n);
            match p {
                EscapeParse::Event(_, e) => (seq![e] + es, rest),
                _ => (es, rest),
            }
        }
    }
}

proof fn lemma_first_of(b: Seq<u8>, x: u8, y: u8)
    ensures
        match first_of(b, x, y) {
            Some(i) => 0 <= i < b.len() && (b[i] == x || b[i] == y) && forall|j: int|
                0 <= j < i ==> b[j] != x && b[j] != y,
            None => forall|j: int| 0 <= j < b.len() ==> b[j] != x && b[j] != y,
        },
    decreases b.len(),
{
    if b.len() > 0 {
        lemma_first_of(b.drop_first(), x, y);
        assert forall|j: int| 0 < j < b.len() implies b[j] == b.drop_first()[j - 1] by {}
    }
}

proof fn lemma_first_of_unique(b: Seq<u8>, x: u8, y: u8, i: int)
    requires
        0 <= i <= b.len(),
        forall|j: int| 0 <= j < i ==> b[j] != x && b[j] != y,
        i < b.len() ==> (b[i] == x || b[i] == y),
    ensures
        first_of(b, x, y) == (if i < b.len() {
            Some(i)
        } else {
            None::<int>
        }),
{
    lemma_first_of(b, x, y);
}

/// Index (relative to `pos`) of the first byte equal to `x` or `y` at or
/// after `pos`.
fn find_byte(buf: &[u8], pos: usize, x: u8, y: u8) -> (r: Option<usize>)
    requires
        pos <= buf@.len(),
    ensures
        match first_of(buf@.skip(pos as int), x, y) {
            Some(i) => r == Some(i as usize),
            None => r is None,
        },
{
    let n = buf.len();
    let ghost b = buf@.skip(pos as int);
    let mut k: usize = pos;
    while k < n
        invariant
            n == buf@.len(),
            pos <= k <= n,
            b == buf@.skip(pos as int),
            forall|j: int| 0 <= j < k - pos ==> b[j] != x && b[j] != y,
        decreases n - k,
    {
        if buf[k] == x || buf[k] == y {
            proof {
                lemma_first_of_unique(b, x, y, (k - pos) as int);
            }
            return Some(k - pos);
        }
        k += 1;
    }
    proof {
        lemma_first_of_unique(b, x, y, (k - pos) as int);
    }
    None
}

fn parse_u16(s: &[char]) -> (r: Option<u16>)
    ensures
        r == parse_u16_spec(s@),
{
    match parse_usize(s) {
        Some(v) => if v <= 65535 {
            Some(v as u16)
        } else {
            None
        },
        None => None,
    }
}

fn copy_range(buf: &[u8], lo: usize, hi: usize) -> (r: Vec<u8>)
    requires
        lo <= hi <= buf@.len(),
    ensures
        r@ == buf@.subrange(lo as int, hi as int),
{
    let mut v: Vec<u8> = Vec::new();
    let mut k = lo;
    while k < hi
        invariant
            lo <= k <= hi,
            hi <= buf@.len(),
            v@ == buf@.subrange(lo as int, k as int),
        decreases hi - k,
    {
        v.push(buf[k]);
        assert(buf@.subrange(lo as int, k + 1) =~= buf@.subrange(lo as int, k as int).push(buf@[k as int]));
        k += 1;
    }
    v
}

fn utf8_u16_exec(b: &[u8]) -> (r: Option<u16>)
    ensures
        r == utf8_u16(b@),
{
    match utf8_text(b) {
        Some(t) => parse_u16(chars_of(t.as_str()).as_slice()),
        None => None,
    }
}

fn tilde_at(buf: &[u8], pos: usize) -> (r: EscapeParse)
    requires
        pos + 3 <= buf@.len(),
        buf@[pos as int] == 27,
        buf@[pos + 1] == 91,
        buf@[pos + 2] != 126,
    ensures
        r == tilde_parse(buf@.skip(pos as int)),
{
    let len = buf.len();
    let ghost b = buf@.skip(pos as int);
    assert(b[0] == buf@[pos as int] && b[1] == buf@[pos + 1] && b[2] == buf@[pos + 2]);
    proof {
        lemma_first_of(b, 126, 126);
    }
    match find_byte(buf, pos, 126, 126) {
        None => EscapeParse::Incomplete,
        Some(term) => {
            assert(b[0] == buf@[pos as int] && b[1] == buf@[pos + 1] && b[2] == buf@[pos + 2]);
            let seg = copy_range(buf, pos + 2, pos + term);
            assert(seg@ =~= b.subrange(2, term as int));
            let n = term + 1;
            match utf8_u16_exec(seg.as_slice()) {
                Some(v) => if v == 1 || v == 7 {
                    EscapeParse::Event(n, InputEvent::Home)
                } else if v == 4 || v == 8 {
                    EscapeParse::Event(n, InputEvent::End)
                } else if v == 5 {
                    EscapeParse::Event(n, InputEvent::Page(-1i32))
                } else if v == 6 {
                    EscapeParse::Event(n, InputEvent::Page(1i32))
                } else {
                    EscapeParse::Ignore(n)
                },
                None => EscapeParse::Ignore(n),
            }
        },
    }
}

fn mouse_at(buf: &[u8], pos: usize) -> (r: EscapeParse)
    requires
        pos + 3 <= buf@.len(),
        buf@[pos as int] == 27,
        buf@[pos + 1] == 91,
        buf@[pos + 2] == 60,
    ensures
        r == mouse_parse(buf@.skip(pos as int)),
{
    let len = buf.len();
    let ghost b = buf@.skip(pos as int);
    assert(b[0] == buf@[pos as int] && b[1] == buf@[pos + 1] && b[2] == buf@[pos + 2]);
    proof {
        lemma_first_of(b, 77, 109);
    }
    match find_byte(buf, pos, 77, 109) {
        None => EscapeParse::Incomplete,
        Some(term) => {
            assert(b[2] == buf@[pos + 2]);
            assert(term >= 3);
            let n = term + 1;
            let body = copy_range(buf, pos + 3, pos + term);
            assert(body@ =~= b.subrange(3, term as int));
            let text = match utf8_text(body.as_slice()) {
                Some(t) => t,
                None => {
                    return EscapeParse::Ignore(n);
                },
            };
            let cs = chars_of(text.as_str());
            let parts = split_chars(cs.as_slice(), ';');
            proof {
                crate::text::lemma_split_nonempty(cs@, ';');
            }
            assert(views(parts@)[0] == parts@[0]@);
            let button = parse_u16(parts[0].as_slice());
            let col = if parts.len() > 1 {
                assert(views(parts@)[1] == parts@[1]@);
                parse_u16(parts[1].as_slice())
            } else {
                None
            };
            let row = if parts.len() > 2 {
                assert(views(parts@)[2] == parts@[2]@);
                parse_u16(parts[2].as_slice())
            } else {
                None
            };
            let (bt, c, r) = match (button, col, row) {
                (Some(bt), Some(c), Some(r)) => {
                    if c == 0 || r == 0 {
                        return EscapeParse::Ignore(n);
                    }
                    (bt, c - 1, r - 1)
                },
                _ => {
                    return EscapeParse::Ignore(n);
                },
            };
            assert(b[term as int] == buf@[pos + term]);
            if bt & 64 != 0 {
                let kind = if bt & 1 == 0 {
                    MouseKind::WheelUp
                } else {
                    MouseKind::WheelDown
                };
                EscapeParse::Event(n, InputEvent::Mouse(MouseInput { row: r, col: c, kind }))
            } else if buf[pos + term] == 77 && bt & 3 == 0 {
                EscapeParse::Event(n, InputEvent::Mouse(MouseInput { row: r, col: c, kind: MouseKind::Left }))
            } else {
                EscapeParse::Ignore(n)
            }
        },
    }
}

fn step_at(buf: &[u8], pos: usize) -> (r: EscapeParse)
    requires
        pos < buf@.len(),
    ensures
        r == input_step(buf@.skip(pos as int)),
{
    let n = buf.len();
    let ghost b = buf@.skip(pos as int);
    assert(b[0] == buf@[pos as int]);
    let c = buf[pos];
    if c == 113 || c == 81 || c == 3 || c == 4 {
        EscapeParse::Event(1, InputEvent::Quit)
    } else if c == 9 || c == 108 {
        EscapeParse::Event(1, InputEvent::NextPanel)
    } else if c == 104 {
        EscapeParse::Event(1, InputEvent::PrevPanel)
    } else if c == 49 {
        EscapeParse::Event(1, InputEvent::Focus(Panel::Peers))
    } else if c == 50 {
        EscapeParse::Event(1, InputEvent::Focus(Panel::Connections))
    } else if c == 51 {
        EscapeParse::Event(1, InputEvent::Focus(Panel::Events))
    } else if c == 107 {
        EscapeParse::Event(1, InputEvent::Move(-1i32))
    } else if c == 106 {
        EscapeParse::Event(1, InputEvent::Move(1i32))
    } else if c == 32 || c == 13 || c == 10 {
        EscapeParse::Event(1, InputEvent::Activate)
    } else if c == 115 || c == 83 {
        EscapeParse::Event(1, InputEvent::CycleSort)
    } else if c == 99 || c == 67 {
        EscapeParse::Event(1, InputEvent::ClearFilter)
    } else if c == 63 {
        EscapeParse::Event(1, InputEvent::ToggleHelp)
    } else if c == 27 {
        if n - pos < 2 {
            return EscapeParse::Incomplete;
        }
        assert(b[1] == buf@[pos + 1]);
        let c1 = buf[pos + 1];
        if c1 == 91 {
            if n - pos < 3 {
                return EscapeParse::Incomplete;
            }
            assert(b[2] == buf@[pos + 2]);
            let c2 = buf[pos + 2];
            if c2 == 65 {
                EscapeParse::Event(3, InputEvent::Move(-1i32))
            } else if c2 == 66 {
                EscapeParse::Event(3, InputEvent::Move(1i32))
            } else if c2 == 67 {
                EscapeParse::Event(3, InputEvent::NextPanel)
            } else if c2 == 68 {
                EscapeParse::Event(3, InputEvent::PrevPanel)
            } else if c2 == 72 {
                EscapeParse::Event(3, InputEvent::Home)
            } else if c2 == 70 {
                EscapeParse::Event(3, InputEvent::End)
            } else if c2 == 90 {
                EscapeParse::Event(3, InputEvent::PrevPanel)
            } else if c2 == 60 {
                mouse_at(buf, pos)
            } else if c2 == 49 || c2 == 52 || c2 == 53 || c2 == 54 || c2 == 55 || c2 == 56 {
                tilde_at(buf, pos)
            } else {
                EscapeParse::Ignore(2)
            }
        } else if c1 == 79 {
            if n - pos < 3 {
                return EscapeParse::Incomplete;
            }
            assert(b[2] == buf@[pos + 2]);
            let c2 = buf[pos + 2];
            if c2 == 72 {
                EscapeParse::Event(3, InputEvent::Home)
            } else if c2 == 70 {
                EscapeParse::Event(3, InputEvent::End)
            } else {
                EscapeParse::Ignore(2)
            }
        } else {
            EscapeParse::Ignore(1)
        }
    } else {
        EscapeParse::Ignore(1)
    }
}

/// Reads terminal input into events, keeping an incomplete sequence for
/// the next bytes.
pub struct InputParser {
    pending: Vec<u8>,
}

impl InputParser {
    /// A parser with no bytes waiting.
    pub fn new() -> (r: InputParser)
        ensures
            r.pending_bytes() == Seq::<u8>::empty(),
    {
        InputParser { pending: Vec::new() }
    }

    /// The bytes waiting for the rest of their sequence.
    pub closed spec fn pending_bytes(self) -> Seq<u8> {
        self.pending@
    }

    /// Adds input bytes and returns the events they complete.
    pub fn feed(&mut self, bytes: &[u8]) -> (r: Vec<InputEvent>)
        ensures
            (r@, final(self).pending_bytes()) == drain_from(old(self).pending_bytes() + bytes@, 0),
    {
        let mut buf: Vec<u8> = Vec::new();
        std::mem::swap(&mut buf, &mut self.pending);
        let ghost all = buf@ + bytes@;
        let mut k: usize = 0;
        while k < bytes.len()
            invariant
                k <= bytes@.len(),
                all == old(self).pending@ + bytes@,
                buf@ == old(self).pending@ + bytes@.take(k as int),
            decreases bytes.len() - k,
        {
            buf.push(bytes[k]);
            assert(bytes@.take(k + 1) =~= bytes@.take(k as int).push(bytes@[k as int]));
            k += 1;
        }
        assert(bytes@.take(bytes@.len() as int) =~= bytes@);
        assert(buf@ == all);
        let n = buf.len();
        let mut events: Vec<InputEvent> = Vec::new();
        let mut pos: usize = 0;
        loop
            invariant_except_break
                pos <= n,
                n == buf@.len(),
                buf@ == all,
                drain_from(all, 0) == (events@ + drain_from(all, pos as int).0, drain_from(all, pos as int).1),
            ensures
                pos <= n,
                n == buf@.len(),
                buf@ == all,
                drain_from(all, 0) == (events@, all.skip(pos as int)),
            decreases n - pos,
        {
            if pos == n {
                assert(all.skip(pos as int) =~= Seq::<u8>::empty());
                assert(events@ + Seq::<InputEvent>::empty() =~= events@);
                break;
            }
            let step = step_at(buf.as_slice(), pos);
            proof {
                lemma_step_bounds(all.skip(pos as int));
            }
            match step {
                EscapeParse::Event(c, e) => {
                    let ghost prev = events@;
                    events.push(e);
                    assert(prev + (seq![e] + drain_from(all, pos + c).0) =~= events@ + drain_from(all, pos + c).0);
                    pos = pos + c;
                },
                EscapeParse::Ignore(c) => {
                    pos = pos + c;
                },
                EscapeParse::Incomplete => {
                    assert(events@ + Seq::<InputEvent>::empty() =~= events@);
                    break;
                },
            }
        }
        self.pending = copy_range(buf.as_slice(), pos, n);
        assert(self.pending@ =~= all.skip(pos as int));
        events
    }
}

/// A step takes at least one byte and no more than there are.
proof fn lemma_step_bounds(b: Seq<u8>)
    requires
        b.len() > 0,
        b.len() <= usize::MAX,
    ensures
        !(input_step(b) is Incomplete) ==> 1 <= consumed(input_step(b)) <= b.len(),
{
    lemma_first_of(b, 126, 126);
    lemma_first_of(b, 77, 109);
}


// ───────────────────────────── layout ─────────────────────────────

/// A rectangle of terminal cells.
#[derive(Clone, Copy, Debug, PartialEq, Eq, Structural)]
pub struct Rect {
    pub row: u16,
    pub col: u16,
    pub rows: u16,
    pub cols: u16,
}

/// Where the dashboard's parts go.
#[derive(Clone, Copy, Debug, PartialEq, Eq, Structural)]
pub struct DashboardLayout {
    pub banner_rows: u16,
    pub peers_rect: Rect,
    pub connections_rect: Rect,
    pub events_rect: Rect,
}

/// `a - b`, or 0.
pub open spec fn sat_sub(a: int, b: int) -> int {
    if a > b {
        a - b
    } else {
        0
    }
}

/// The layout for a terminal of `rows` by `cols`: none below 14 by 72. A
/// five-row banner, the event log at the bottom (the rows left after the
/// banner and four more, between 6 and 9), and the peers and connections
/// panels between them: side by side from 110 columns (peers taking 36%,
/// at least 32 columns), else stacked (peers taking half the rows).
pub open spec fn layout_spec(rows: u16, cols: u16) -> Option<DashboardLayout> {
    if rows < 14 || cols < 72 {
        None
    } else {
        let log_rows = {
            let l = sat_sub(rows as int, 9);
            if l < 6 {
                6
            } else if l > 9 {
                9
            } else {
                l
            }
        };
        let body_rows = sat_sub(rows as int, 6 + log_rows + 1);
        let wide = cols >= 110;
        let peers = if wide {
            let w = cols as int * 36 / 100;
            Rect { row: 6, col: 0, rows: body_rows as u16, cols: (if w > 32 { w } else { 32 }) as u16 }
        } else {
            Rect { row: 6, col: 0, rows: (body_rows / 2) as u16, cols }
        };
        let conns = if wide {
            Rect {
                row: 6,
                col: (peers.cols + 1) as u16,
                rows: body_rows as u16,
                cols: sat_sub(cols as int, peers.cols + 1) as u16,
            }
        } else {
            Rect {
                row: (peers.row + peers.rows + 1) as u16,
                col: 0,
                rows: sat_sub(body_rows, peers.rows + 1) as u16,
                cols,
            }
        };
        Some(
            DashboardLayout {
                banner_rows: 5,
                peers_rect: peers,
                connections_rect: conns,
                events_rect: Rect { row: sat_sub(rows as int, log_rows) as u16, col: 0, rows: log_rows as u16, cols },
            },
        )
    }
}

/// The layout for a terminal of `rows` by `cols`.
pub fn compute_layout(rows: u16, cols: u16) -> (r: Option<DashboardLayout>)
    requires
        cols as int * 36 <= u16::MAX,
    ensures
        r == layout_spec(rows, cols),
{
    if rows < 14 || cols < 72 {
        return None;
    }
    let banner_rows: u16 = 5;
    let gap: u16 = 1;
    let l = rows.saturating_sub(banner_rows + 4);
    let log_rows: u16 = if l < 6 {
        6
    } else if l > 9 {
        9
    } else {
        l
    };
    let body_row = banner_rows + gap;
    let body_rows = rows.saturating_sub(body_row + log_rows + gap);
    let wide = cols >= 110;
    let peers_rect = if wide {
        let w = cols * 36 / 100;
        Rect { row: body_row, col: 0, rows: body_rows, cols: if w > 32 { w } else { 32 } }
    } else {
        Rect { row: body_row, col: 0, rows: body_rows / 2, cols }
    };
    let connections_rect = if wide {
        Rect {
            row: body_row,
            col: peers_rect.cols + gap,
            rows: body_rows,
            cols: cols.saturating_sub(peers_rect.cols + gap),
        }
    } else {
        Rect {
            row: peers_rect.row + peers_rect.rows + gap,
            col: 0,
            rows: body_rows.saturating_sub(peers_rect.rows + gap),
            cols,
        }
    };
    let events_rect = Rect { row: rows.saturating_sub(log_rows), col: 0, rows: log_rows, cols };
    Some(DashboardLayout { banner_rows, peers_rect, connections_rect, events_rect })
}

/// Whether a cell lies in a rectangle (whose far edges saturate at the
/// largest coordinate).
pub fn rect_contains(rect: Rect, row: u16, col: u16) -> (r: bool)
    ensures
        r == (row >= rect.row && row < (if rect.row + rect.rows > u16::MAX {
            u16::MAX as int
        } else {
            rect.row + rect.rows
        }) && col >= rect.col && col < (if rect.col + rect.cols > u16::MAX {
            u16::MAX as int
        } else {
            rect.col + rect.cols
        })),
{
    row >= rect.row && row < rect.row.saturating_add(rect.rows) && col >= rect.col && col
        < rect.col.saturating_add(rect.cols)
}

/// The rows of a panel's list: the panel without its two frame rows.
pub open spec fn body_rows(rect: Rect) -> int {
    sat_sub(rect.rows as int, 2)
}

// ───────────────────────────── selection state ─────────────────────────────

/// A peer's address (IPv4 or IPv6), as its bits.
#[derive(Clone, Copy, Debug, PartialEq, Eq, Hash, Structural)]
pub struct PeerAddr {
    pub v6: bool,
    pub bits: u128,
}

/// How peers are sorted.
#[derive(Clone, Copy, Debug, PartialEq, Eq, Structural)]
pub enum PeerSort {
    Packets,
    Bytes,
    Connections,
}

/// How connections are sorted.
#[derive(Clone, Copy, Debug, PartialEq, Eq, Structural)]
pub enum ConnectionSort {
    Packets,
    Bytes,
    Rtt,
    Queue,
}

impl PeerSort {
    /// The next sort order.
    pub fn next(self) -> (r: PeerSort)
        ensures
            r == match self {
                PeerSort::Packets => PeerSort::Bytes,
                PeerSort::Bytes => PeerSort::Connections,
                PeerSort::Connections => PeerSort::Packets,
            },
    {
        match self {
            PeerSort::Packets => PeerSort::Bytes,
            PeerSort::Bytes => PeerSort::Connections,
            PeerSort::Connections => PeerSort::Packets,
        }
    }

    /// The sort order's label.
    pub fn label(self) -> (r: &'static str)
        ensures
            r@ == match self {
                PeerSort::Packets => "pps"@,
                PeerSort::Bytes => "bytes"@,
                PeerSort::Connections => "conns"@,
            },
    {
        match self {
            PeerSort::Packets => "pps",
            PeerSort::Bytes => "bytes",
            PeerSort::Connections => "conns",
        }
    }
}

impl ConnectionSort {
    /// The next sort order.
    pub fn next(self) -> (r: ConnectionSort)
        ensures
            r == match self {
                ConnectionSort::Packets => ConnectionSort::Bytes,
                ConnectionSort::Bytes => ConnectionSort::Rtt,
                ConnectionSort::Rtt => ConnectionSort::Queue,
                ConnectionSort::Queue => ConnectionSort::Packets,
            },
    {
        match self {
            ConnectionSort::Packets => ConnectionSort::Bytes,
            ConnectionSort::Bytes => ConnectionSort::Rtt,
            ConnectionSort::Rtt => ConnectionSort::Queue,
            ConnectionSort::Queue => ConnectionSort::Packets,
        }
    }

    /// The sort order's label.
    pub fn label(self) -> (r: &'static str)
        ensures
            r@ == match self {
                ConnectionSort::Packets => "pps"@,
                ConnectionSort::Bytes => "bytes"@,
                ConnectionSort::Rtt => "rtt"@,
                ConnectionSort::Queue => "queue"@,
            },
    {
        match self {
            ConnectionSort::Packets => "pps",
            ConnectionSort::Bytes => "bytes",
            ConnectionSort::Rtt => "rtt",
            ConnectionSort::Queue => "queue",
        }
    }
}

/// The dashboard's interaction state.
#[derive(Clone, Copy, Debug, PartialEq, Eq, Structural)]
pub struct UiState {
    pub focus: Panel,
    pub peer_selected: usize,
    pub peer_scroll: usize,
    pub connection_selected: usize,
    pub connection_scroll: usize,
    pub event_offset: usize,
    pub peer_sort: PeerSort,
    pub connection_sort: ConnectionSort,
    pub peer_filter: Option<PeerAddr>,
    pub show_help: bool,
}

/// The state at start: connections focused, nothing selected or
/// scrolled, sorted by packets, no filter, no help.
pub open spec fn initial_ui() -> UiState {
    UiState {
        focus: Panel::Connections,
        peer_selected: 0,
        peer_scroll: 0,
        connection_selected: 0,
        connection_scroll: 0,
        event_offset: 0,
        peer_sort: PeerSort::Packets,
        connection_sort: ConnectionSort::Packets,
        peer_filter: None,
        show_help: false,
    }
}

impl UiState {
    /// The state at start.
    pub fn initial() -> (r: UiState)
        ensures
            r == initial_ui(),
    {
        UiState {
            focus: Panel::Connections,
            peer_selected: 0,
            peer_scroll: 0,
            connection_selected: 0,
            connection_scroll: 0,
            event_offset: 0,
            peer_sort: PeerSort::Packets,
            connection_sort: ConnectionSort::Packets,
            peer_filter: None,
            show_help: false,
        }
    }
}

/// What the dashboard lists: the peers' addresses in their current sort
/// order, the remote address of each connection, and the number of log
/// events.
pub struct DashLists {
    pub peers: Vec<PeerAddr>,
    pub connections: Vec<PeerAddr>,
    pub events: usize,
}

/// The number of connections shown under a peer filter.
pub open spec fn shown_count(conns: Seq<PeerAddr>, filter: Option<PeerAddr>) -> int
    decreases conns.len(),
{
    if conns.len() == 0 {
        0
    } else {
        shown_count(conns.drop_last(), filter) + if filter is None || filter == Some(conns.last()) {
            1int
        } else {
            0
        }
    }
}

fn count_shown(conns: &Vec<PeerAddr>, filter: Option<PeerAddr>) -> (r: usize)
    ensures
        r == shown_count(conns@, filter),
{
    let mut c: usize = 0;
    let mut i: usize = 0;
    while i < conns.len()
        invariant
            i <= conns@.len(),
            c == shown_count(conns@.take(i as int), filter),
            c <= i,
        decreases conns.len() - i,
    {
        assert(conns@.take(i + 1).drop_last() =~= conns@.take(i as int));
        if filter.is_none() || filter == Some(conns[i]) {
            c += 1;
        }
        i += 1;
    }
    assert(conns@.take(conns@.len() as int) =~= conns@);
    c
}

/// Whether a list position is kept visible: selection within the list
/// and the scroll such that it shows.
pub open spec fn clamp_sel(selected: usize, scroll: usize, len: usize, visible: usize) -> (usize, usize) {
    if len == 0 || visible == 0 {
        (0, 0)
    } else {
        let sel = if selected < len - 1 {
            selected
        } else {
            (len - 1) as usize
        };
        let max_scroll = sat_sub(len as int, visible as int);
        let sc0 = if scroll < max_scroll {
            scroll as int
        } else {
            max_scroll
        };
        let sc1 = if sel < sc0 {
            sel as int
        } else {
            sc0
        };
        let sc2 = if sel >= sc1 + visible {
            sel + 1 - visible
        } else {
            sc1
        };
        (sel, sc2 as usize)
    }
}

fn clamp_selection(selected: usize, scroll: usize, len: usize, visible: usize) -> (r: (usize, usize))
    ensures
        r == clamp_sel(selected, scroll, len, visible),
{
    if len == 0 || visible == 0 {
        return (0, 0);
    }
    let sel = if selected < len - 1 {
        selected
    } else {
        len - 1
    };
    let max_scroll = len.saturating_sub(visible);
    let mut sc = if scroll < max_scroll {
        scroll
    } else {
        max_scroll
    };
    if sel < sc {
        sc = sel;
    }
    if sel - sc >= visible {
        sc = sel + 1 - visible;
    }
    (sel, sc)
}

/// `x + d`, saturating at 0 and at the largest `usize`.
pub open spec fn add_signed(x: usize, d: int) -> usize {
    if x + d < 0 {
        0
    } else if x + d > usize::MAX {
        usize::MAX
    } else {
        (x + d) as usize
    }
}

fn add_signed_exec(x: usize, d: i32) -> (r: usize)
    ensures
        r == add_signed(x, d as int),
{
    if d < 0 {
        let m = (-(d as i64)) as usize;
        x.saturating_sub(m)
    } else {
        x.saturating_add(d as usize)
    }
}

/// A selection moved by `delta` within a list of `len` (unchanged when
/// the list is empty or `delta` is 0); whether it changed.
pub open spec fn shift_sel(selected: usize, len: usize, delta: int) -> (usize, bool) {
    if len == 0 || delta == 0 {
        (selected, false)
    } else {
        let a = add_signed(selected, delta);
        let next = if a < len - 1 {
            a
        } else {
            (len - 1) as usize
        };
        (next, next != selected)
    }
}

fn shift_selection(selected: usize, len: usize, delta: i32) -> (r: (usize, bool))
    ensures
        r == shift_sel(selected, len, delta as int),
{
    if len == 0 || delta == 0 {
        return (selected, false);
    }
    let a = add_signed_exec(selected, delta);
    let next = if a < len - 1 {
        a
    } else {
        len - 1
    };
    (next, next != selected)
}

/// An offset moved by `delta`, at most `max`; whether it changed.
pub open spec fn shift_off(offset: usize, max: usize, delta: int) -> (usize, bool) {
    if delta == 0 {
        (offset, false)
    } else {
        let a = add_signed(offset, delta);
        let next = if a < max {
            a
        } else {
            max
        };
        (next, next != offset)
    }
}

fn shift_offset(offset: usize, max: usize, delta: i32) -> (r: (usize, bool))
    ensures
        r == shift_off(offset, max, delta as int),
{
    if delta == 0 {
        return (offset, false);
    }
    let a = add_signed_exec(offset, delta);
    let next = if a < max {
        a
    } else {
        max
    };
    (next, next != offset)
}

/// The largest offset of the event log: the events that do not fit in its
/// rows (less one for its header).
pub open spec fn max_event_offset(events: usize, layout: Option<DashboardLayout>) -> usize {
    match layout {
        Some(l) => sat_sub(events as int, sat_sub(l.events_rect.rows as int, 1)) as usize,
        None => 0,
    }
}

fn max_event_offset_exec(events: usize, layout: Option<DashboardLayout>) -> (r: usize)
    ensures
        r == max_event_offset(events, layout),
{
    match layout {
        Some(l) => events.saturating_sub(l.events_rect.rows.saturating_sub(1) as usize),
        None => 0,
    }
}

/// The counts that the state's lists have: peers, and connections shown
/// under the state's filter.
pub open spec fn list_lens(ui: UiState, peers: Seq<PeerAddr>, conns: Seq<PeerAddr>) -> (int, int) {
    (peers.len() as int, shown_count(conns, ui.peer_filter))
}

/// Moves the focused panel's selection (the event log's offset, against
/// the direction) by `delta`; whether it changed.
pub open spec fn move_sel(ui: UiState, peers: Seq<PeerAddr>, conns: Seq<PeerAddr>, events: usize, layout: Option<DashboardLayout>, delta: int) -> (UiState, bool) {
    match ui.focus {
        Panel::Peers => {
            let (n, c) = shift_sel(ui.peer_selected, peers.len() as usize, delta);
            (UiState { peer_selected: n, ..ui }, c)
        },
        Panel::Connections => {
            let (n, c) = shift_sel(ui.connection_selected, shown_count(conns, ui.peer_filter) as usize, delta);
            (UiState { connection_selected: n, ..ui }, c)
        },
        Panel::Events => {
            let (n, c) = shift_off(ui.event_offset, max_event_offset(events, layout), -delta);
            (UiState { event_offset: n, ..ui }, c)
        },
    }
}

/// The rows a page moves in the focused panel: its visible rows less one
/// (at least 1), or 8 without a layout.
pub open spec fn page_step(ui: UiState, layout: Option<DashboardLayout>) -> int {
    let s = match layout {
        Some(l) => match ui.focus {
            Panel::Peers => sat_sub(body_rows(l.peers_rect), 1),
            Panel::Connections => sat_sub(body_rows(l.connections_rect), 1),
            Panel::Events => sat_sub(l.events_rect.rows as int, 1),
        },
        None => 8,
    };
    if s < 1 {
        1
    } else {
        s
    }
}

/// `a * b` clamped to the `i32` range.
pub open spec fn sat_mul_i32(a: int, b: int) -> int {
    if a * b < i32::MIN {
        i32::MIN as int
    } else if a * b > i32::MAX {
        i32::MAX as int
    } else {
        a * b
    }
}

/// Moves to the start (`to_start`) or end of the focused list; for the
/// event log the start is the oldest offset.
pub open spec fn jump_sel(ui: UiState, peers: Seq<PeerAddr>, conns: Seq<PeerAddr>, events: usize, layout: Option<DashboardLayout>, to_start: bool) -> (UiState, bool) {
    match ui.focus {
        Panel::Peers => {
            let next = if to_start { 0 } else { sat_sub(peers.len() as int, 1) as usize };
            (UiState { peer_selected: next, ..ui }, next != ui.peer_selected)
        },
        Panel::Connections => {
            let next = if to_start { 0 } else { sat_sub(shown_count(conns, ui.peer_filter), 1) as usize };
            (UiState { connection_selected: next, ..ui }, next != ui.connection_selected)
        },
        Panel::Events => {
            let next = if to_start { max_event_offset(events, layout) } else { 0 };
            (UiState { event_offset: next, ..ui }, next != ui.event_offset)
        },
    }
}

/// Whether an address is among the peers.
pub open spec fn has_peer(peers: Seq<PeerAddr>, a: PeerAddr) -> bool {
    exists|i: int| 0 <= i < peers.len() && peers[i] == a
}

/// The state kept consistent with the lists: a filter on a peer that is
/// gone is dropped; the selections stay in their lists and visible (the
/// event offset within the log) — or, without a layout, in their lists,
/// unscrolled.
pub open spec fn clamp_ui(ui: UiState, peers: Seq<PeerAddr>, conns: Seq<PeerAddr>, events: usize, layout: Option<DashboardLayout>) -> UiState {
    let filter = match ui.peer_filter {
        Some(a) => if has_peer(peers, a) { Some(a) } else { None },
        None => None,
    };
    let np = peers.len() as usize;
    let nc = shown_count(conns, filter) as usize;
    match layout {
        Some(l) => {
            let (ps, pc) = clamp_sel(ui.peer_selected, ui.peer_scroll, np, body_rows(l.peers_rect) as usize);
            let (cs, cc) = clamp_sel(ui.connection_selected, ui.connection_scroll, nc, body_rows(l.connections_rect) as usize);
            let m = max_event_offset(events, layout);
            UiState {
                peer_filter: filter,
                peer_selected: ps,
                peer_scroll: pc,
                connection_selected: cs,
                connection_scroll: cc,
                event_offset: if ui.event_offset < m { ui.event_offset } else { m },
                ..ui
            }
        },
        None => UiState {
            peer_filter: filter,
            peer_selected: if ui.peer_selected < sat_sub(np as int, 1) { ui.peer_selected } else { sat_sub(np as int, 1) as usize },
            connection_selected: if ui.connection_selected < sat_sub(nc as int, 1) { ui.connection_selected } else { sat_sub(nc as int, 1) as usize },
            peer_scroll: 0,
            connection_scroll: 0,
            event_offset: 0,
            ..ui
        },
    }
}

/// A click or wheel on a list: the wheel moves the selection by three;
/// a click on a visible row below the panel's header selects it.
pub open spec fn mouse_list(selected: usize, scroll: usize, len: usize, rect: Rect, m: MouseInput) -> (usize, bool) {
    let visible = body_rows(rect);
    match m.kind {
        MouseKind::WheelUp => shift_sel(selected, len, -3),
        MouseKind::WheelDown => shift_sel(selected, len, 3),
        MouseKind::Left => if len == 0 || visible == 0 || m.row < rect.row + 2 {
            (selected, false)
        } else {
            let local = m.row - (rect.row + 2);
            if local >= visible {
                (selected, false)
            } else {
                let idx = if scroll + local < len - 1 { (scroll + local) as usize } else { (len - 1) as usize };
                (idx, idx != selected)
            }
        },
    }
}

/// A mouse report: in a panel it focuses the panel, and a wheel or click
/// acts on its list (the wheel scrolls the event log).
pub open spec fn mouse_spec(ui: UiState, peers: Seq<PeerAddr>, conns: Seq<PeerAddr>, events: usize, layout: Option<DashboardLayout>, m: MouseInput) -> (UiState, bool) {
    match layout {
        None => (ui, false),
        Some(l) => {
            let inside = |r: Rect|
                m.row >= r.row && m.row < (if r.row + r.rows > u16::MAX { u16::MAX as int } else { r.row + r.rows })
                    && m.col >= r.col && m.col < (if r.col + r.cols > u16::MAX { u16::MAX as int } else { r.col + r.cols });
            if inside(l.peers_rect) {
                let (n, c) = mouse_list(ui.peer_selected, ui.peer_scroll, peers.len() as usize, l.peers_rect, m);
                (UiState { focus: Panel::Peers, peer_selected: n, ..ui }, ui.focus != Panel::Peers || c)
            } else if inside(l.connections_rect) {
                let (n, c) = mouse_list(ui.connection_selected, ui.connection_scroll, shown_count(conns, ui.peer_filter) as usize, l.connections_rect, m);
                (UiState { focus: Panel::Connections, connection_selected: n, ..ui }, ui.focus != Panel::Connections || c)
            } else if inside(l.events_rect) {
                let max = sat_sub(events as int, sat_sub(l.events_rect.rows as int, 1)) as usize;
                let (n, c) = match m.kind {
                    MouseKind::WheelUp => shift_off(ui.event_offset, max, 3),
                    MouseKind::WheelDown => shift_off(ui.event_offset, max, -3),
                    MouseKind::Left => (ui.event_offset, false),
                };
                (UiState { focus: Panel::Events, event_offset: n, ..ui }, ui.focus != Panel::Events || c)
            } else {
                (ui, false)
            }
        },
    }
}

/// What an input event does to the state, and whether it changed: panel
/// switches, moves and pages, Home/End, activating a peer (which filters
/// the connections on it, or lifts that filter, and focuses them),
/// cycling the focused panel's sort, clearing the filter, toggling help,
/// and mouse reports. A change is followed by keeping the state
/// consistent with the lists.
pub open spec fn event_spec(ui: UiState, peers: Seq<PeerAddr>, conns: Seq<PeerAddr>, events: usize, rows: u16, cols: u16, e: InputEvent) -> (UiState, bool) {
    let layout = layout_spec(rows, cols);
    let (u, changed) = match e {
        InputEvent::Quit => (ui, false),
        InputEvent::NextPanel => (UiState { focus: match ui.focus {
            Panel::Peers => Panel::Connections,
            Panel::Connections => Panel::Events,
            Panel::Events => Panel::Peers,
        }, ..ui }, true),
        InputEvent::PrevPanel => (UiState { focus: match ui.focus {
            Panel::Peers => Panel::Events,
            Panel::Connections => Panel::Peers,
            Panel::Events => Panel::Connections,
        }, ..ui }, true),
        InputEvent::Focus(p) => (UiState { focus: p, ..ui }, ui.focus != p),
        InputEvent::Move(d) => move_sel(ui, peers, conns, events, layout, d as int),
        InputEvent::Page(d) => move_sel(ui, peers, conns, events, layout, sat_mul_i32(d as int, page_step(ui, layout))),
        InputEvent::Home => jump_sel(ui, peers, conns, events, layout, true),
        InputEvent::End => jump_sel(ui, peers, conns, events, layout, false),
        InputEvent::Activate => if ui.focus == Panel::Peers && ui.peer_selected < peers.len() {
            let a = peers[ui.peer_selected as int];
            let next = if ui.peer_filter == Some(a) { None } else { Some(a) };
            if ui.peer_filter != next {
                (UiState { peer_filter: next, connection_selected: 0, connection_scroll: 0, focus: Panel::Connections, ..ui }, true)
            } else {
                (ui, false)
            }
        } else {
            (ui, false)
        },
        InputEvent::CycleSort => match ui.focus {
            Panel::Peers => (UiState { peer_sort: match ui.peer_sort {
                PeerSort::Packets => PeerSort::Bytes,
                PeerSort::Bytes => PeerSort::Connections,
                PeerSort::Connections => PeerSort::Packets,
            }, ..ui }, true),
            Panel::Connections => (UiState { connection_sort: match ui.connection_sort {
                ConnectionSort::Packets => ConnectionSort::Bytes,
                ConnectionSort::Bytes => ConnectionSort::Rtt,
                ConnectionSort::Rtt => ConnectionSort::Queue,
                ConnectionSort::Queue => ConnectionSort::Packets,
            }, ..ui }, true),
            Panel::Events => (ui, false),
        },
        InputEvent::ClearFilter => if ui.peer_filter is Some {
            (UiState { peer_filter: None, connection_selected: 0, connection_scroll: 0, ..ui }, true)
        } else {
            (ui, false)
        },
        InputEvent::ToggleHelp => (UiState { show_help: !ui.show_help, ..ui }, true),
        InputEvent::Mouse(m) => mouse_spec(ui, peers, conns, events, layout, m),
    };
    if changed {
        (clamp_ui(u, peers, conns, events, layout), true)
    } else {
        (u, false)
    }
}


fn move_exec(ui: UiState, lists: &DashLists, layout: Option<DashboardLayout>, delta: i32) -> (r: (UiState, bool))
    requires
        ui.focus == Panel::Events ==> delta != i32::MIN,
    ensures
        r == move_sel(ui, lists.peers@, lists.connections@, lists.events, layout, delta as int),
{
    match ui.focus {
        Panel::Peers => {
            let (n, c) = shift_selection(ui.peer_selected, lists.peers.len(), delta);
            (UiState { peer_selected: n, ..ui }, c)
        },
        Panel::Connections => {
            let len = count_shown(&lists.connections, ui.peer_filter);
            let (n, c) = shift_selection(ui.connection_selected, len, delta);
            (UiState { connection_selected: n, ..ui }, c)
        },
        Panel::Events => {
            let m = max_event_offset_exec(lists.events, layout);
            let (n, c) = shift_offset(ui.event_offset, m, -delta);
            (UiState { event_offset: n, ..ui }, c)
        },
    }
}

fn page_step_exec(ui: UiState, layout: Option<DashboardLayout>) -> (r: i32)
    ensures
        r as int == page_step(ui, layout),
        1 <= r <= 65535,
{
    let s: u16 = match layout {
        Some(l) => match ui.focus {
            Panel::Peers => l.peers_rect.rows.saturating_sub(2).saturating_sub(1),
            Panel::Connections => l.connections_rect.rows.saturating_sub(2).saturating_sub(1),
            Panel::Events => l.events_rect.rows.saturating_sub(1),
        },
        None => 8,
    };
    if s < 1 {
        1
    } else {
        s as i32
    }
}

fn jump_exec(ui: UiState, lists: &DashLists, layout: Option<DashboardLayout>, to_start: bool) -> (r: (UiState, bool))
    ensures
        r == jump_sel(ui, lists.peers@, lists.connections@, lists.events, layout, to_start),
{
    match ui.focus {
        Panel::Peers => {
            let next = if to_start {
                0
            } else {
                lists.peers.len().saturating_sub(1)
            };
            (UiState { peer_selected: next, ..ui }, next != ui.peer_selected)
        },
        Panel::Connections => {
            let len = count_shown(&lists.connections, ui.peer_filter);
            let next = if to_start {
                0
            } else {
                len.saturating_sub(1)
            };
            (UiState { connection_selected: next, ..ui }, next != ui.connection_selected)
        },
        Panel::Events => {
            let next = if to_start {
                max_event_offset_exec(lists.events, layout)
            } else {
                0
            };
            (UiState { event_offset: next, ..ui }, next != ui.event_offset)
        },
    }
}

fn has_peer_exec(peers: &Vec<PeerAddr>, a: PeerAddr) -> (r: bool)
    ensures
        r == has_peer(peers@, a),
{
    let mut i: usize = 0;
    while i < peers.len()
        invariant
            i <= peers@.len(),
            forall|j: int| 0 <= j < i ==> peers@[j] != a,
        decreases peers.len() - i,
    {
        if peers[i] == a {
            return true;
        }
        i += 1;
    }
    false
}

fn clamp_exec(ui: UiState, lists: &DashLists, layout: Option<DashboardLayout>) -> (r: UiState)
    ensures
        r == clamp_ui(ui, lists.peers@, lists.connections@, lists.events, layout),
{
    let filter = match ui.peer_filter {
        Some(a) => if has_peer_exec(&lists.peers, a) {
            Some(a)
        } else {
            None
        },
        None => None,
    };
    let np = lists.peers.len();
    let nc = count_shown(&lists.connections, filter);
    match layout {
        Some(l) => {
            let pv = l.peers_rect.rows.saturating_sub(2) as usize;
            let cv = l.connections_rect.rows.saturating_sub(2) as usize;
            let (ps, pc) = clamp_selection(ui.peer_selected, ui.peer_scroll, np, pv);
            let (cs, cc) = clamp_selection(ui.connection_selected, ui.connection_scroll, nc, cv);
            let m = max_event_offset_exec(lists.events, layout);
            UiState {
                peer_filter: filter,
                peer_selected: ps,
                peer_scroll: pc,
                connection_selected: cs,
                connection_scroll: cc,
                event_offset: if ui.event_offset < m {
                    ui.event_offset
                } else {
                    m
                },
                ..ui
            }
        },
        None => {
            let pmax = np.saturating_sub(1);
            let cmax = nc.saturating_sub(1);
            UiState {
                peer_filter: filter,
                peer_selected: if ui.peer_selected < pmax {
                    ui.peer_selected
                } else {
                    pmax
                },
                connection_selected: if ui.connection_selected < cmax {
                    ui.connection_selected
                } else {
                    cmax
                },
                peer_scroll: 0,
                connection_scroll: 0,
                event_offset: 0,
                ..ui
            }
        },
    }
}

fn mouse_list_exec(selected: usize, scroll: usize, len: usize, rect: Rect, m: MouseInput) -> (r: (usize, bool))
    ensures
        r == mouse_list(selected, scroll, len, rect, m),
{
    let visible = rect.rows.saturating_sub(2) as usize;
    match m.kind {
        MouseKind::WheelUp => shift_selection(selected, len, -3),
        MouseKind::WheelDown => shift_selection(selected, len, 3),
        MouseKind::Left => {
            if len == 0 || visible == 0 || (m.row as u32) < (rect.row as u32) + 2 {
                return (selected, false);
            }
            let local = (m.row - (rect.row + 2)) as usize;
            if local >= visible {
                return (selected, false);
            }
            let idx: usize = if (scroll as u128) + (local as u128) < (len - 1) as u128 {
                scroll + local
            } else {
                len - 1
            };
            (idx, idx != selected)
        },
    }
}

fn mouse_exec(ui: UiState, lists: &DashLists, layout: Option<DashboardLayout>, m: MouseInput) -> (r: (UiState, bool))
    ensures
        r == mouse_spec(ui, lists.peers@, lists.connections@, lists.events, layout, m),
{
    let l = match layout {
        None => {
            return (ui, false);
        },
        Some(l) => l,
    };
    if rect_contains(l.peers_rect, m.row, m.col) {
        let (n, c) = mouse_list_exec(ui.peer_selected, ui.peer_scroll, lists.peers.len(), l.peers_rect, m);
        (UiState { focus: Panel::Peers, peer_selected: n, ..ui }, ui.focus != Panel::Peers || c)
    } else if rect_contains(l.connections_rect, m.row, m.col) {
        let len = count_shown(&lists.connections, ui.peer_filter);
        let (n, c) = mouse_list_exec(ui.connection_selected, ui.connection_scroll, len, l.connections_rect, m);
        (UiState { focus: Panel::Connections, connection_selected: n, ..ui }, ui.focus != Panel::Connections || c)
    } else if rect_contains(l.events_rect, m.row, m.col) {
        let max = lists.events.saturating_sub(l.events_rect.rows.saturating_sub(1) as usize);
        let (n, c) = match m.kind {
            MouseKind::WheelUp => shift_offset(ui.event_offset, max, 3),
            MouseKind::WheelDown => shift_offset(ui.event_offset, max, -3),
            MouseKind::Left => (ui.event_offset, false),
        };
        (UiState { focus: Panel::Events, event_offset: n, ..ui }, ui.focus != Panel::Events || c)
    } else {
        (ui, false)
    }
}

/// Applies an input event to the state for a terminal of `rows` by `cols`
/// and the current lists; whether anything changed.
pub fn apply_input_event(ui: UiState, lists: &DashLists, rows: u16, cols: u16, event: InputEvent) -> (r: (UiState, bool))
    requires
        cols as int * 36 <= u16::MAX,
        ui.focus == Panel::Events ==> match event {
            InputEvent::Move(d) => d != i32::MIN,
            InputEvent::Page(d) => sat_mul_i32(d as int, page_step(ui, layout_spec(rows, cols))) != i32::MIN,
            _ => true,
        },
    ensures
        r == event_spec(ui, lists.peers@, lists.connections@, lists.events, rows, cols, event),
{
    let layout = compute_layout(rows, cols);
    let (u, changed) = match event {
        InputEvent::Quit => (ui, false),
        InputEvent::NextPanel => (UiState { focus: ui.focus.next(), ..ui }, true),
        InputEvent::PrevPanel => (UiState { focus: ui.focus.prev(), ..ui }, true),
        InputEvent::Focus(p) => (UiState { focus: p, ..ui }, ui.focus != p),
        InputEvent::Move(d) => move_exec(ui, lists, layout, d),
        InputEvent::Page(d) => {
            let step = page_step_exec(ui, layout);
            assert((d as int) * (step as int) <= 2147483648 * 65535 && (d as int) * (step as int) >= -2147483648 * 65535) by (nonlinear_arith)
                requires
                    -2147483648 <= d <= 2147483647,
                    1 <= step <= 65535,
            ;
            let prod = (d as i64) * (step as i64);
            let sd: i32 = if prod < i32::MIN as i64 {
                i32::MIN
            } else if prod > i32::MAX as i64 {
                i32::MAX
            } else {
                prod as i32
            };
            move_exec(ui, lists, layout, sd)
        },
        InputEvent::Home => jump_exec(ui, lists, layout, true),
        InputEvent::End => jump_exec(ui, lists, layout, false),
        InputEvent::Activate => {
            if ui.focus == Panel::Peers && ui.peer_selected < lists.peers.len() {
                let a = lists.peers[ui.peer_selected];
                let next = if ui.peer_filter == Some(a) {
                    None
                } else {
                    Some(a)
                };
                if ui.peer_filter != next {
                    (UiState { peer_filter: next, connection_selected: 0, connection_scroll: 0, focus: Panel::Connections, ..ui }, true)
                } else {
                    (ui, false)
                }
            } else {
                (ui, false)
            }
        },
        InputEvent::CycleSort => match ui.focus {
            Panel::Peers => (UiState { peer_sort: ui.peer_sort.next(), ..ui }, true),
            Panel::Connections => (UiState { connection_sort: ui.connection_sort.next(), ..ui }, true),
            Panel::Events => (ui, false),
        },
        InputEvent::ClearFilter => if ui.peer_filter.is_some() {
            (UiState { peer_filter: None, connection_selected: 0, connection_scroll: 0, ..ui }, true)
        } else {
            (ui, false)
        },
        InputEvent::ToggleHelp => (UiState { show_help: !ui.show_help, ..ui }, true),
        InputEvent::Mouse(m) => mouse_exec(ui, lists, layout, m),
    };
    if changed {
        (clamp_exec(u, lists, layout), true)
    } else {
        (u, false)
    }
}


// ───────────────────────────── input in pieces ─────────────────────────────

proof fn lemma_first_of_extend(b: Seq<u8>, c: Seq<u8>, x: u8, y: u8)
    requires
        first_of(b, x, y) is Some,
    ensures
        first_of(b + c, x, y) == first_of(b, x, y),
{
    lemma_first_of(b, x, y);
    let i = first_of(b, x, y)->0;
    assert forall|j: int| 0 <= j < i implies (b + c)[j] != x && (b + c)[j] != y by {
        assert((b + c)[j] == b[j]);
    }
    assert((b + c)[i] == b[i]);
    lemma_first_of_unique(b + c, x, y, i);
}

/// A step that is decided on some bytes is decided the same way whatever
/// follows them, and takes no more than those bytes.
proof fn lemma_step_extend(b: Seq<u8>, c: Seq<u8>)
    requires
        b.len() > 0,
        !(input_step(b) is Incomplete),
    ensures
        input_step(b + c) == input_step(b),
        consumed(input_step(b)) <= b.len(),
{
    let bc = b + c;
    assert(bc[0] == b[0]);
    if b[0] == 27 {
        assert(b.len() >= 2);
        assert(bc[1] == b[1]);
        if b[1] == 79 {
            assert(bc[2] == b[2]);
        } else if b[1] == 91 {
            assert(b.len() >= 3);
            assert(bc[2] == b[2]);
            let k = b[2];
            if k == 60 {
                lemma_first_of_extend(b, c, 77, 109);
                lemma_first_of(b, 77, 109);
                let term = first_of(b, 77, 109)->0;
                assert(bc.subrange(3, term) =~= b.subrange(3, term));
                assert(bc[term] == b[term]);
            } else if k == 49 || k == 52 || k == 53 || k == 54 || k == 55 || k == 56 {
                lemma_first_of_extend(b, c, 126, 126);
                lemma_first_of(b, 126, 126);
                let term = first_of(b, 126, 126)->0;
                assert(bc.subrange(2, term) =~= b.subrange(2, term));
            }
        }
    }
}

proof fn lemma_drain_shift(x: Seq<u8>, y: Seq<u8>, j: int)
    requires
        0 <= j,
    ensures
        drain_from(x + y, x.len() + j) == drain_from(y, j),
    decreases y.len() - j,
{
    let xy = x + y;
    let i = x.len() + j;
    if j < y.len() {
        assert(xy.skip(i) =~= y.skip(j));
        let p = input_step(y.skip(j));
        let n = consumed(p);
        if !(p is Incomplete || n < 1 || j + n > y.len()) {
            lemma_drain_shift(x, y, j + n);
        }
    }
}

/// Input given in two pieces gives the events that the two pieces give
/// together, and the same bytes left waiting: what follows bytes of input
/// never changes what was decided on them.
proof fn lemma_drain_extend(buf: Seq<u8>, c: Seq<u8>, i: int)
    requires
        0 <= i <= buf.len(),
    ensures
        ({
            let (es, rest) = drain_from(buf, i);
            let (es2, rest2) = drain_from(rest + c, 0);
            drain_from(buf + c, i) == (es + es2, rest2)
        }),
    decreases buf.len() - i,
{
    let bc = buf + c;
    if i == buf.len() {
        assert(drain_from(buf, i) == (Seq::<InputEvent>::empty(), Seq::<u8>::empty()));
        assert(Seq::<u8>::empty() + c =~= c);
        lemma_drain_shift(buf, c, 0);
        let (es2, rest2) = drain_from(c, 0);
        assert(Seq::<InputEvent>::empty() + es2 =~= es2);
    } else {
        assert(bc.skip(i) =~= buf.skip(i) + c);
        let p = input_step(buf.skip(i));
        let n = consumed(p);
        if p is Incomplete || n < 1 || i + n > buf.len() {
            if !(p is Incomplete) {
                lemma_step_extend(buf.skip(i), c);
            }
            assert(buf.skip(i) + c =~= bc.skip(i));
            assert(bc =~= buf.take(i) + bc.skip(i));
            lemma_drain_shift(buf.take(i), bc.skip(i), 0);
            let (es2, rest2) = drain_from(buf.skip(i) + c, 0);
            assert(Seq::<InputEvent>::empty() + es2 =~= es2);
            if p is Incomplete {
                assert(drain_from(bc, i) == drain_from(bc.skip(i), 0)) by {
                    assert(buf.take(i).len() == i);
                }
            } else {
                assert(i + n <= buf.len());
            }
        } else {
            lemma_step_extend(buf.skip(i), c);
            lemma_drain_extend(buf, c, i + n);
            let (es, rest) = drain_from(buf, i + n);
            let (es2, rest2) = drain_from(rest + c, 0);
            match p {
                EscapeParse::Event(_, e) => {
                    assert(seq![e] + (es + es2) =~= (seq![e] + es) + es2);
                },
                _ => {},
            }
        }
    }
}

/// Bytes fed in two calls give the events of feeding them in one, and the
/// same bytes left waiting.
pub proof fn feed_in_pieces(pending: Seq<u8>, a: Seq<u8>, b: Seq<u8>)
    ensures
        ({
            let (e1, p1) = drain_from(pending + a, 0);
            let (e2, p2) = drain_from(p1 + b, 0);
            drain_from(pending + a + b, 0) == (e1 + e2, p2)
        }),
{
    lemma_drain_extend(pending + a, b, 0);
}

} // verus!
