//! Keyboard input of the desktop client: the application's own key
//! bindings, and the bytes that a key press sends to the terminal (xterm
//! conventions: control characters, CSI/SS3 sequences with modifier
//! parameters, ESC-prefixed Alt characters).
use vstd::prelude::*;
use vstd::utf8::encode_utf8;

verus! {

/// Actions bound to application keys.
#[derive(Clone, Copy, Debug, PartialEq, Eq, Structural)]
pub enum AppAction {
    ToggleSwitcher,
    ToggleHelp,
    NewTerminal,
    CloseSession,
    CycleSessionNext,
    CycleSessionPrev,
    CyclePaneNext,
    CyclePanePrev,
    ScrollPageUp,
    ScrollPageDown,
    ScrollToTop,
    ScrollToBottom,
    CloseOverlay,
}

/// The named keys that the client treats specially.
#[derive(Clone, Copy, Debug, PartialEq, Eq, Structural)]
pub enum NamedKey {
    ArrowUp,
    ArrowDown,
    ArrowRight,
    ArrowLeft,
    PageUp,
    PageDown,
    Delete,
    Insert,
    Home,
    End,
    F1,
    F2,
    F3,
    F4,
    F5,
    F6,
    F7,
    F8,
    F9,
    F10,
    F11,
    F12,
    Enter,
    Backspace,
    Tab,
    Escape,
    Other,
}

/// The logical key of a key event: a named key, the text it types, or
/// neither.
#[derive(Clone, Debug)]
pub enum Key {
    Named(NamedKey),
    Character(String),
    Unidentified,
}

/// The physical key of a key event, as far as the client looks at it:
/// a letter key (`0` for A up to `25` for Z), the bracket and backslash
/// keys, or another key.
#[derive(Clone, Copy, Debug, PartialEq, Eq, Structural)]
pub enum PhysicalKey {
    Letter(u8),
    BracketLeft,
    Backslash,
    BracketRight,
    Other,
}

/// The modifier keys held.
#[derive(Clone, Copy, Debug, PartialEq, Eq, Structural)]
pub struct Modifiers {
    pub ctrl: bool,
    pub alt: bool,
    pub shift: bool,
    pub super_key: bool,
}

/// The first character of the text a key types.
pub open spec fn first_char(key: Key) -> Option<char> {
    match key {
        Key::Character(s) => if s@.len() > 0 {
            Some(s@[0])
        } else {
            None
        },
        _ => None,
    }
}

/// The letter index of a physical letter key.
pub open spec fn letter_index(p: PhysicalKey) -> Option<u8> {
    match p {
        PhysicalKey::Letter(i) => if i < 26 {
            Some(i)
        } else {
            None
        },
        _ => None,
    }
}

/// Whether the key is the named key `n`.
pub open spec fn is_named(key: Key, n: NamedKey) -> bool {
    key matches Key::Named(k) && k == n
}

/// The action of an application key binding, for a key press (`None` for
/// a release and for keys without a binding). Command is Ctrl or Super.
pub open spec fn app_binding(key: Key, physical: PhysicalKey, m: Modifiers, pressed: bool) -> Option<
    AppAction,
> {
    let ctrl = m.ctrl;
    let shift = m.shift;
    let sup = m.super_key;
    let cmd = ctrl || sup;
    if !pressed {
        None
    } else if cmd && !shift && physical == PhysicalKey::Letter(10) {
        Some(AppAction::ToggleSwitcher)
    } else if ctrl && shift && first_char(key) == Some('?') {
        Some(AppAction::ToggleHelp)
    } else if cmd && shift && is_named(key, NamedKey::Enter) {
        Some(AppAction::NewTerminal)
    } else if cmd && shift && physical == PhysicalKey::Letter(22) {
        Some(AppAction::CloseSession)
    } else if cmd && shift && first_char(key) == Some('}') {
        Some(AppAction::CycleSessionNext)
    } else if cmd && shift && first_char(key) == Some('{') {
        Some(AppAction::CycleSessionPrev)
    } else if ctrl && !shift && physical == PhysicalKey::BracketRight {
        Some(AppAction::CyclePaneNext)
    } else if ctrl && !shift && physical == PhysicalKey::BracketLeft {
        Some(AppAction::CyclePanePrev)
    } else if shift && !ctrl && !sup && is_named(key, NamedKey::PageUp) {
        Some(AppAction::ScrollPageUp)
    } else if shift && !ctrl && !sup && is_named(key, NamedKey::PageDown) {
        Some(AppAction::ScrollPageDown)
    } else if shift && !ctrl && !sup && is_named(key, NamedKey::Home) {
        Some(AppAction::ScrollToTop)
    } else if shift && !ctrl && !sup && is_named(key, NamedKey::End) {
        Some(AppAction::ScrollToBottom)
    } else if is_named(key, NamedKey::Escape) && !ctrl && !shift && !sup {
        Some(AppAction::CloseOverlay)
    } else {
        None
    }
}

fn key_first_char(key: &Key) -> (r: Option<char>)
    ensures
        r == first_char(*key),
{
    match key {
        Key::Character(s) => {
            let cs = crate::text::chars_of(s.as_str());
            if cs.len() > 0 {
                Some(cs[0])
            } else {
                None
            }
        },
        _ => None,
    }
}

fn key_is_named(key: &Key, n: NamedKey) -> (r: bool)
    ensures
        r == is_named(*key, n),
{
    match key {
        Key::Named(k) => *k == n,
        _ => false,
    }
}

/// The application action that a key event triggers, if any.
pub fn check_app_keybinding(key: &Key, physical: &PhysicalKey, mods: &Modifiers, pressed: bool) -> (r:
    Option<AppAction>)
    ensures
        r == app_binding(*key, *physical, *mods, pressed),
{
    if !pressed {
        return None;
    }
    let ctrl = mods.ctrl;
    let shift = mods.shift;
    let sup = mods.super_key;
    let cmd = ctrl || sup;
    let c = key_first_char(key);
    let p = *physical;
    if cmd && !shift && p == PhysicalKey::Letter(10) {
        Some(AppAction::ToggleSwitcher)
    } else if ctrl && shift && c == Some('?') {
        Some(AppAction::ToggleHelp)
    } else if cmd && shift && key_is_named(key, NamedKey::Enter) {
        Some(AppAction::NewTerminal)
    } else if cmd && shift && p == PhysicalKey::Letter(22) {
        Some(AppAction::CloseSession)
    } else if cmd && shift && c == Some('}') {
        Some(AppAction::CycleSessionNext)
    } else if cmd && shift && c == Some('{') {
        Some(AppAction::CycleSessionPrev)
    } else if ctrl && !shift && p == PhysicalKey::BracketRight {
        Some(AppAction::CyclePaneNext)
    } else if ctrl && !shift && p == PhysicalKey::BracketLeft {
        Some(AppAction::CyclePanePrev)
    } else if shift && !ctrl && !sup && key_is_named(key, NamedKey::PageUp) {
        Some(AppAction::ScrollPageUp)
    } else if shift && !ctrl && !sup && key_is_named(key, NamedKey::PageDown) {
        Some(AppAction::ScrollPageDown)
    } else if shift && !ctrl && !sup && key_is_named(key, NamedKey::Home) {
        Some(AppAction::ScrollToTop)
    } else if shift && !ctrl && !sup && key_is_named(key, NamedKey::End) {
        Some(AppAction::ScrollToBottom)
    } else if key_is_named(key, NamedKey::Escape) && !ctrl && !shift && !sup {
        Some(AppAction::CloseOverlay)
    } else {
        None
    }
}

// ───────────────────────────── bytes of a key ─────────────────────────────

/// The xterm modifier bits: Shift 1, Alt 2, Ctrl 4, Super 8.
pub open spec fn mod_bits(m: Modifiers) -> int {
    (if m.shift {
        1int
    } else {
        0
    }) + (if m.alt {
        2int
    } else {
        0
    }) + (if m.ctrl {
        4int
    } else {
        0
    }) + (if m.super_key {
        8int
    } else {
        0
    })
}

/// The ASCII decimal digits of `n < 100`.
pub open spec fn dec_bytes(n: int) -> Seq<u8> {
    if n < 10 {
        seq![(48 + n) as u8]
    } else {
        seq![(48 + n / 10) as u8, (48 + n % 10) as u8]
    }
}

/// The final letter of the cursor key sequences.
pub open spec fn arrow_letter(key: Key) -> Option<u8> {
    match key {
        Key::Named(NamedKey::ArrowUp) => Some(65u8),
        Key::Named(NamedKey::ArrowDown) => Some(66u8),
        Key::Named(NamedKey::ArrowRight) => Some(67u8),
        Key::Named(NamedKey::ArrowLeft) => Some(68u8),
        _ => None,
    }
}

/// The number of the `CSI n ~` sequences of the editing keys.
pub open spec fn tilde_code(key: Key) -> Option<Seq<u8>> {
    match key {
        Key::Named(NamedKey::PageUp) => Some(seq![53u8]),
        Key::Named(NamedKey::PageDown) => Some(seq![54u8]),
        Key::Named(NamedKey::Delete) => Some(seq![51u8]),
        Key::Named(NamedKey::Insert) => Some(seq![50u8]),
        _ => None,
    }
}

/// The final letter of Home (`H`) and End (`F`).
pub open spec fn home_end_letter(key: Key) -> Option<u8> {
    match key {
        Key::Named(NamedKey::Home) => Some(72u8),
        Key::Named(NamedKey::End) => Some(70u8),
        _ => None,
    }
}

/// The final letter of F1 to F4 (`P` to `S`).
pub open spec fn f1_4_letter(key: Key) -> Option<u8> {
    match key {
        Key::Named(NamedKey::F1) => Some(80u8),
        Key::Named(NamedKey::F2) => Some(81u8),
        Key::Named(NamedKey::F3) => Some(82u8),
        Key::Named(NamedKey::F4) => Some(83u8),
        _ => None,
    }
}

/// The number of the `CSI n ~` sequences of F5 to F12.
pub open spec fn fkey_code(key: Key) -> Option<Seq<u8>> {
    match key {
        Key::Named(NamedKey::F5) => Some(seq![49u8, 53]),
        Key::Named(NamedKey::F6) => Some(seq![49u8, 55]),
        Key::Named(NamedKey::F7) => Some(seq![49u8, 56]),
        Key::Named(NamedKey::F8) => Some(seq![49u8, 57]),
        Key::Named(NamedKey::F9) => Some(seq![50u8, 48]),
        Key::Named(NamedKey::F10) => Some(seq![50u8, 49]),
        Key::Named(NamedKey::F11) => Some(seq![50u8, 51]),
        Key::Named(NamedKey::F12) => Some(seq![50u8, 52]),
        _ => None,
    }
}

/// `ESC [`
pub open spec fn csi() -> Seq<u8> {
    seq![27u8, 91]
}

/// What the key sends with the modifier parameter: `CSI 1 ; m <letter>`.
pub open spec fn csi_mod_letter(m: int, letter: u8) -> Seq<u8> {
    csi() + seq![49u8, 59] + dec_bytes(m) + seq![letter]
}

/// `CSI <code> ; m ~`, or `CSI <code> ~` without modifiers.
pub open spec fn csi_tilde(code: Seq<u8>, mb: int) -> Seq<u8> {
    if mb != 0 {
        csi() + code + seq![59u8] + dec_bytes(mb + 1) + seq![126u8]
    } else {
        csi() + code + seq![126u8]
    }
}

/// The bytes that a key press sends to the terminal, if any: Ctrl with a
/// letter sends its control character (Ctrl+[, \ and ] send 0x1b, 0x1c,
/// 0x1d; Ctrl+Shift with `?` sends DEL, with space or `@` NUL); cursor,
/// editing and function keys send their xterm sequences, with the
/// modifier parameter when a modifier is held (cursor keys in
/// application-cursor mode use SS3); Enter, Backspace, Tab and Escape
/// send CR, DEL, HT and ESC; Alt with a printable ASCII character sends
/// ESC and the character; typed text without modifiers is sent as UTF-8.
pub open spec fn key_bytes(key: Key, physical: PhysicalKey, m: Modifiers, app_cursor: bool) -> Option<
    Seq<u8>,
> {
    let ctrl = m.ctrl;
    let alt = m.alt;
    let shift = m.shift;
    let sup = m.super_key;
    let plain_ctrl = ctrl && !alt && !sup;
    let mb = mod_bits(m);
    if plain_ctrl && letter_index(physical) is Some {
        Some(seq![(letter_index(physical)->0 + 1) as u8])
    } else if plain_ctrl && physical == PhysicalKey::BracketLeft {
        Some(seq![0x1bu8])
    } else if plain_ctrl && physical == PhysicalKey::Backslash {
        Some(seq![0x1cu8])
    } else if plain_ctrl && physical == PhysicalKey::BracketRight {
        Some(seq![0x1du8])
    } else if plain_ctrl && shift && first_char(key) == Some('?') {
        Some(seq![0x7fu8])
    } else if plain_ctrl && shift && (first_char(key) == Some(' ') || first_char(key) == Some('@')) {
        Some(seq![0u8])
    } else if arrow_letter(key) is Some {
        let a = arrow_letter(key)->0;
        if mb != 0 {
            Some(csi_mod_letter(mb + 1, a))
        } else if app_cursor {
            Some(seq![27u8, 79, a])
        } else {
            Some(csi() + seq![a])
        }
    } else if tilde_code(key) is Some {
        Some(csi_tilde(tilde_code(key)->0, mb))
    } else if home_end_letter(key) is Some {
        let h = home_end_letter(key)->0;
        if mb != 0 {
            Some(csi_mod_letter(mb + 1, h))
        } else {
            Some(csi() + seq![h])
        }
    } else if f1_4_letter(key) is Some {
        let f = f1_4_letter(key)->0;
        if mb != 0 {
            Some(csi_mod_letter(mb + 1, f))
        } else {
            Some(seq![27u8, 79, f])
        }
    } else if fkey_code(key) is Some {
        Some(csi_tilde(fkey_code(key)->0, mb))
    } else if is_named(key, NamedKey::Enter) {
        Some(seq![13u8])
    } else if is_named(key, NamedKey::Backspace) {
        Some(seq![0x7fu8])
    } else if is_named(key, NamedKey::Tab) {
        Some(seq![9u8])
    } else if is_named(key, NamedKey::Escape) {
        Some(seq![0x1bu8])
    } else if alt && !ctrl && !sup && first_char(key) is Some && 0x20 <= (first_char(key)->0 as u32)
        <= 0x7e {
        Some(seq![27u8, first_char(key)->0 as u8])
    } else if !ctrl && !sup && !alt && key is Character {
        Some(encode_utf8(key->Character_0@))
    } else {
        None
    }
}

/// The editing keys and the number xterm gives each: Insert 2, Delete 3,
/// Page Up 5, Page Down 6.
pub open spec fn editing_key_number(k: NamedKey) -> Option<u8> {
    match k {
        NamedKey::Insert => Some(50u8),
        NamedKey::Delete => Some(51u8),
        NamedKey::PageUp => Some(53u8),
        NamedKey::PageDown => Some(54u8),
        _ => None,
    }
}

/// The editing keys send xterm's `ESC [ n ~`, with `; m` before the `~`
/// when a modifier is held (m is one more than the modifier bits): Insert
/// `ESC [ 2 ~`, Delete `ESC [ 3 ~`, Page Up `ESC [ 5 ~`, Page Down
/// `ESC [ 6 ~`. So two different editing keys never send the same bytes.
/// (A Ctrl chord on a letter or bracket key sends its control character
/// instead; the law speaks of the other key presses.)
pub proof fn editing_keys_law(k1: NamedKey, k2: NamedKey, physical: PhysicalKey, m: Modifiers, app_cursor: bool)
    requires
        editing_key_number(k1) is Some,
        editing_key_number(k2) is Some,
        physical == PhysicalKey::Other || !m.ctrl,
    ensures
        key_bytes(Key::Named(k1), physical, m, app_cursor) == Some(
            if mod_bits(m) == 0 {
                seq![27u8, 91u8, editing_key_number(k1)->0, 126u8]
            } else {
                seq![27u8, 91u8, editing_key_number(k1)->0, 59u8] + dec_bytes(mod_bits(m) + 1) + seq![126u8]
            },
        ),
        key_bytes(Key::Named(NamedKey::Insert), physical, Modifiers { ctrl: false, alt: false, shift: false, super_key: false }, app_cursor)
            == Some(seq![27u8, 91u8, 50u8, 126u8]),
        key_bytes(Key::Named(NamedKey::Delete), physical, Modifiers { ctrl: false, alt: false, shift: false, super_key: false }, app_cursor)
            == Some(seq![27u8, 91u8, 51u8, 126u8]),
        key_bytes(Key::Named(NamedKey::PageUp), physical, Modifiers { ctrl: false, alt: false, shift: false, super_key: false }, app_cursor)
            == Some(seq![27u8, 91u8, 53u8, 126u8]),
        key_bytes(Key::Named(NamedKey::PageDown), physical, Modifiers { ctrl: false, alt: false, shift: false, super_key: false }, app_cursor)
            == Some(seq![27u8, 91u8, 54u8, 126u8]),
        k1 != k2 ==> key_bytes(Key::Named(k1), physical, m, app_cursor) != key_bytes(Key::Named(k2), physical, m, app_cursor),
{
    let none = Modifiers { ctrl: false, alt: false, shift: false, super_key: false };
    let b1 = key_bytes(Key::Named(k1), physical, m, app_cursor);
    let b2 = key_bytes(Key::Named(k2), physical, m, app_cursor);
    assert(b1 == Some(csi_tilde(tilde_code(Key::Named(k1))->0, mod_bits(m))));
    assert(b2 == Some(csi_tilde(tilde_code(Key::Named(k2))->0, mod_bits(m))));
    assert(tilde_code(Key::Named(k1))->0 == seq![editing_key_number(k1)->0]);
    assert(tilde_code(Key::Named(k2))->0 == seq![editing_key_number(k2)->0]);
    if mod_bits(m) == 0 {
        assert(csi_tilde(tilde_code(Key::Named(k1))->0, 0) =~= seq![27u8, 91u8, editing_key_number(k1)->0, 126u8]);
    } else {
        assert(csi_tilde(tilde_code(Key::Named(k1))->0, mod_bits(m)) =~= seq![27u8, 91u8, editing_key_number(k1)->0, 59u8]
            + dec_bytes(mod_bits(m) + 1) + seq![126u8]);
    }
    assert(csi_tilde(seq![50u8], 0) =~= seq![27u8, 91u8, 50u8, 126u8]);
    assert(csi_tilde(seq![51u8], 0) =~= seq![27u8, 91u8, 51u8, 126u8]);
    assert(csi_tilde(seq![53u8], 0) =~= seq![27u8, 91u8, 53u8, 126u8]);
    assert(csi_tilde(seq![54u8], 0) =~= seq![27u8, 91u8, 54u8, 126u8]);
    assert(mod_bits(none) == 0);
    if k1 != k2 {
        assert(editing_key_number(k1)->0 != editing_key_number(k2)->0);
        assert(b1->0[2] == editing_key_number(k1)->0);
        assert(b2->0[2] == editing_key_number(k2)->0);
    }
}

/// Without modifiers (and in normal cursor mode) the other special keys
/// send xterm's sequences: the arrows `ESC [ A` (up), `B` (down), `C`
/// (right), `D` (left); Home `ESC [ H` and End `ESC [ F`; F1 to F4
/// `ESC O P` to `ESC O S`; F5 `ESC [ 1 5 ~`, F12 `ESC [ 2 4 ~`; Enter CR,
/// Backspace DEL, Tab HT, Escape ESC. In application-cursor mode the
/// arrows use `ESC O` instead of `ESC [`.
pub proof fn named_keys_law(physical: PhysicalKey)
    ensures
        ({
            let n = Modifiers { ctrl: false, alt: false, shift: false, super_key: false };
            &&& key_bytes(Key::Named(NamedKey::ArrowUp), physical, n, false) == Some(seq![27u8, 91u8, 65u8])
            &&& key_bytes(Key::Named(NamedKey::ArrowDown), physical, n, false) == Some(seq![27u8, 91u8, 66u8])
            &&& key_bytes(Key::Named(NamedKey::ArrowRight), physical, n, false) == Some(seq![27u8, 91u8, 67u8])
            &&& key_bytes(Key::Named(NamedKey::ArrowLeft), physical, n, false) == Some(seq![27u8, 91u8, 68u8])
            &&& key_bytes(Key::Named(NamedKey::ArrowUp), physical, n, true) == Some(seq![27u8, 79u8, 65u8])
            &&& key_bytes(Key::Named(NamedKey::ArrowLeft), physical, n, true) == Some(seq![27u8, 79u8, 68u8])
            &&& key_bytes(Key::Named(NamedKey::Home), physical, n, false) == Some(seq![27u8, 91u8, 72u8])
            &&& key_bytes(Key::Named(NamedKey::End), physical, n, false) == Some(seq![27u8, 91u8, 70u8])
            &&& key_bytes(Key::Named(NamedKey::F1), physical, n, false) == Some(seq![27u8, 79u8, 80u8])
            &&& key_bytes(Key::Named(NamedKey::F4), physical, n, false) == Some(seq![27u8, 79u8, 83u8])
            &&& key_bytes(Key::Named(NamedKey::F5), physical, n, false) == Some(seq![27u8, 91u8, 49u8, 53u8, 126u8])
            &&& key_bytes(Key::Named(NamedKey::F12), physical, n, false) == Some(seq![27u8, 91u8, 50u8, 52u8, 126u8])
            &&& key_bytes(Key::Named(NamedKey::Enter), physical, n, false) == Some(seq![13u8])
            &&& key_bytes(Key::Named(NamedKey::Backspace), physical, n, false) == Some(seq![127u8])
            &&& key_bytes(Key::Named(NamedKey::Tab), physical, n, false) == Some(seq![9u8])
            &&& key_bytes(Key::Named(NamedKey::Escape), physical, n, false) == Some(seq![27u8])
        }),
{
    let n = Modifiers { ctrl: false, alt: false, shift: false, super_key: false };
    assert(mod_bits(n) == 0);
    assert(csi() + seq![65u8] =~= seq![27u8, 91u8, 65u8]);
    assert(csi() + seq![66u8] =~= seq![27u8, 91u8, 66u8]);
    assert(csi() + seq![67u8] =~= seq![27u8, 91u8, 67u8]);
    assert(csi() + seq![68u8] =~= seq![27u8, 91u8, 68u8]);
    assert(csi() + seq![72u8] =~= seq![27u8, 91u8, 72u8]);
    assert(csi() + seq![70u8] =~= seq![27u8, 91u8, 70u8]);
    assert(csi_tilde(seq![49u8, 53u8], 0) =~= seq![27u8, 91u8, 49u8, 53u8, 126u8]);
    assert(csi_tilde(seq![50u8, 52u8], 0) =~= seq![27u8, 91u8, 50u8, 52u8, 126u8]);
}

fn push_dec(out: &mut Vec<u8>, n: u8)
    requires
        n < 100,
    ensures
        final(out)@ == old(out)@ + dec_bytes(n as int),
{
    if n < 10 {
        out.push(48 + n);
    } else {
        out.push(48 + n / 10);
        out.push(48 + n % 10);
    }
}

fn push_all(out: &mut Vec<u8>, s: &[u8])
    ensures
        final(out)@ == old(out)@ + s@,
{
    let mut i: usize = 0;
    while i < s.len()
        invariant
            i <= s@.len(),
            out@ == old(out)@ + s@.take(i as int),
        decreases s.len() - i,
    {
        out.push(s[i]);
        assert(s@.take(i + 1) =~= s@.take(i as int).push(s@[i as int]));
        i += 1;
    }
    assert(s@.take(s@.len() as int) =~= s@);
}

fn csi_mod_letter_bytes(m: u8, letter: u8) -> (r: Vec<u8>)
    requires
        m < 100,
    ensures
        r@ == csi_mod_letter(m as int, letter),
{
    let mut v: Vec<u8> = vec![27, 91, 49, 59];
    push_dec(&mut v, m);
    v.push(letter);
    assert(v@ =~= csi_mod_letter(m as int, letter));
    v
}

fn csi_tilde_bytes(code: &[u8], mb: u8) -> (r: Vec<u8>)
    requires
        mb < 16,
    ensures
        r@ == csi_tilde(code@, mb as int),
{
    let mut v: Vec<u8> = vec![27, 91];
    push_all(&mut v, code);
    if mb != 0 {
        v.push(59);
        push_dec(&mut v, mb + 1);
    }
    v.push(126);
    assert(v@ =~= csi_tilde(code@, mb as int));
    v
}

/// The bytes that a key press sends to the terminal.
pub fn key_to_bytes(key: &Key, physical: &PhysicalKey, mods: &Modifiers, app_cursor: bool) -> (r:
    Option<Vec<u8>>)
    ensures
        match r {
            Some(v) => key_bytes(*key, *physical, *mods, app_cursor) == Some(v@),
            None => key_bytes(*key, *physical, *mods, app_cursor) is None,
        },
{
    let ctrl = mods.ctrl;
    let alt = mods.alt;
    let shift = mods.shift;
    let sup = mods.super_key;
    let plain_ctrl = ctrl && !alt && !sup;
    let c = key_first_char(key);
    if plain_ctrl {
        match *physical {
            PhysicalKey::Letter(i) => {
                if i < 26 {
                    return Some(vec![i + 1]);
                }
            },
            PhysicalKey::BracketLeft => {
                return Some(vec![0x1b]);
            },
            PhysicalKey::Backslash => {
                return Some(vec![0x1c]);
            },
            PhysicalKey::BracketRight => {
                return Some(vec![0x1d]);
            },
            PhysicalKey::Other => {},
        }
        if shift {
            if c == Some('?') {
                return Some(vec![0x7f]);
            }
            if c == Some(' ') || c == Some('@') {
                return Some(vec![0]);
            }
        }
    }
    let mb: u8 = (if shift {
        1u8
    } else {
        0
    }) + (if alt {
        2u8
    } else {
        0
    }) + (if ctrl {
        4u8
    } else {
        0
    }) + (if sup {
        8u8
    } else {
        0
    });
    assert(mb as int == mod_bits(*mods));
    let named: NamedKey = match key {
        Key::Named(n) => *n,
        _ => NamedKey::Other,
    };
    let arrow: Option<u8> = match named {
        NamedKey::ArrowUp => Some(65),
        NamedKey::ArrowDown => Some(66),
        NamedKey::ArrowRight => Some(67),
        NamedKey::ArrowLeft => Some(68),
        _ => None,
    };
    if let Some(a) = arrow {
        if mb != 0 {
            return Some(csi_mod_letter_bytes(mb + 1, a));
        }
        if app_cursor {
            return Some(vec![27, 79, a]);
        }
        let v = vec![27, 91, a];
        assert(v@ =~= csi() + seq![a]);
        return Some(v);
    }
    let tilde: Option<u8> = match named {
        NamedKey::PageUp => Some(53),
        NamedKey::PageDown => Some(54),
        NamedKey::Delete => Some(51),
        NamedKey::Insert => Some(50),
        _ => None,
    };
    if let Some(t) = tilde {
        let code = vec![t];
        return Some(csi_tilde_bytes(code.as_slice(), mb));
    }
    let he: Option<u8> = match named {
        NamedKey::Home => Some(72),
        NamedKey::End => Some(70),
        _ => None,
    };
    if let Some(h) = he {
        if mb != 0 {
            return Some(csi_mod_letter_bytes(mb + 1, h));
        }
        let v = vec![27, 91, h];
        assert(v@ =~= csi() + seq![h]);
        return Some(v);
    }
    let f14: Option<u8> = match named {
        NamedKey::F1 => Some(80),
        NamedKey::F2 => Some(81),
        NamedKey::F3 => Some(82),
        NamedKey::F4 => Some(83),
        _ => None,
    };
    if let Some(f) = f14 {
        if mb != 0 {
            return Some(csi_mod_letter_bytes(mb + 1, f));
        }
        return Some(vec![27, 79, f]);
    }
    let fk: Option<(u8, u8)> = match named {
        NamedKey::F5 => Some((49, 53)),
        NamedKey::F6 => Some((49, 55)),
        NamedKey::F7 => Some((49, 56)),
        NamedKey::F8 => Some((49, 57)),
        NamedKey::F9 => Some((50, 48)),
        NamedKey::F10 => Some((50, 49)),
        NamedKey::F11 => Some((50, 51)),
        NamedKey::F12 => Some((50, 52)),
        _ => None,
    };
    if let Some((d0, d1)) = fk {
        let code = vec![d0, d1];
        return Some(csi_tilde_bytes(code.as_slice(), mb));
    }
    match named {
        NamedKey::Enter => {
            return Some(vec![13]);
        },
        NamedKey::Backspace => {
            return Some(vec![0x7f]);
        },
        NamedKey::Tab => {
            return Some(vec![9]);
        },
        NamedKey::Escape => {
            return Some(vec![0x1b]);
        },
        _ => {},
    }
    if alt && !ctrl && !sup {
        if let Some(ch) = c {
            if 0x20 <= (ch as u32) && (ch as u32) <= 0x7e {
                return Some(vec![27, ch as u8]);
            }
        }
    }
    if !ctrl && !sup && !alt {
        if let Key::Character(s) = key {
            return Some(vstd::slice::slice_to_vec(s.as_str().as_bytes()));
        }
    }
    None
}

} // verus!
