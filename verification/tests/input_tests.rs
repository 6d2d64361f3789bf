use blit::input::{check_app_keybinding, key_to_bytes, AppAction, Key, Modifiers, NamedKey, PhysicalKey};

fn mods(ctrl: bool, alt: bool, shift: bool, super_key: bool) -> Modifiers {
    Modifiers { ctrl, alt, shift, super_key }
}

const NONE: Modifiers = Modifiers { ctrl: false, alt: false, shift: false, super_key: false };

fn ch(s: &str) -> Key {
    Key::Character(s.to_string())
}

#[test]
fn ctrl_letters_send_control_characters() {
    let m = mods(true, false, false, false);
    assert_eq!(key_to_bytes(&ch("c"), &PhysicalKey::Letter(2), &m, false), Some(vec![3]));
    assert_eq!(key_to_bytes(&ch("a"), &PhysicalKey::Letter(0), &m, false), Some(vec![1]));
    assert_eq!(key_to_bytes(&ch("z"), &PhysicalKey::Letter(25), &m, false), Some(vec![26]));
    assert_eq!(key_to_bytes(&ch("["), &PhysicalKey::BracketLeft, &m, false), Some(vec![0x1b]));
    assert_eq!(key_to_bytes(&ch("\\"), &PhysicalKey::Backslash, &m, false), Some(vec![0x1c]));
    assert_eq!(key_to_bytes(&ch("]"), &PhysicalKey::BracketRight, &m, false), Some(vec![0x1d]));
    let cs = mods(true, false, true, false);
    assert_eq!(key_to_bytes(&ch("?"), &PhysicalKey::Other, &cs, false), Some(vec![0x7f]));
    assert_eq!(key_to_bytes(&ch("@"), &PhysicalKey::Other, &cs, false), Some(vec![0]));
    assert_eq!(key_to_bytes(&ch(" "), &PhysicalKey::Other, &cs, false), Some(vec![0]));
}

#[test]
fn cursor_keys() {
    let up = Key::Named(NamedKey::ArrowUp);
    assert_eq!(key_to_bytes(&up, &PhysicalKey::Other, &NONE, false), Some(b"\x1b[A".to_vec()));
    assert_eq!(key_to_bytes(&up, &PhysicalKey::Other, &NONE, true), Some(b"\x1bOA".to_vec()));
    let left = Key::Named(NamedKey::ArrowLeft);
    assert_eq!(
        key_to_bytes(&left, &PhysicalKey::Other, &mods(true, false, true, false), true),
        Some(b"\x1b[1;6D".to_vec())
    );
    assert_eq!(
        key_to_bytes(&left, &PhysicalKey::Other, &mods(true, true, true, true), false),
        Some(b"\x1b[1;16D".to_vec())
    );
}

#[test]
fn editing_and_function_keys() {
    let pgup = Key::Named(NamedKey::PageUp);
    assert_eq!(key_to_bytes(&pgup, &PhysicalKey::Other, &NONE, false), Some(b"\x1b[5~".to_vec()));
    assert_eq!(
        key_to_bytes(&pgup, &PhysicalKey::Other, &mods(false, false, true, false), false),
        Some(b"\x1b[5;2~".to_vec())
    );
    let home = Key::Named(NamedKey::Home);
    assert_eq!(key_to_bytes(&home, &PhysicalKey::Other, &NONE, false), Some(b"\x1b[H".to_vec()));
    assert_eq!(
        key_to_bytes(&Key::Named(NamedKey::End), &PhysicalKey::Other, &mods(false, true, false, false), false),
        Some(b"\x1b[1;3F".to_vec())
    );
    assert_eq!(key_to_bytes(&Key::Named(NamedKey::F1), &PhysicalKey::Other, &NONE, false), Some(b"\x1bOP".to_vec()));
    assert_eq!(
        key_to_bytes(&Key::Named(NamedKey::F4), &PhysicalKey::Other, &mods(true, false, false, false), false),
        Some(b"\x1b[1;5S".to_vec())
    );
    assert_eq!(key_to_bytes(&Key::Named(NamedKey::F5), &PhysicalKey::Other, &NONE, false), Some(b"\x1b[15~".to_vec()));
    assert_eq!(
        key_to_bytes(&Key::Named(NamedKey::F12), &PhysicalKey::Other, &mods(false, false, true, false), false),
        Some(b"\x1b[24;2~".to_vec())
    );
}

#[test]
fn simple_keys_and_text() {
    assert_eq!(key_to_bytes(&Key::Named(NamedKey::Enter), &PhysicalKey::Other, &NONE, false), Some(b"\r".to_vec()));
    assert_eq!(key_to_bytes(&Key::Named(NamedKey::Backspace), &PhysicalKey::Other, &NONE, false), Some(vec![0x7f]));
    assert_eq!(key_to_bytes(&Key::Named(NamedKey::Tab), &PhysicalKey::Other, &NONE, false), Some(b"\t".to_vec()));
    assert_eq!(key_to_bytes(&Key::Named(NamedKey::Escape), &PhysicalKey::Other, &NONE, false), Some(vec![0x1b]));
    assert_eq!(key_to_bytes(&ch("é"), &PhysicalKey::Other, &NONE, false), Some("é".as_bytes().to_vec()));
    assert_eq!(
        key_to_bytes(&ch("x"), &PhysicalKey::Letter(23), &mods(false, true, false, false), false),
        Some(b"\x1bx".to_vec())
    );
    assert_eq!(key_to_bytes(&ch("é"), &PhysicalKey::Other, &mods(false, true, false, false), false), None);
    assert_eq!(key_to_bytes(&ch("x"), &PhysicalKey::Letter(23), &mods(false, false, false, true), false), None);
    assert_eq!(key_to_bytes(&Key::Unidentified, &PhysicalKey::Other, &NONE, false), None);
}

#[test]
fn application_bindings() {
    let ctrl = mods(true, false, false, false);
    let ctrl_shift = mods(true, false, true, false);
    let super_shift = mods(false, false, true, true);
    let shift = mods(false, false, true, false);
    assert_eq!(
        check_app_keybinding(&ch("k"), &PhysicalKey::Letter(10), &ctrl, true),
        Some(AppAction::ToggleSwitcher)
    );
    assert_eq!(check_app_keybinding(&ch("k"), &PhysicalKey::Letter(10), &ctrl, false), None);
    assert_eq!(
        check_app_keybinding(&ch("?"), &PhysicalKey::Other, &ctrl_shift, true),
        Some(AppAction::ToggleHelp)
    );
    assert_eq!(
        check_app_keybinding(&Key::Named(NamedKey::Enter), &PhysicalKey::Other, &super_shift, true),
        Some(AppAction::NewTerminal)
    );
    assert_eq!(
        check_app_keybinding(&ch("W"), &PhysicalKey::Letter(22), &ctrl_shift, true),
        Some(AppAction::CloseSession)
    );
    assert_eq!(
        check_app_keybinding(&ch("}"), &PhysicalKey::BracketRight, &ctrl_shift, true),
        Some(AppAction::CycleSessionNext)
    );
    assert_eq!(
        check_app_keybinding(&ch("]"), &PhysicalKey::BracketRight, &ctrl, true),
        Some(AppAction::CyclePaneNext)
    );
    assert_eq!(
        check_app_keybinding(&Key::Named(NamedKey::PageUp), &PhysicalKey::Other, &shift, true),
        Some(AppAction::ScrollPageUp)
    );
    assert_eq!(
        check_app_keybinding(&Key::Named(NamedKey::End), &PhysicalKey::Other, &shift, true),
        Some(AppAction::ScrollToBottom)
    );
    assert_eq!(
        check_app_keybinding(&Key::Named(NamedKey::Escape), &PhysicalKey::Other, &NONE, true),
        Some(AppAction::CloseOverlay)
    );
    assert_eq!(check_app_keybinding(&ch("a"), &PhysicalKey::Letter(0), &NONE, true), None);
}
