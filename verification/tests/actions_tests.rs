use blit::actions::{decide_action, OverlayTag, ScrollState, SessionCommand};
use blit::input::AppAction;
use blit::session::SessionKey;

fn key(r: &str, p: u16) -> SessionKey {
    SessionKey { remote: r.to_string(), pty_id: p }
}

#[test]
fn overlays_toggle_and_close() {
    let o = decide_action(AppAction::ToggleSwitcher, None, None, &[], None, (24, 80), None);
    assert_eq!(o.overlay, Some(OverlayTag::Switcher));
    let o = decide_action(AppAction::ToggleSwitcher, Some(OverlayTag::Switcher), None, &[], None, (24, 80), None);
    assert_eq!(o.overlay, None);
    let o = decide_action(AppAction::ToggleSwitcher, Some(OverlayTag::Help), None, &[], None, (24, 80), None);
    assert_eq!(o.overlay, Some(OverlayTag::Switcher));
    let o = decide_action(AppAction::ToggleHelp, Some(OverlayTag::Help), None, &[], None, (24, 80), None);
    assert_eq!(o.overlay, None);
    let o = decide_action(AppAction::CloseOverlay, Some(OverlayTag::Other), None, &[], None, (24, 80), None);
    assert_eq!(o.overlay, None);
    assert!(o.send.is_none() && o.redraw);
}

#[test]
fn new_terminal_goes_to_focused_remote_or_first() {
    let f = key("box", 3);
    let o = decide_action(AppAction::NewTerminal, None, Some(&f), &[], Some("other"), (30, 100), None);
    assert_eq!(o.send, Some(("box".to_string(), SessionCommand::Create { rows: 30, cols: 100 })));
    let o = decide_action(AppAction::NewTerminal, None, None, &[], Some("other"), (30, 100), None);
    assert_eq!(o.send, Some(("other".to_string(), SessionCommand::Create { rows: 30, cols: 100 })));
    let o = decide_action(AppAction::NewTerminal, None, None, &[], None, (30, 100), None);
    assert_eq!(o.send, None);
    let o = decide_action(AppAction::CloseSession, None, Some(&f), &[], None, (30, 100), None);
    assert_eq!(o.send, Some(("box".to_string(), SessionCommand::Close(3))));
}

#[test]
fn cycling_sessions() {
    let keys = vec![key("a", 1), key("a", 2), key("b", 1)];
    let o = decide_action(AppAction::CycleSessionNext, None, Some(&keys[2]), &keys, None, (24, 80), None);
    assert_eq!(o.focus, Some(key("a", 1)));
    assert_eq!(o.send, Some(("a".to_string(), SessionCommand::Focus(1))));
    let o = decide_action(AppAction::CycleSessionPrev, None, Some(&keys[0]), &keys, None, (24, 80), None);
    assert_eq!(o.focus, Some(key("b", 1)));
    let o = decide_action(AppAction::CycleSessionNext, None, None, &keys, None, (24, 80), None);
    assert_eq!(o.focus, Some(key("a", 2)));
    let o = decide_action(AppAction::CycleSessionNext, None, Some(&key("z", 9)), &keys, None, (24, 80), None);
    assert_eq!(o.focus, Some(key("a", 2)));
    let o = decide_action(AppAction::CycleSessionNext, None, None, &[], None, (24, 80), None);
    assert!(o.focus.is_none() && !o.redraw);
}

#[test]
fn scrolling() {
    let f = key("a", 7);
    let s = ScrollState { offset: 90, rows: 24, scrollback: 100 };
    let o = decide_action(AppAction::ScrollPageUp, None, Some(&f), &[], None, (24, 80), Some(s));
    assert_eq!(o.scroll, Some(100));
    assert_eq!(o.send, Some(("a".to_string(), SessionCommand::Scroll { pty_id: 7, offset: 100 })));
    let s = ScrollState { offset: 10, rows: 24, scrollback: 100 };
    let o = decide_action(AppAction::ScrollPageUp, None, Some(&f), &[], None, (24, 80), Some(s));
    assert_eq!(o.scroll, Some(34));
    let o = decide_action(AppAction::ScrollPageDown, None, Some(&f), &[], None, (24, 80), Some(s));
    assert_eq!(o.scroll, Some(0));
    let o = decide_action(AppAction::ScrollToTop, None, Some(&f), &[], None, (24, 80), Some(s));
    assert_eq!(o.scroll, Some(100));
    let o = decide_action(AppAction::ScrollToBottom, None, Some(&f), &[], None, (24, 80), Some(s));
    assert_eq!(o.scroll, Some(0));
    let o = decide_action(AppAction::ScrollToBottom, None, None, &[], None, (24, 80), Some(s));
    assert_eq!(o.scroll, None);
    assert_eq!(o.send, None);
}
