use blit::book::{BookCommand, SessionBook};
use blit::session::SessionKey;

fn key(remote: &str, id: u16) -> SessionKey {
    SessionKey { remote: remote.to_string(), pty_id: id }
}

#[test]
fn a_session_list_focuses_the_first_and_subscribes_new_ones() {
    let mut b = SessionBook::new();
    let cmds = b.on_session_list("box", &[3, 5, 3], (24, 80));
    assert_eq!(
        cmds,
        vec![
            BookCommand::Subscribe(3),
            BookCommand::Focus(3),
            BookCommand::Resize { pty_id: 3, rows: 24, cols: 80 },
            BookCommand::Subscribe(5),
        ]
    );
    assert_eq!(b.sessions, vec![key("box", 3), key("box", 5)]);
    assert_eq!(b.focused, Some(key("box", 3)));
    assert!(b.lru.is_empty());
    let again = b.on_session_list("box", &[5, 7], (24, 80));
    assert_eq!(again, vec![BookCommand::Subscribe(7)]);
    assert_eq!(b.sessions.len(), 3);
}

#[test]
fn created_sessions_take_the_focus() {
    let mut b = SessionBook::new();
    b.on_created("a", 1, (10, 20));
    let cmds = b.on_created("b", 2, (10, 20));
    assert_eq!(
        cmds,
        vec![BookCommand::Subscribe(2), BookCommand::Focus(2), BookCommand::Resize { pty_id: 2, rows: 10, cols: 20 }]
    );
    assert_eq!(b.focused, Some(key("b", 2)));
    assert_eq!(b.lru, vec![key("b", 2), key("a", 1)]);
    b.push_lru(&key("a", 1));
    assert_eq!(b.lru, vec![key("a", 1), key("b", 2)]);
}

#[test]
fn closing_the_focused_session_moves_the_focus() {
    let mut b = SessionBook::new();
    b.on_created("a", 1, (10, 20));
    b.on_created("a", 2, (10, 20));
    b.on_created("a", 3, (10, 20));
    b.push_lru(&key("a", 1));
    b.on_closed("a", 3);
    assert_eq!(b.focused, Some(key("a", 1)));
    assert_eq!(b.lru, vec![key("a", 1), key("a", 2)]);
    assert_eq!(b.sessions, vec![key("a", 1), key("a", 2)]);
    b.on_closed("a", 2);
    assert_eq!(b.focused, Some(key("a", 1)));
    b.on_closed("a", 1);
    assert_eq!(b.focused, None);
    assert!(b.sessions.is_empty());
    b.on_closed("a", 9);
    assert!(b.lru.is_empty());
}
