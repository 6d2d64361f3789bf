use blit::bsp::{assign_sessions, Direction, Pane};
use blit::session::SessionKey;

fn key(r: &str, p: u16) -> SessionKey {
    SessionKey { remote: r.to_string(), pty_id: p }
}

fn pane(id: &str, command: Option<&str>) -> Pane {
    Pane { id: id.to_string(), tag: "t".to_string(), command: command.map(|c| c.to_string()) }
}

#[test]
fn sessions_go_to_panes_in_preference_order() {
    let panes = vec![pane("0", None), pane("1", Some("htop")), pane("2", None), pane("3", None), pane("4", None)];
    let live = vec![key("a", 1), key("a", 2), key("b", 7)];
    let focused = key("b", 7);
    let lru = vec![key("a", 2)];
    let got = assign_sessions(&panes, &live, Some(&focused), &lru);
    let ids: Vec<&str> = got.iter().map(|(id, _)| id.as_str()).collect();
    assert_eq!(ids, vec!["0", "1", "2", "3", "4"]);
    assert_eq!(got[0].1, Some(key("b", 7)));
    assert_eq!(got[1].1, None);
    assert_eq!(got[2].1, Some(key("a", 2)));
    assert_eq!(got[3].1, Some(key("a", 1)));
    assert_eq!(got[4].1, None);
}

#[test]
fn no_candidates_no_sessions() {
    let panes = vec![pane("0", None)];
    let got = assign_sessions(&panes, &[], None, &[]);
    assert_eq!(got.len(), 1);
    assert_eq!(got[0].1, None);
    assert!(assign_sessions(&[], &[key("a", 1)], None, &[]).is_empty());
    assert_ne!(Direction::Tabs, Direction::Vertical);
}
