use blit::dashboard::{
    apply_input_event, compute_layout, rect_contains, ConnectionSort, DashLists, InputEvent, InputParser,
    MouseInput, MouseKind, Panel, PeerAddr, PeerSort, Rect, UiState,
};

fn addr(n: u128) -> PeerAddr {
    PeerAddr { v6: false, bits: n }
}

#[test]
fn keys_become_events() {
    let mut p = InputParser::new();
    let ev = p.feed(b"q\tlh123kj \r\nsSc?x");
    assert_eq!(
        ev,
        vec![
            InputEvent::Quit,
            InputEvent::NextPanel,
            InputEvent::NextPanel,
            InputEvent::PrevPanel,
            InputEvent::Focus(Panel::Peers),
            InputEvent::Focus(Panel::Connections),
            InputEvent::Focus(Panel::Events),
            InputEvent::Move(-1),
            InputEvent::Move(1),
            InputEvent::Activate,
            InputEvent::Activate,
            InputEvent::Activate,
            InputEvent::CycleSort,
            InputEvent::CycleSort,
            InputEvent::ClearFilter,
            InputEvent::ToggleHelp,
        ]
    );
}

#[test]
fn escape_sequences_and_partial_input() {
    let mut p = InputParser::new();
    assert_eq!(p.feed(b"\x1b[A\x1b[B\x1b[C\x1b[D\x1b[Z\x1bOH\x1bOF"), vec![
        InputEvent::Move(-1),
        InputEvent::Move(1),
        InputEvent::NextPanel,
        InputEvent::PrevPanel,
        InputEvent::PrevPanel,
        InputEvent::Home,
        InputEvent::End,
    ]);
    assert_eq!(p.feed(b"\x1b[5~\x1b[6~\x1b[1~\x1b[4~\x1b[9~j"), vec![
        InputEvent::Page(-1),
        InputEvent::Page(1),
        InputEvent::Home,
        InputEvent::End,
        InputEvent::Move(1),
    ]);
    // A sequence split across reads waits for its end.
    assert_eq!(p.feed(b"k\x1b[<0;5"), vec![InputEvent::Move(-1)]);
    assert_eq!(p.feed(b";3M"), vec![InputEvent::Mouse(MouseInput { row: 2, col: 4, kind: MouseKind::Left })]);
    assert_eq!(p.feed(b"\x1b[<64;1;1M\x1b[<65;2;2m\x1b[<0;1;1m\x1b[<0;0;1M"), vec![
        InputEvent::Mouse(MouseInput { row: 0, col: 0, kind: MouseKind::WheelUp }),
        InputEvent::Mouse(MouseInput { row: 1, col: 1, kind: MouseKind::WheelDown }),
    ]);
    assert_eq!(p.feed(b"\x1b"), vec![]);
    assert_eq!(p.feed(b"x"), vec![]);
    assert_eq!(p.feed(b"\x1bq"), vec![InputEvent::Quit]);
}

#[test]
fn layouts() {
    assert!(compute_layout(13, 80).is_none());
    assert!(compute_layout(40, 71).is_none());
    let l = compute_layout(40, 120).unwrap();
    assert_eq!(l.banner_rows, 5);
    assert_eq!(l.events_rect, Rect { row: 31, col: 0, rows: 9, cols: 120 });
    assert_eq!(l.peers_rect, Rect { row: 6, col: 0, rows: 24, cols: 43 });
    assert_eq!(l.connections_rect, Rect { row: 6, col: 44, rows: 24, cols: 76 });
    let n = compute_layout(20, 80).unwrap();
    assert_eq!(n.events_rect, Rect { row: 11, col: 0, rows: 9, cols: 80 });
    assert_eq!(n.peers_rect, Rect { row: 6, col: 0, rows: 2, cols: 80 });
    assert_eq!(n.connections_rect, Rect { row: 9, col: 0, rows: 1, cols: 80 });
    let s = compute_layout(14, 72).unwrap();
    assert_eq!(s.events_rect, Rect { row: 8, col: 0, rows: 6, cols: 72 });
    assert!(rect_contains(n.peers_rect, 6, 0));
    assert!(!rect_contains(n.peers_rect, 8, 0));
}

#[test]
fn selection_and_filters() {
    let lists = DashLists {
        peers: vec![addr(1), addr(2)],
        connections: vec![addr(1), addr(2), addr(1), addr(1)],
        events: 30,
    };
    let ui = UiState::initial();
    assert_eq!(ui.focus, Panel::Connections);
    let (ui, c) = apply_input_event(ui, &lists, 40, 120, InputEvent::End);
    assert!(c);
    assert_eq!(ui.connection_selected, 3);
    let (ui, _) = apply_input_event(ui, &lists, 40, 120, InputEvent::Focus(Panel::Peers));
    let (ui, c) = apply_input_event(ui, &lists, 40, 120, InputEvent::Move(1));
    assert!(c);
    assert_eq!(ui.peer_selected, 1);
    let (ui, c) = apply_input_event(ui, &lists, 40, 120, InputEvent::Move(1));
    assert!(!c);
    let (ui, c) = apply_input_event(ui, &lists, 40, 120, InputEvent::Activate);
    assert!(c);
    assert_eq!(ui.peer_filter, Some(addr(2)));
    assert_eq!(ui.focus, Panel::Connections);
    assert_eq!(ui.connection_selected, 0);
    let (ui, c) = apply_input_event(ui, &lists, 40, 120, InputEvent::End);
    assert!(!c);
    assert_eq!(ui.connection_selected, 0);
    let (ui, c) = apply_input_event(ui, &lists, 40, 120, InputEvent::CycleSort);
    assert!(c);
    assert_eq!(ui.connection_sort, ConnectionSort::Bytes);
    assert_eq!(ui.peer_sort, PeerSort::Packets);
    let (ui, c) = apply_input_event(ui, &lists, 40, 120, InputEvent::ClearFilter);
    assert!(c);
    assert_eq!(ui.peer_filter, None);
    let (ui2, c) = apply_input_event(ui, &lists, 40, 120, InputEvent::Quit);
    assert!(!c);
    assert_eq!(ui2, ui);
}

#[test]
fn event_log_and_mouse() {
    let lists = DashLists { peers: vec![addr(1), addr(2), addr(3)], connections: vec![], events: 30 };
    let mut ui = UiState::initial();
    ui.focus = Panel::Events;
    // 30 events, 9 log rows: the oldest offset is 22.
    let (ui, c) = apply_input_event(ui, &lists, 40, 120, InputEvent::Home);
    assert!(c);
    assert_eq!(ui.event_offset, 22);
    let (ui, _) = apply_input_event(ui, &lists, 40, 120, InputEvent::Move(1));
    assert_eq!(ui.event_offset, 21);
    let (ui, _) = apply_input_event(ui, &lists, 40, 120, InputEvent::Page(1));
    assert_eq!(ui.event_offset, 13);
    let click = InputEvent::Mouse(MouseInput { row: 9, col: 3, kind: MouseKind::Left });
    let (ui, c) = apply_input_event(ui, &lists, 40, 120, click);
    assert!(c);
    assert_eq!(ui.focus, Panel::Peers);
    assert_eq!(ui.peer_selected, 1);
    let wheel = InputEvent::Mouse(MouseInput { row: 35, col: 3, kind: MouseKind::WheelUp });
    let (ui, c) = apply_input_event(ui, &lists, 40, 120, wheel);
    assert!(c);
    assert_eq!(ui.focus, Panel::Events);
    assert_eq!(ui.event_offset, 16);
    let (ui, _) = apply_input_event(ui, &lists, 40, 120, InputEvent::ToggleHelp);
    assert!(ui.show_help);
}

#[test]
fn input_in_any_pieces_gives_the_same_events() {
    let input: &[u8] = b"j\x1b[A\x1b[<0;5;3M\x1b[5~\x1bOHq\x1b[";
    let mut whole = InputParser::new();
    let all = whole.feed(input);
    for cut in 0..=input.len() {
        let mut p = InputParser::new();
        let mut ev = p.feed(&input[..cut]);
        ev.extend(p.feed(&input[cut..]));
        assert_eq!(ev, all, "cut at {cut}");
    }
    // The unfinished sequence at the end is kept for the next read.
    assert_eq!(whole.feed(b"B"), vec![InputEvent::Move(1)]);
}
