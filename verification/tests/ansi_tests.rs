use blit::ansi::{
    emit_color, pack_color, push_u16, sparkline, tcp_state_name, truncate_end, AnsiRenderer,
};

fn cell(f0: u8, f1: u8, fg: [u8; 3], bg: [u8; 3], content: &[u8]) -> Vec<u8> {
    let mut c = vec![f0, f1 | ((content.len() as u8) << 3), fg[0], fg[1], fg[2], bg[0], bg[1], bg[2]];
    let mut text = content.to_vec();
    text.resize(4, 0);
    c.extend_from_slice(&text);
    c
}

#[test]
fn first_frame_clears_and_draws() {
    let mut r = AnsiRenderer::new();
    let mut cells = cell(0, 0, [0; 3], [0; 3], b"a");
    cells.extend(cell(0, 0, [0; 3], [0; 3], b"b"));
    let mut out = Vec::new();
    r.render(1, 2, &cells, &mut out);
    assert_eq!(out, b"\x1b[2J\x1b[1;1H\x1b[0m\x1b[39m\x1b[49mab\x1b[?25l".to_vec());
    assert_eq!(r.prev_cells, cells);
    assert_eq!((r.cur_row, r.cur_col), (0, 2));

    // The same frame again writes nothing but the cursor hiding.
    let mut out = Vec::new();
    r.render(1, 2, &cells, &mut out);
    assert_eq!(out, b"\x1b[?25l".to_vec());

    // One changed cell: moved to, reset, bold, RGB foreground.
    let mut cells2 = cell(0, 0, [0; 3], [0; 3], b"a");
    cells2.extend(cell(0x12, 0, [255, 0, 0], [0; 3], b"c"));
    let mut out = Vec::new();
    r.render(1, 2, &cells2, &mut out);
    assert_eq!(
        out,
        b"\x1b[1;2H\x1b[0m\x1b[1m\x1b[38;2;255;0;0m\x1b[49mc\x1b[?25l".to_vec()
    );
}

#[test]
fn wide_continuation_and_invalid_content() {
    let mut r = AnsiRenderer::new();
    let mut cells = cell(0, 2, [0; 3], [0; 3], "世".as_bytes());
    cells.extend(cell(0, 4, [0; 3], [0; 3], b""));
    cells.extend(cell(0, 0, [0; 3], [0; 3], &[0xff]));
    let mut out = Vec::new();
    r.render(1, 3, &cells, &mut out);
    let mut want = b"\x1b[2J\x1b[1;1H\x1b[0m\x1b[39m\x1b[49m".to_vec();
    want.extend_from_slice("世".as_bytes());
    // The wide cell moved the cursor by two: its continuation needs a move
    // back, after which the cursor is in place for the last cell.
    want.extend_from_slice(b"\x1b[1;2H ?\x1b[?25l");
    assert_eq!(out, want);
}

#[test]
fn colors_and_numbers() {
    assert_eq!(pack_color(2, 255, 0, 0), 0x02ff_0000);
    let mut out = Vec::new();
    emit_color(pack_color(1, 196, 0, 0), true, &mut out);
    emit_color(pack_color(2, 1, 2, 3), false, &mut out);
    emit_color(pack_color(0, 9, 9, 9), false, &mut out);
    emit_color(pack_color(3, 9, 9, 9), true, &mut out);
    assert_eq!(out, b"\x1b[38;5;196m\x1b[48;2;1;2;3m\x1b[49m\x1b[39m".to_vec());
    let mut n = Vec::new();
    push_u16(&mut n, 0);
    push_u16(&mut n, 65535);
    assert_eq!(n, b"065535".to_vec());
}

#[test]
fn sparkline_levels() {
    assert_eq!(sparkline(&[1, 2, 3, 4], 4), "▂▄▆█");
    assert_eq!(sparkline(&[1, 2, 3, 4], 6), "  ▂▄▆█");
    assert_eq!(sparkline(&[1, 2, 3, 4], 2), "▆█");
    assert_eq!(sparkline(&[0, 0], 3), "   ");
    assert_eq!(sparkline(&[5], 0), "");
}

#[test]
fn truncate_and_pad() {
    assert_eq!(truncate_end("abc", 5), "abc  ");
    assert_eq!(truncate_end("abcdef", 4), "abc~");
    assert_eq!(truncate_end("abcdef", 1), ".");
    assert_eq!(truncate_end("abc", 0), "");
    assert_eq!(truncate_end("héllo", 3), "hé~");
}

#[test]
fn tcp_states() {
    assert_eq!(tcp_state_name(1), "ESTAB");
    assert_eq!(tcp_state_name(10), "LISTN");
    assert_eq!(tcp_state_name(11), "CLSG");
    assert_eq!(tcp_state_name(0), "OTHER");
}
