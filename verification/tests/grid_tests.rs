use blit::grid::{color_css, idx_to_rgb, CellColor, PaintOp, TerminalGrid};

/// A frame update: header, bitmask, then the changed cells column by column.
fn payload(rows: u16, cols: u16, cur: (u16, u16), mode: u16, cells: &[(usize, [u8; 12])]) -> Vec<u8> {
    let total = rows as usize * cols as usize;
    let mut p = Vec::new();
    for v in [rows, cols, cur.0, cur.1, mode] {
        p.extend_from_slice(&v.to_le_bytes());
    }
    let mut mask = vec![0u8; (total + 7) / 8];
    let mut sorted: Vec<(usize, [u8; 12])> = cells.to_vec();
    sorted.sort_by_key(|c| c.0);
    for (i, _) in &sorted {
        mask[i / 8] |= 1 << (i % 8);
    }
    p.extend_from_slice(&mask);
    for b in 0..12 {
        for (_, c) in &sorted {
            p.push(c[b]);
        }
    }
    p
}

fn text_cell(s: &str) -> [u8; 12] {
    let mut c = [0u8; 12];
    let bytes = s.as_bytes();
    c[1] = (bytes.len() as u8) << 3;
    c[8..8 + bytes.len()].copy_from_slice(bytes);
    c
}

#[test]
fn palette_colours() {
    assert_eq!(idx_to_rgb(1), (170, 0, 0));
    assert_eq!(idx_to_rgb(15), (255, 255, 255));
    assert_eq!(idx_to_rgb(16), (0, 0, 0));
    assert_eq!(idx_to_rgb(196), (255, 0, 0));
    assert_eq!(idx_to_rgb(231), (255, 255, 255));
    assert_eq!(idx_to_rgb(232), (8, 8, 8));
    assert_eq!(idx_to_rgb(255), (238, 238, 238));
}

#[test]
fn cell_colours_and_css() {
    let d = CellColor::resolve(0, 0, 0, 0, true, false);
    assert_eq!(d.to_css(), "#ccc");
    assert_eq!(CellColor::resolve(0, 0, 0, 0, false, false).to_css(), "#000");
    assert_eq!(CellColor::resolve(0, 0, 0, 0, true, true).to_css(), "rgb(102,102,102)");
    assert_eq!(CellColor::resolve(1, 9, 0, 0, true, false).to_css(), "rgb(255,85,85)");
    assert_eq!(CellColor::resolve(2, 10, 20, 31, true, true).to_css(), "rgb(5,10,15)");
    assert_eq!(CellColor::resolve(3, 1, 2, 3, false, false).to_css(), "#000");
    assert_eq!(d.pack(), 0x01cc_cccc);
    assert_eq!(CellColor::resolve(2, 1, 2, 3, true, false).pack(), 0x0001_0203);
    assert_eq!(color_css(0, 0, 0, 0, "#ccc", true), "rgb(102,102,102)");
    assert_eq!(color_css(0, 0, 0, 0, "#000", true), "rgb(0,0,0)");
    assert_eq!(color_css(0, 0, 0, 0, "#000", false), "#000");
    assert_eq!(color_css(1, 4, 0, 0, "#ccc", false), "rgb(0,0,170)");
    assert_eq!(color_css(2, 200, 100, 7, "#ccc", true), "rgb(100,50,3)");
    assert_eq!(color_css(3, 200, 100, 7, "#ccc", true), "#ccc");
}

#[test]
fn frame_updates_and_modes() {
    let mut t = TerminalGrid::new(2, 3);
    assert_eq!(t.size(), (2, 3));
    let p = payload(2, 3, (1, 2), 2 | 8 | (3 << 4) | (1 << 7) | (1 << 9), &[(0, text_cell("h")), (1, text_cell("i")), (4, text_cell("<"))]);
    t.apply_payload(&p);
    assert_eq!((t.cursor_row(), t.cursor_col()), (1, 2));
    assert!(t.app_cursor());
    assert!(t.bracketed_paste());
    assert_eq!(t.mouse_mode(), 3);
    assert_eq!(t.mouse_encoding(), 1);
    assert!(t.echo());
    assert!(!t.icanon());
    assert_eq!(t.get_text(0, 0, 1, 2), "hi\n <");
    assert_eq!(t.get_text(0, 1, 0, 1), "i");
    assert_eq!(t.get_text(5, 0, 9, 9), "");
    assert_eq!(
        t.get_html(1, 0, 1, 2),
        "<pre style=\"font-family:ui-monospace,monospace;background:#000;color:#ccc;padding:4px\"> &lt;</pre>"
    );
}

#[test]
fn styled_html_cells() {
    let mut t = TerminalGrid::new(1, 2);
    let mut bold_red = text_cell("x");
    bold_red[0] = 2 | (1 << 4);
    bold_red[2] = 255;
    let mut inverse = text_cell("&");
    inverse[1] |= 1;
    t.apply_payload(&payload(1, 2, (0, 0), 0, &[(0, bold_red), (1, inverse)]));
    assert_eq!(
        t.get_html(0, 0, 0, 1),
        "<pre style=\"font-family:ui-monospace,monospace;background:#000;color:#ccc;padding:4px\">\
         <span style=\"color:rgb(255,0,0);font-weight:bold;\">x</span>\
         <span style=\"color:#000;background:#ccc;\">&amp;</span></pre>"
    );
}

#[test]
fn resize_short_payloads_and_dirty_marks() {
    let mut t = TerminalGrid::new(1, 1);
    t.apply_payload(&[1, 2, 3]);
    assert_eq!(t.size(), (1, 1));
    // A new size blanks the grid even when the rest of the payload is missing.
    t.apply_payload(&payload(2, 2, (0, 0), 0, &[])[..10]);
    assert_eq!(t.size(), (2, 2));
    assert_eq!(t.cell_bytes().len(), 48);
    assert!(t.cell_bytes().iter().all(|b| *b == 0));
    assert!(t.is_dirty(3));
    assert!(!t.is_dirty(4));
}

#[test]
fn compressed_updates() {
    let mut t = TerminalGrid::new(1, 2);
    let p = payload(1, 2, (0, 1), 0, &[(1, text_cell("z"))]);
    let packed = lz4_flex::compress_prepend_size(&p);
    t.feed_compressed(&packed);
    assert_eq!(t.get_text(0, 0, 0, 1), " z");
    t.feed_compressed(&[1, 2]);
    assert_eq!(t.get_text(0, 0, 0, 1), " z");
    let p2 = payload(1, 2, (0, 0), 0, &[(0, text_cell("a"))]);
    let p3 = payload(1, 2, (0, 0), 0, &[(1, text_cell("b"))]);
    let mut batch = Vec::new();
    for q in [&p2, &p3] {
        let c = lz4_flex::compress_prepend_size(q);
        batch.extend_from_slice(&(c.len() as u32).to_le_bytes());
        batch.extend_from_slice(&c);
    }
    batch.extend_from_slice(&[200, 0, 0, 0, 1]);
    t.feed_compressed_batch(&batch);
    assert_eq!(t.get_text(0, 0, 0, 1), "ab");
}

#[test]
fn repaints_only_what_changed() {
    let black = CellColor { r: 0, g: 0, b: 0, is_default: true };
    let red = CellColor { r: 170, g: 0, b: 0, is_default: false };
    let grey = CellColor { r: 204, g: 204, b: 204, is_default: true };
    let mut t = TerminalGrid::new(1, 3);
    let mut h = text_cell("h");
    h[0] = 1 | 16;
    h[2] = 1;
    t.apply_payload(&payload(1, 3, (0, 0), 1, &[(0, h), (2, text_cell(" "))]));
    let ops = t.render();
    assert_eq!(
        ops,
        vec![
            PaintOp::SetFill(black),
            PaintOp::FillAll,
            PaintOp::Font { bold: false, italic: false },
            PaintOp::SetCursorFill,
            PaintOp::Rect { row: 0, col: 0, wide: false },
            PaintOp::Font { bold: true, italic: false },
            PaintOp::SetFill(red),
            PaintOp::Text { row: 0, col: 0, wide: false, text: "h".to_string(), underline: None },
        ]
    );
    assert!(!t.is_dirty(0));
    assert_eq!(t.render(), vec![PaintOp::Font { bold: false, italic: false }]);

    let mut x = text_cell("x");
    x[0] = 2 << 2;
    x[5] = 1;
    x[6] = 2;
    x[7] = 3;
    t.apply_payload(&payload(1, 3, (0, 2), 1, &[(1, x)]));
    let bg = CellColor { r: 1, g: 2, b: 3, is_default: false };
    assert_eq!(
        t.render(),
        vec![
            PaintOp::Font { bold: false, italic: false },
            PaintOp::SetFill(black),
            PaintOp::Rect { row: 0, col: 0, wide: false },
            PaintOp::Font { bold: true, italic: false },
            PaintOp::SetFill(red),
            PaintOp::Text { row: 0, col: 0, wide: false, text: "h".to_string(), underline: None },
            PaintOp::SetFill(black),
            PaintOp::Rect { row: 0, col: 1, wide: false },
            PaintOp::SetFill(bg),
            PaintOp::Rect { row: 0, col: 1, wide: false },
            PaintOp::Font { bold: false, italic: false },
            PaintOp::SetFill(grey),
            PaintOp::Text { row: 0, col: 1, wide: false, text: "x".to_string(), underline: None },
            PaintOp::SetFill(black),
            PaintOp::Rect { row: 0, col: 2, wide: false },
            PaintOp::SetCursorFill,
            PaintOp::Rect { row: 0, col: 2, wide: false },
        ]
    );
}

#[test]
fn wide_and_underlined_cells_repaint() {
    let mut t = TerminalGrid::new(1, 3);
    let mut w = text_cell("ab");
    w[1] |= 2;
    w[0] = 128;
    let mut cont = [0u8; 12];
    cont[1] = 4;
    t.apply_payload(&payload(1, 3, (0, 0), 0, &[(0, w), (1, cont)]));
    let grey = CellColor { r: 204, g: 204, b: 204, is_default: true };
    let black = CellColor { r: 0, g: 0, b: 0, is_default: true };
    assert_eq!(
        t.render(),
        vec![
            PaintOp::SetFill(black),
            PaintOp::FillAll,
            PaintOp::Font { bold: false, italic: false },
            PaintOp::SetFill(grey),
            PaintOp::Text { row: 0, col: 0, wide: true, text: "ab".to_string(), underline: Some(grey) },
        ]
    );
    t.apply_payload(&payload(1, 3, (0, 0), 0, &[(1, cont)]));
    assert_eq!(
        t.render(),
        vec![
            PaintOp::Font { bold: false, italic: false },
            PaintOp::SetFill(black),
            PaintOp::Rect { row: 0, col: 0, wide: true },
            PaintOp::SetFill(grey),
            PaintOp::Text { row: 0, col: 0, wide: true, text: "ab".to_string(), underline: Some(grey) },
            PaintOp::SetFill(black),
            PaintOp::Rect { row: 0, col: 1, wide: false },
        ]
    );
}
