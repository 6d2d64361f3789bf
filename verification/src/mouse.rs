//! What the desktop client reports to a terminal that tracks the mouse,
//! and how the wheel scrolls a terminal that does not. The pointer's cell
//! comes from the window's pixel geometry, which stays with the caller.
use vstd::prelude::*;

verus! {

/// A mouse report for the focused terminal: the event kind (0 press,
/// 1 release, 2 motion), the button code, and the cell.
#[derive(Clone, Copy, Debug, PartialEq, Eq, Structural)]
pub struct MouseReport {
    pub kind: u8,
    pub button: u8,
    pub col: u16,
    pub row: u16,
}

/// A mouse button as the window reports it.
#[derive(Clone, Copy, Debug, PartialEq, Eq, Structural)]
pub enum MouseButton {
    Left,
    Middle,
    Right,
    Other,
}

/// The report a pointer move makes: a drag while a button is held when the
/// terminal tracks button motion (mode 3 or more), the held button's code
/// plus 32; any motion (code 35) when it tracks all motion (mode 4 or
/// more); nothing otherwise or off the grid. `buttons` is the held button
/// plus one, zero for none.
pub fn motion_report(mouse_mode: u8, buttons: u8, cell: Option<(u16, u16)>) -> (r: Option<MouseReport>)
    requires
        mouse_mode >= 3 && buttons > 0 ==> buttons <= 224,
    ensures
        r == (if mouse_mode >= 3 && buttons > 0 {
            match cell {
                Some((row, col)) => Some(MouseReport { kind: 2, button: (buttons - 1 + 32) as u8, col, row }),
                None => None,
            }
        } else if mouse_mode >= 4 {
            match cell {
                Some((row, col)) => Some(MouseReport { kind: 2, button: 35, col, row }),
                None => None,
            }
        } else {
            None
        }),
{
    if mouse_mode >= 3 && buttons > 0 {
        match cell {
            Some((row, col)) => Some(MouseReport { kind: 2, button: (buttons - 1) + 32, col, row }),
            None => None,
        }
    } else if mouse_mode >= 4 {
        match cell {
            Some((row, col)) => Some(MouseReport { kind: 2, button: 35, col, row }),
            None => None,
        }
    } else {
        None
    }
}

/// The code of a button the terminal hears of.
pub open spec fn button_code(b: MouseButton) -> Option<u8> {
    match b {
        MouseButton::Left => Some(0u8),
        MouseButton::Middle => Some(1u8),
        MouseButton::Right => Some(2u8),
        MouseButton::Other => None,
    }
}

/// A press or release of a button: with an overlay open, with the terminal
/// not tracking the mouse (mode 0), for another button or off the grid,
/// nothing happens. A press holds the button and reports it; a release lets
/// go and reports it when the terminal wants releases (mode 2 or more).
/// Returns the held button (plus one, zero for none) and the report.
pub fn button_report(
    overlay_open: bool,
    mouse_mode: u8,
    button: MouseButton,
    pressed: bool,
    cell: Option<(u16, u16)>,
    buttons: u8,
) -> (r: (u8, Option<MouseReport>))
    ensures
        r == (if overlay_open || mouse_mode == 0 {
            (buttons, None)
        } else {
            match (button_code(button), cell) {
                (Some(b), Some((row, col))) => if pressed {
                    ((b + 1) as u8, Some(MouseReport { kind: 0, button: b, col, row }))
                } else if mouse_mode >= 2 {
                    (0u8, Some(MouseReport { kind: 1, button: b, col, row }))
                } else {
                    (0u8, None)
                },
                _ => (buttons, None),
            }
        }),
{
    if overlay_open || mouse_mode == 0 {
        return (buttons, None);
    }
    let b: u8 = match button {
        MouseButton::Left => 0,
        MouseButton::Middle => 1,
        MouseButton::Right => 2,
        MouseButton::Other => {
            return (buttons, None);
        },
    };
    match cell {
        Some((row, col)) => {
            if pressed {
                (b + 1, Some(MouseReport { kind: 0, button: b, col, row }))
            } else if mouse_mode >= 2 {
                (0, Some(MouseReport { kind: 1, button: b, col, row }))
            } else {
                (0, None)
            }
        },
        None => (buttons, None),
    }
}

/// The reports of a wheel turn for a terminal that tracks the mouse: one
/// press of button 64 (up) or 65 (down) per tick, five at most, nothing off
/// the grid.
pub fn wheel_reports(up: bool, ticks: u32, cell: Option<(u16, u16)>) -> (r: Vec<MouseReport>)
    ensures
        cell is None ==> r@.len() == 0,
        cell matches Some((row, col)) ==> r@.len() == (if ticks < 5 {
            ticks as int
        } else {
            5
        }) && forall|i: int|
            0 <= i < r@.len() ==> #[trigger] r@[i] == (MouseReport {
                kind: 0,
                button: if up {
                    64u8
                } else {
                    65u8
                },
                col,
                row,
            }),
{
    let mut out: Vec<MouseReport> = Vec::new();
    match cell {
        None => out,
        Some((row, col)) => {
            let button: u8 = if up {
                64
            } else {
                65
            };
            let n = if ticks < 5 {
                ticks
            } else {
                5
            };
            let mut i: u32 = 0;
            while i < n
                invariant
                    i <= n,
                    out@.len() == i,
                    forall|k: int| 0 <= k < i ==> #[trigger] out@[k] == (MouseReport { kind: 0, button, col, row }),
                decreases n - i,
            {
                out.push(MouseReport { kind: 0, button, col, row });
                i += 1;
            }
            out
        },
    }
}

/// The scroll offset after a wheel turn of `lines` lines over a terminal
/// that does not track the mouse: up scrolls back, no further than the
/// scrollback it holds; down scrolls toward the live screen, no further
/// than it.
pub fn wheel_scroll(offset: u32, lines: u32, up: bool, scrollback: u32) -> (r: u32)
    requires
        up ==> offset + lines <= u32::MAX,
    ensures
        r == (if up {
            if offset + lines < scrollback {
                (offset + lines) as u32
            } else {
                scrollback
            }
        } else {
            offset.saturating_sub(lines)
        }),
{
    if up {
        let n = offset + lines;
        if n < scrollback {
            n
        } else {
            scrollback
        }
    } else {
        offset.saturating_sub(lines)
    }
}

} // verus!
