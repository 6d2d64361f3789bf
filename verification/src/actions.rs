//! What the desktop client does for an application shortcut: which
//! overlay is open afterwards, what it sends to a server, which session
//! it focuses and how far the focused terminal is scrolled.
use vstd::prelude::*;
use crate::input::AppAction;
use crate::session::{key_view, SessionKey};

verus! {

/// The kind of overlay open over the terminals.
#[derive(Clone, Copy, Debug, PartialEq, Eq, Structural)]
pub enum OverlayTag {
    Switcher,
    Help,
    Other,
}

/// The focused terminal's scrolling: the lines scrolled back, its visible
/// rows, and the lines of scrollback it holds.
#[derive(Clone, Copy, Debug, PartialEq, Eq, Structural)]
pub struct ScrollState {
    pub offset: u32,
    pub rows: u16,
    pub scrollback: u32,
}

/// A command to a server about one of its sessions.
#[derive(Clone, Copy, Debug, PartialEq, Eq, Structural)]
pub enum SessionCommand {
    /// A new shell session of this size.
    Create { rows: u16, cols: u16 },
    Close(u16),
    Focus(u16),
    Scroll { pty_id: u16, offset: u32 },
}

/// What an action changes: the overlay afterwards, the command to send
/// and to which remote, the session to focus (it also becomes the most
/// recently used), the focused terminal's new scroll offset, and whether
/// the window is redrawn.
pub struct ActionOutcome {
    pub overlay: Option<OverlayTag>,
    pub send: Option<(String, SessionCommand)>,
    pub focus: Option<SessionKey>,
    pub scroll: Option<u32>,
    pub redraw: bool,
}

/// The model of an outcome.
pub struct OutcomeView {
    pub overlay: Option<OverlayTag>,
    pub send: Option<(Seq<char>, SessionCommand)>,
    pub focus: Option<(Seq<char>, u16)>,
    pub scroll: Option<u32>,
    pub redraw: bool,
}

/// The model of an outcome.
pub open spec fn outcome_view(o: ActionOutcome) -> OutcomeView {
    OutcomeView {
        overlay: o.overlay,
        send: match o.send {
            Some((r, c)) => Some((r@, c)),
            None => None,
        },
        focus: match o.focus {
            Some(k) => Some(key_view(k)),
            None => None,
        },
        scroll: o.scroll,
        redraw: o.redraw,
    }
}

/// The index of the first of `keys` equal to `k`.
pub open spec fn index_of(keys: Seq<(Seq<char>, u16)>, k: (Seq<char>, u16)) -> Option<int>
    decreases keys.len(),
{
    if keys.len() == 0 {
        None
    } else if keys[0] == k {
        Some(0)
    } else {
        match index_of(keys.drop_first(), k) {
            Some(i) => Some(i + 1),
            None => None,
        }
    }
}

/// The new scroll offset for a scrolling action.
pub open spec fn scrolled(action: AppAction, s: ScrollState) -> u32 {
    match action {
        AppAction::ScrollPageUp => if s.offset + s.rows < s.scrollback {
            (s.offset + s.rows) as u32
        } else {
            s.scrollback
        },
        AppAction::ScrollPageDown => if s.offset >= s.rows {
            (s.offset - s.rows) as u32
        } else {
            0
        },
        AppAction::ScrollToTop => s.scrollback,
        _ => 0,
    }
}

/// What an action does, given the overlay open, the focused session, the
/// sessions (in the order the client keeps them), the first connected
/// remote, the size of a new terminal and the focused terminal's
/// scrolling (none when it has no terminal):
/// - the switcher and help toggle their overlay, and Escape closes any;
/// - a new terminal is a shell on the focused session's remote, else on
///   the first remote;
/// - closing closes the focused session;
/// - cycling focuses the session after (or before) the focused one, from
///   the first when none is focused, and needs no redraw when there are
///   no sessions;
/// - scrolling moves the focused terminal a page up (to its scrollback at
///   most) or down (to zero at least), or to its top or bottom, and tells
///   its server.
pub open spec fn action_outcome(
    action: AppAction,
    overlay: Option<OverlayTag>,
    focused: Option<(Seq<char>, u16)>,
    keys: Seq<(Seq<char>, u16)>,
    first_remote: Option<Seq<char>>,
    size: (u16, u16),
    scroll: Option<ScrollState>,
) -> OutcomeView {
    let same = OutcomeView { overlay, send: None, focus: None, scroll: None, redraw: true };
    match action {
        AppAction::ToggleSwitcher => OutcomeView {
            overlay: if overlay == Some(OverlayTag::Switcher) {
                None
            } else {
                Some(OverlayTag::Switcher)
            },
            ..same
        },
        AppAction::ToggleHelp => OutcomeView {
            overlay: if overlay == Some(OverlayTag::Help) {
                None
            } else {
                Some(OverlayTag::Help)
            },
            ..same
        },
        AppAction::CloseOverlay => OutcomeView { overlay: None, ..same },
        AppAction::NewTerminal => {
            let create = SessionCommand::Create { rows: size.0, cols: size.1 };
            OutcomeView {
                send: match focused {
                    Some(f) => Some((f.0, create)),
                    None => match first_remote {
                        Some(r) => Some((r, create)),
                        None => None,
                    },
                },
                ..same
            }
        },
        AppAction::CloseSession => OutcomeView {
            send: match focused {
                Some(f) => Some((f.0, SessionCommand::Close(f.1))),
                None => None,
            },
            ..same
        },
        AppAction::CycleSessionNext | AppAction::CycleSessionPrev => if keys.len() == 0 {
            OutcomeView { redraw: false, ..same }
        } else {
            let cur = match focused {
                Some(f) => match index_of(keys, f) {
                    Some(i) => i,
                    None => 0,
                },
                None => 0,
            };
            let next = if action == AppAction::CycleSessionNext {
                (cur + 1) % (keys.len() as int)
            } else {
                (cur + keys.len() - 1) % (keys.len() as int)
            };
            let k = keys[next];
            OutcomeView { send: Some((k.0, SessionCommand::Focus(k.1))), focus: Some(k), ..same }
        },
        AppAction::ScrollPageUp | AppAction::ScrollPageDown | AppAction::ScrollToTop | AppAction::ScrollToBottom => {
            match (focused, scroll) {
                (Some(f), Some(s)) => {
                    let off = scrolled(action, s);
                    OutcomeView {
                        send: Some((f.0, SessionCommand::Scroll { pty_id: f.1, offset: off })),
                        scroll: Some(off),
                        ..same
                    }
                },
                _ => same,
            }
        },
        AppAction::CyclePaneNext | AppAction::CyclePanePrev => same,
    }
}

/// The views of session keys.
pub open spec fn key_views(keys: Seq<SessionKey>) -> Seq<(Seq<char>, u16)> {
    Seq::new(keys.len(), |i: int| key_view(keys[i]))
}

fn position(keys: &[SessionKey], f: &SessionKey) -> (r: Option<usize>)
    ensures
        match index_of(key_views(keys@), key_view(*f)) {
            Some(i) => r == Some(i as usize),
            None => r is None,
        },
{
    let ghost ks = key_views(keys@);
    assert(ks.subrange(0, ks.len() as int) =~= ks);
    let mut i: usize = 0;
    while i < keys.len()
        invariant
            i <= keys@.len(),
            ks == key_views(keys@),
            index_of(ks, key_view(*f)) == match index_of(ks.subrange(i as int, ks.len() as int), key_view(*f)) {
                Some(j) => Some(j + i),
                None => None::<int>,
            },
        decreases keys.len() - i,
    {
        let ghost rest = ks.subrange(i as int, ks.len() as int);
        assert(rest.drop_first() =~= ks.subrange(i + 1, ks.len() as int));
        if keys[i].same(f) {
            return Some(i);
        }
        i += 1;
    }
    None
}

/// Decides what an application shortcut does.
pub fn decide_action(
    action: AppAction,
    overlay: Option<OverlayTag>,
    focused: Option<&SessionKey>,
    keys: &[SessionKey],
    first_remote: Option<&str>,
    size: (u16, u16),
    scroll: Option<ScrollState>,
) -> (r: ActionOutcome)
    requires
        action is ScrollPageUp && focused is Some && scroll is Some ==> scroll->0.offset + scroll->0.rows
            <= u32::MAX,
    ensures
        outcome_view(r) == action_outcome(
            action,
            overlay,
            match focused {
                Some(k) => Some(key_view(*k)),
                None => None,
            },
            key_views(keys@),
            match first_remote {
                Some(s) => Some(s@),
                None => None,
            },
            size,
            scroll,
        ),
{
    let mut out = ActionOutcome { overlay, send: None, focus: None, scroll: None, redraw: true };
    match action {
        AppAction::ToggleSwitcher => {
            out.overlay = if overlay == Some(OverlayTag::Switcher) {
                None
            } else {
                Some(OverlayTag::Switcher)
            };
        },
        AppAction::ToggleHelp => {
            out.overlay = if overlay == Some(OverlayTag::Help) {
                None
            } else {
                Some(OverlayTag::Help)
            };
        },
        AppAction::CloseOverlay => {
            out.overlay = None;
        },
        AppAction::NewTerminal => {
            let create = SessionCommand::Create { rows: size.0, cols: size.1 };
            match focused {
                Some(f) => {
                    out.send = Some((f.remote.clone(), create));
                },
                None => match first_remote {
                    Some(r) => {
                        out.send = Some((r.to_string(), create));
                    },
                    None => {},
                },
            }
        },
        AppAction::CloseSession => {
            match focused {
                Some(f) => {
                    out.send = Some((f.remote.clone(), SessionCommand::Close(f.pty_id)));
                },
                None => {},
            }
        },
        AppAction::CycleSessionNext | AppAction::CycleSessionPrev => {
            let n = keys.len();
            if n == 0 {
                out.redraw = false;
                return out;
            }
            let cur = match focused {
                Some(f) => match position(keys, f) {
                    Some(i) => i,
                    None => 0,
                },
                None => 0,
            };
            proof {
                if focused is Some {
                    lemma_index_of(key_views(keys@), key_view(*focused->0));
                }
            }
            let next = if action == AppAction::CycleSessionNext {
                (cur + 1) % n
            } else if cur == 0 {
                n - 1
            } else {
                cur - 1
            };
            assert(cur < n);
            assert(action != AppAction::CycleSessionNext ==> next == (cur + n - 1) % (n as int)) by {
                if cur == 0 {
                    assert((n - 1) % (n as int) == n - 1) by (nonlinear_arith)
                        requires
                            n >= 1;
                } else {
                    assert((cur + n - 1) % (n as int) == cur - 1) by (nonlinear_arith)
                        requires
                            1 <= cur < n;
                }
            }
            let k = keys[next].duplicate();
            assert(key_views(keys@)[next as int] == key_view(keys@[next as int]));
            out.send = Some((k.remote.clone(), SessionCommand::Focus(k.pty_id)));
            out.focus = Some(k);
        },
        AppAction::ScrollPageUp | AppAction::ScrollPageDown | AppAction::ScrollToTop | AppAction::ScrollToBottom => {
            match (focused, scroll) {
                (Some(f), Some(s)) => {
                    let off: u32 = match action {
                        AppAction::ScrollPageUp => {
                            let up = s.offset + s.rows as u32;
                            if up < s.scrollback {
                                up
                            } else {
                                s.scrollback
                            }
                        },
                        AppAction::ScrollPageDown => if s.offset >= s.rows as u32 {
                            s.offset - s.rows as u32
                        } else {
                            0
                        },
                        AppAction::ScrollToTop => s.scrollback,
                        _ => 0,
                    };
                    out.send = Some((f.remote.clone(), SessionCommand::Scroll { pty_id: f.pty_id, offset: off }));
                    out.scroll = Some(off);
                },
                _ => {},
            }
        },
        AppAction::CyclePaneNext | AppAction::CyclePanePrev => {},
    }
    out
}

proof fn lemma_index_of(keys: Seq<(Seq<char>, u16)>, k: (Seq<char>, u16))
    ensures
        index_of(keys, k) matches Some(i) ==> 0 <= i < keys.len(),
    decreases keys.len(),
{
    if keys.len() > 0 && keys[0] != k {
        lemma_index_of(keys.drop_first(), k);
    }
}

} // verus!
