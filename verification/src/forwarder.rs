//! The decisions of a consumer of a shared terminal: waiting for the hub's
//! answers, and driving the peer connection once it is set up (when the
//! data channel is ready, what to forward, when to stop).
use vstd::prelude::*;
use crate::text::{append_str, chars_of, chars_eq_str, string_of};

verus! {

/// The largest frame forwarded to the peer.
pub const MAX_FRAME_SIZE: usize = 16777216;

/// How waiting for one kind of hub message goes on after a message.
#[derive(Debug, PartialEq)]
pub enum WaitStep {
    /// Not the awaited message: keep waiting.
    Keep,
    /// The awaited message came, with this session id (empty without one).
    Done(String),
    /// The hub reported an error.
    Fail(String),
}

/// The view of a wait step.
pub enum WaitStepV {
    Keep,
    Done(Seq<char>),
    Fail(Seq<char>),
}

/// The view of a wait step.
pub open spec fn wait_view(w: WaitStep) -> WaitStepV {
    match w {
        WaitStep::Keep => WaitStepV::Keep,
        WaitStep::Done(s) => WaitStepV::Done(s@),
        WaitStep::Fail(s) => WaitStepV::Fail(s@),
    }
}

/// The characters of an optional text, none without one.
pub open spec fn text_or_empty(o: Option<String>) -> Seq<char> {
    match o {
        Some(s) => s@,
        None => Seq::empty(),
    }
}

/// A hub message of type `msg_type` while awaiting `awaited`: the awaited
/// type ends the wait with the session id, `error` fails it with
/// `signaling: ` and the message, anything else is passed over.
pub fn wait_step(awaited: &str, msg_type: &str, session_id: Option<String>, message: Option<String>) -> (r: WaitStep)
    ensures
        wait_view(r) == (if msg_type@ == awaited@ {
            WaitStepV::Done(text_or_empty(session_id))
        } else if msg_type@ == "error"@ {
            WaitStepV::Fail("signaling: "@ + text_or_empty(message))
        } else {
            WaitStepV::Keep
        }),
{
    let t = chars_of(msg_type);
    let a = chars_of(awaited);
    if crate::text::chars_eq(t.as_slice(), a.as_slice()) {
        let id = match session_id {
            Some(s) => s,
            None => String::new(),
        };
        return WaitStep::Done(id);
    }
    if chars_eq_str(t.as_slice(), "error") {
        let mut out = chars_of("signaling: ");
        match message {
            Some(m) => append_str(&mut out, m.as_str()),
            None => {
                assert(out@ =~= out@ + Seq::<char>::empty());
            },
        }
        return WaitStep::Fail(string_of(out.as_slice()));
    }
    WaitStep::Keep
}

/// Where the peer connection stands: whether the data channel is open,
/// whether the caller still waits to hear that it is ready, and whether
/// the hub is still heard from.
#[derive(Clone, Copy, Debug, PartialEq, Eq, Structural)]
pub struct DriveState {
    pub channel_open: bool,
    pub ready_pending: bool,
    pub signaling_alive: bool,
}

/// What the peer connection reports, as far as the decisions go.
#[derive(Clone, Copy, Debug, PartialEq, Eq, Structural)]
pub enum DriveEvent {
    /// A data channel opened; `blit` when it carries that label.
    ChannelOpen { blit: bool },
    /// Data came on a channel; `ours` when it is the terminal's channel.
    ChannelData { ours: bool },
    /// A channel closed; `ours` when it is the terminal's channel.
    ChannelClose { ours: bool },
    /// The connection's ICE state became disconnected.
    IceDisconnected,
    /// The local side announced a frame of this many bytes.
    FrameLength(usize),
    /// The hub's connection ended or failed.
    SignalingLost,
}

/// What the caller hears about the channel's readiness.
#[derive(Clone, Copy, Debug, PartialEq, Eq, Structural)]
pub enum ReadySignal {
    /// The channel is open.
    Open,
    /// The connection failed before the channel opened: ICE disconnected.
    IceDisconnected,
    /// The hub was lost before the channel opened.
    SignalingLost,
}

/// What to do after an event: the next state, the readiness to report,
/// whether to forward the channel's data to the local side, how many
/// payload bytes to read and send as one frame, and whether to stop.
#[derive(Clone, Copy, Debug, PartialEq, Eq, Structural)]
pub struct DriveStep {
    pub state: DriveState,
    pub ready: Option<ReadySignal>,
    pub forward: bool,
    pub payload: Option<usize>,
    pub stop: bool,
}

/// The decision for one event. The terminal's channel (labelled `blit`)
/// opening reports readiness; data on it is forwarded; its closing stops.
/// ICE disconnecting stops, reporting the failure if readiness was still
/// awaited. A frame no larger than the limit is read and sent; a larger
/// one stops. Losing the hub stops only while readiness is still awaited,
/// reporting that.
pub open spec fn drive_spec(st: DriveState, ev: DriveEvent) -> DriveStep {
    let none = DriveStep { state: st, ready: None, forward: false, payload: None, stop: false };
    match ev {
        DriveEvent::ChannelOpen { blit } => if blit {
            DriveStep {
                state: DriveState { channel_open: true, ready_pending: false, ..st },
                ready: if st.ready_pending {
                    Some(ReadySignal::Open)
                } else {
                    None
                },
                ..none
            }
        } else {
            none
        },
        DriveEvent::ChannelData { ours } => DriveStep { forward: ours, ..none },
        DriveEvent::ChannelClose { ours } => DriveStep { stop: ours, ..none },
        DriveEvent::IceDisconnected => DriveStep {
            state: DriveState { ready_pending: false, ..st },
            ready: if st.ready_pending {
                Some(ReadySignal::IceDisconnected)
            } else {
                None
            },
            stop: true,
            ..none
        },
        DriveEvent::FrameLength(len) => if len <= MAX_FRAME_SIZE {
            DriveStep { payload: Some(len), ..none }
        } else {
            DriveStep { stop: true, ..none }
        },
        DriveEvent::SignalingLost => DriveStep {
            state: DriveState { signaling_alive: false, ready_pending: false, ..st },
            ready: if st.ready_pending {
                Some(ReadySignal::SignalingLost)
            } else {
                None
            },
            stop: st.ready_pending,
            ..none
        },
    }
}

/// Decides what an event of the peer connection leads to.
pub fn drive_step(st: DriveState, ev: DriveEvent) -> (r: DriveStep)
    ensures
        r == drive_spec(st, ev),
{
    let none = DriveStep { state: st, ready: None, forward: false, payload: None, stop: false };
    match ev {
        DriveEvent::ChannelOpen { blit } => {
            if blit {
                DriveStep {
                    state: DriveState { channel_open: true, ready_pending: false, ..st },
                    ready: if st.ready_pending {
                        Some(ReadySignal::Open)
                    } else {
                        None
                    },
                    ..none
                }
            } else {
                none
            }
        },
        DriveEvent::ChannelData { ours } => DriveStep { forward: ours, ..none },
        DriveEvent::ChannelClose { ours } => DriveStep { stop: ours, ..none },
        DriveEvent::IceDisconnected => DriveStep {
            state: DriveState { ready_pending: false, ..st },
            ready: if st.ready_pending {
                Some(ReadySignal::IceDisconnected)
            } else {
                None
            },
            stop: true,
            ..none
        },
        DriveEvent::FrameLength(len) => {
            if len <= MAX_FRAME_SIZE {
                DriveStep { payload: Some(len), ..none }
            } else {
                DriveStep { stop: true, ..none }
            }
        },
        DriveEvent::SignalingLost => DriveStep {
            state: DriveState { signaling_alive: false, ready_pending: false, ..st },
            ready: if st.ready_pending {
                Some(ReadySignal::SignalingLost)
            } else {
                None
            },
            stop: st.ready_pending,
            ..none
        },
    }
}

impl ReadySignal {
    /// The error the caller gets, or `None` when the channel is ready.
    pub fn failure(self) -> (r: Option<String>)
        ensures
            match self {
                ReadySignal::Open => r is None,
                ReadySignal::IceDisconnected => r matches Some(s) && s@ == "ICE disconnected"@,
                ReadySignal::SignalingLost => r matches Some(s) && s@ == "signaling lost before channel open"@,
            },
    {
        match self {
            ReadySignal::Open => None,
            ReadySignal::IceDisconnected => Some(string_of(chars_of("ICE disconnected").as_slice())),
            ReadySignal::SignalingLost => Some(string_of(chars_of("signaling lost before channel open").as_slice())),
        }
    }
}

/// Readiness is reported at most once: after a report nothing is pending,
/// and an event with nothing pending reports nothing.
pub proof fn ready_reported_once(st: DriveState, ev: DriveEvent)
    ensures
        drive_spec(st, ev).ready is Some ==> st.ready_pending && !drive_spec(st, ev).state.ready_pending,
        !st.ready_pending ==> drive_spec(st, ev).ready is None && !drive_spec(st, ev).state.ready_pending,
{
}

// ───────────────────────────── the sharing side ─────────────────────────────

/// Where the sharing side of a peer connection stands: whether the
/// terminal's data channel is open (and the local server connected).
#[derive(Clone, Copy, Debug, PartialEq, Eq, Structural)]
pub struct ShareState {
    pub channel_open: bool,
}

/// What the sharing side hears of.
#[derive(Clone, Copy, Debug, PartialEq, Eq, Structural)]
pub enum ShareEvent {
    /// A data channel opened; `blit` when it carries that label.
    ChannelOpen { blit: bool },
    /// A message came on a channel; `ours` when it is the terminal's channel.
    ChannelData { ours: bool },
    /// A channel closed; `ours` when it is the terminal's channel.
    ChannelClose { ours: bool },
    /// The connection's ICE state became disconnected.
    IceDisconnected,
    /// The local server announced a frame of this many bytes.
    LocalFrameLength(usize),
    /// The local server's connection ended or failed.
    LocalClosed,
}

/// What to do after an event on the sharing side: the next state, whether
/// to connect to the local server, whether to unframe the channel message
/// and pass it to the server, how many payload bytes to read from the
/// server and send on the channel as one frame, and whether to stop.
#[derive(Clone, Copy, Debug, PartialEq, Eq, Structural)]
pub struct ShareStep {
    pub state: ShareState,
    pub connect_local: bool,
    pub to_local: bool,
    pub payload: Option<usize>,
    pub stop: bool,
}

/// The decision for one event of the sharing side. The terminal's channel
/// (labelled `blit`) opening connects to the local server; a message on it
/// is passed to the server; its closing, ICE disconnecting, or the server's
/// connection ending stops. The server is read only once the channel is
/// open: a frame no larger than the limit is read and sent on the channel;
/// a larger one stops.
pub open spec fn share_spec(st: ShareState, ev: ShareEvent) -> ShareStep {
    let none = ShareStep { state: st, connect_local: false, to_local: false, payload: None, stop: false };
    match ev {
        ShareEvent::ChannelOpen { blit } => ShareStep {
            state: ShareState { channel_open: st.channel_open || blit },
            connect_local: blit,
            ..none
        },
        ShareEvent::ChannelData { ours } => ShareStep { to_local: ours && st.channel_open, ..none },
        ShareEvent::ChannelClose { ours } => ShareStep { stop: ours, ..none },
        ShareEvent::IceDisconnected => ShareStep { stop: true, ..none },
        ShareEvent::LocalFrameLength(len) => if !st.channel_open {
            none
        } else if len <= MAX_FRAME_SIZE {
            ShareStep { payload: Some(len), ..none }
        } else {
            ShareStep { stop: true, ..none }
        },
        ShareEvent::LocalClosed => ShareStep { stop: true, ..none },
    }
}

/// Decides what an event of the sharing side leads to.
pub fn share_step(st: ShareState, ev: ShareEvent) -> (r: ShareStep)
    ensures
        r == share_spec(st, ev),
{
    let mut out = ShareStep { state: st, connect_local: false, to_local: false, payload: None, stop: false };
    match ev {
        ShareEvent::ChannelOpen { blit } => {
            if blit {
                out.state = ShareState { channel_open: true };
                out.connect_local = true;
            }
        },
        ShareEvent::ChannelData { ours } => {
            out.to_local = ours && st.channel_open;
        },
        ShareEvent::ChannelClose { ours } => {
            out.stop = ours;
        },
        ShareEvent::IceDisconnected | ShareEvent::LocalClosed => {
            out.stop = true;
        },
        ShareEvent::LocalFrameLength(len) => {
            if st.channel_open {
                if len <= MAX_FRAME_SIZE {
                    out.payload = Some(len);
                } else {
                    out.stop = true;
                }
            }
        },
    }
    out
}

} // verus!
