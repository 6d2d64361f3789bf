//! The data exchanged between the desktop client, its connections and the
//! compositor: sessions, commands, server events, surface events, and the
//! small value types of the renderer.
use vstd::prelude::*;

verus! {

/// What the client knows of one terminal session of a server.
#[derive(Debug, Clone)]
pub struct SessionInfo {
    pub pty_id: u16,
    pub tag: String,
    pub command: String,
    pub title: Option<String>,
    pub exit_status: Option<i32>,
}

/// A session across servers: the remote's name and the pty number on it.
#[derive(Clone, Debug, PartialEq, Eq, Hash)]
pub struct SessionKey {
    pub remote: String,
    pub pty_id: u16,
}

/// The view of a session key: the remote's name and the pty number.
pub open spec fn key_view(k: SessionKey) -> (Seq<char>, u16) {
    (k.remote@, k.pty_id)
}

impl SessionKey {
    /// A copy of the key.
    pub fn duplicate(&self) -> (r: SessionKey)
        ensures
            r.remote@ == self.remote@,
            r.pty_id == self.pty_id,
    {
        SessionKey { remote: self.remote.clone(), pty_id: self.pty_id }
    }

    /// Whether two keys name the same session.
    pub fn same(&self, other: &SessionKey) -> (r: bool)
        ensures
            r == (key_view(*self) == key_view(*other)),
    {
        self.pty_id == other.pty_id && self.remote == other.remote
    }

    /// The key as `remote:pty`.
    pub fn to_text(&self) -> (r: String)
        ensures
            r@ == self.remote@ + ":"@ + crate::text::dec(self.pty_id as nat),
    {
        let mut v = crate::text::chars_of(self.remote.as_str());
        crate::text::append_str(&mut v, ":");
        let d = crate::text::dec_u64(self.pty_id as u64);
        crate::text::append_chars(&mut v, d.as_slice());
        crate::text::string_of(v.as_slice())
    }
}

/// The state of a connection to a server.
#[derive(Clone, Debug)]
pub enum ConnectionStatus {
    Connecting,
    Connected,
    Disconnected(String),
}

/// A request of the client to a server.
pub enum Command {
    Input { pty_id: u16, data: Vec<u8> },
    Resize { pty_id: u16, rows: u16, cols: u16 },
    Focus(u16),
    CreateSession { tag: String, command: Option<String>, rows: u16, cols: u16 },
    CloseSession(u16),
    RestartSession(u16),
    KillSession { pty_id: u16, signal: i32 },
    Scroll { pty_id: u16, offset: u32 },
    Subscribe(u16),
    Unsubscribe(u16),
    Search { query: String },
    Mouse { pty_id: u16, kind: u8, button: u8, col: u16, row: u16 },
    DisplayRate(u16),
}

/// One hit of a scrollback search.
#[derive(Debug)]
pub struct SearchResult {
    pub pty_id: u16,
    pub score: u32,
    pub context: String,
}

/// What a server (or the connection to it) tells the client.
#[derive(Debug)]
pub enum ServerEvent {
    Hello { version: u16, features: u32 },
    SessionList(Vec<SessionInfo>),
    SessionCreated { pty_id: u16, tag: String },
    SessionCreatedN { nonce: u16, pty_id: u16, tag: String },
    SessionClosed(u16),
    SessionExited { pty_id: u16, exit_status: i32 },
    FrameUpdate { pty_id: u16, payload: Vec<u8> },
    TitleChanged { pty_id: u16, title: String },
    SearchResults { request_id: u16, results: Vec<SearchResult> },
    StatusChanged(ConnectionStatus),
    ReconnectNeeded,
    Ready,
}

/// The bytes of a mouse report: the message type, the pty (little
/// endian), the event kind and button, then column and row (little endian).
pub open spec fn mouse_message(tag: u8, pty_id: u16, kind: u8, button: u8, col: u16, row: u16) -> Seq<u8> {
    seq![
        tag,
        (pty_id % 256) as u8,
        (pty_id / 256) as u8,
        kind,
        button,
        (col % 256) as u8,
        (col / 256) as u8,
        (row % 256) as u8,
        (row / 256) as u8,
    ]
}

/// Encodes a mouse report; `tag` is the protocol's message type for mouse input.
pub fn mouse_message_bytes(tag: u8, pty_id: u16, kind: u8, button: u8, col: u16, row: u16) -> (r: Vec<u8>)
    ensures
        r@ == mouse_message(tag, pty_id, kind, button, col, row),
{
    let mut msg: Vec<u8> = Vec::new();
    msg.push(tag);
    msg.push((pty_id % 256) as u8);
    msg.push((pty_id / 256) as u8);
    msg.push(kind);
    msg.push(button);
    msg.push((col % 256) as u8);
    msg.push((col / 256) as u8);
    msg.push((row % 256) as u8);
    msg.push((row / 256) as u8);
    assert(msg@ =~= mouse_message(tag, pty_id, kind, button, col, row));
    msg
}

/// Events of the embedded compositor.
pub enum CompositorEvent {
    SurfaceCreated {
        surface_id: u16,
        title: String,
        app_id: String,
        parent_id: u16,
        width: u16,
        height: u16,
    },
    SurfaceDestroyed { surface_id: u16 },
    SurfaceCommit { surface_id: u16, width: u32, height: u32, pixels: Vec<u8> },
    SurfaceTitle { surface_id: u16, title: String },
    SurfaceAppId { surface_id: u16, app_id: String },
    SurfaceResized { surface_id: u16, width: u16, height: u16 },
    ClipboardContent { surface_id: u16, mime_type: String, data: Vec<u8> },
}

/// The key under which a rendered glyph is cached.
#[derive(Clone, Copy, Hash, Eq, PartialEq)]
pub struct GlyphKey {
    pub bytes: [u8; 4],
    pub len: u8,
    pub bold: bool,
    pub italic: bool,
    pub underline: bool,
    pub wide: bool,
}

/// Where a glyph lies in the atlas.
#[derive(Clone, Copy)]
pub struct GlyphSlot {
    pub x: u32,
    pub y: u32,
    pub width: u32,
    pub height: u32,
}

/// A text selection in a terminal.
pub struct Selection {
    pub start_row: u16,
    pub start_col: u16,
    pub end_row: u16,
    pub end_col: u16,
    pub granularity: u8,
}

} // verus!
