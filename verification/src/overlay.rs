//! The state of the desktop client's overlays (palette picker, font
//! picker, session switcher, disconnected notice) and their filtering.
use vstd::prelude::*;
use crate::session::{SessionKey, key_view};
use crate::input::{Key, NamedKey};
use crate::text::{
    append_chars, append_str, chars_of, contains_chars, contains_seq, lowered, starts_with,
    starts_with_str, string_of, to_lowercase,
};

verus! {

broadcast use vstd::string::group_string_axioms;

/// A colour palette as the picker sees it: its name and whether it is dark.
pub struct PaletteInfo {
    pub name: String,
    pub dark: bool,
}

/// The palette picker.
pub struct PaletteOverlay {
    pub search: String,
    pub selected: usize,
    pub dark_filter: Option<bool>,
}

/// Whether a palette passes the picker's filters: the dark/light filter if
/// set, and the search text (ignoring case) if any.
pub open spec fn palette_shown(search: Seq<char>, dark_filter: Option<bool>, name: Seq<char>, dark: bool) -> bool {
    &&& (dark_filter matches Some(d) ==> dark == d)
    &&& (search.len() == 0 || contains_seq(lowered(name), lowered(search)))
}

/// The indices below `n` that `keep` admits, in order.
pub open spec fn kept_indices(n: int, keep: spec_fn(int) -> bool) -> Seq<usize>
    decreases n,
{
    if n <= 0 {
        seq![]
    } else if keep(n - 1) {
        kept_indices(n - 1, keep).push((n - 1) as usize)
    } else {
        kept_indices(n - 1, keep)
    }
}

impl PaletteOverlay {
    /// An empty search, the first entry selected, no dark/light filter.
    pub fn new() -> (r: Self)
        ensures
            r.search@ == Seq::<char>::empty(),
            r.selected == 0,
            r.dark_filter is None,
    {
        Self { search: String::new(), selected: 0, dark_filter: None }
    }

    /// The indices of the palettes the picker shows, in their order.
    pub fn filtered_palettes(&self, palettes: &[PaletteInfo]) -> (r: Vec<usize>)
        ensures
            r@ == kept_indices(
                palettes@.len() as int,
                |i: int| palette_shown(self.search@, self.dark_filter, palettes@[i].name@, palettes@[i].dark),
            ),
    {
        let ghost keep = |i: int| palette_shown(self.search@, self.dark_filter, palettes@[i].name@, palettes@[i].dark);
        let search_empty = self.search.as_str().is_empty();
        let q = to_lowercase(self.search.as_str());
        let qc = chars_of(q.as_str());
        let mut out: Vec<usize> = Vec::new();
        let mut i: usize = 0;
        while i < palettes.len()
            invariant
                i <= palettes@.len(),
                keep == (|i: int| palette_shown(self.search@, self.dark_filter, palettes@[i].name@, palettes@[i].dark)),
                qc@ == lowered(self.search@),
                search_empty == (self.search@.len() == 0),
                out@ == kept_indices(i as int, keep),
            decreases palettes.len() - i,
        {
            let p = &palettes[i];
            let mut shown = true;
            if let Some(dark) = self.dark_filter {
                if p.dark != dark {
                    shown = false;
                }
            }
            if shown && !search_empty {
                let nl = to_lowercase(p.name.as_str());
                let nc = chars_of(nl.as_str());
                shown = contains_chars(nc.as_slice(), qc.as_slice());
            }
            assert(shown == keep(i as int));
            if shown {
                out.push(i);
            }
            i += 1;
        }
        out
    }
}

/// The indices of the families whose name contains the search text
/// (ignoring case), all of them for an empty search.
pub fn filtered_families(families: &[String], search: &str) -> (r: Vec<usize>)
    ensures
        r@ == kept_indices(
            families@.len() as int,
            |i: int| search@.len() == 0 || contains_seq(lowered(families@[i]@), lowered(search@)),
        ),
{
    let ghost keep = |i: int| search@.len() == 0 || contains_seq(lowered(families@[i]@), lowered(search@));
    let search_empty = search.is_empty();
    let q = to_lowercase(search);
    let qc = chars_of(q.as_str());
    let mut out: Vec<usize> = Vec::new();
    let mut i: usize = 0;
    while i < families.len()
        invariant
            i <= families@.len(),
            keep == (|i: int| search@.len() == 0 || contains_seq(lowered(families@[i]@), lowered(search@))),
            qc@ == lowered(search@),
            search_empty == (search@.len() == 0),
            out@ == kept_indices(i as int, keep),
        decreases families.len() - i,
    {
        let shown = if search_empty {
            true
        } else {
            let fl = to_lowercase(families[i].as_str());
            let fc = chars_of(fl.as_str());
            contains_chars(fc.as_slice(), qc.as_slice())
        };
        if shown {
            out.push(i);
        }
        i += 1;
    }
    out
}

/// What choosing a switcher entry does.
pub enum SwitcherAction {
    NewTerminal,
    ChangePalette,
    ChangeFont,
    ChangeLayout,
    ClearLayout,
    ConnectRemote(String),
    DisconnectRemote(String),
}

/// An entry of the session switcher.
pub enum SwitcherItem {
    Session { key: SessionKey, title: String, remote: String },
    Action { label: String, action: SwitcherAction },
}

/// The session switcher: its input line, the selected entry, the entries.
pub struct SwitcherOverlay {
    pub input: String,
    pub selected: usize,
    pub items: Vec<SwitcherItem>,
}

/// The notice shown while remotes are disconnected.
pub struct DisconnectedOverlay {
    pub remotes: Vec<(String, String, u32)>,
}

impl DisconnectedOverlay {
    /// No remotes listed.
    pub fn new() -> (r: Self)
        ensures
            r.remotes@.len() == 0,
    {
        Self { remotes: Vec::new() }
    }
}

/// The label of an entry, and what it does or which session it opens.
pub open spec fn item_label(item: SwitcherItem) -> Seq<char> {
    match item {
        SwitcherItem::Session { title, .. } => title@,
        SwitcherItem::Action { label, .. } => label@,
    }
}

/// The fixed commands of the switcher, in order.
pub open spec fn command_action_ok(k: int, item: SwitcherItem) -> bool {
    match item {
        SwitcherItem::Action { label, action } => {
            if k == 0 {
                label@ == "New terminal"@ && action is NewTerminal
            } else if k == 1 {
                label@ == "Change palette"@ && action is ChangePalette
            } else if k == 2 {
                label@ == "Change font"@ && action is ChangeFont
            } else if k == 3 {
                label@ == "Change layout"@ && action is ChangeLayout
            } else {
                label@ == "Clear layout"@ && action is ClearLayout
            }
        },
        _ => false,
    }
}

/// The entry that connects remote `r`.
pub open spec fn connect_item_ok(r: Seq<char>, item: SwitcherItem) -> bool {
    item matches SwitcherItem::Action { label, action: SwitcherAction::ConnectRemote(name) }
        && label@ == "Connect: "@ + r && name@ == r
}

/// The entry that disconnects remote `r`.
pub open spec fn disconnect_item_ok(r: Seq<char>, item: SwitcherItem) -> bool {
    item matches SwitcherItem::Action { label, action: SwitcherAction::DisconnectRemote(name) }
        && label@ == "Disconnect: "@ + r && name@ == r
}

/// The title a session is listed under: `remote: title`.
pub open spec fn session_display(remote: Seq<char>, title: Seq<char>) -> Seq<char> {
    remote + ": "@ + title
}

/// Whether a session is listed for the query.
pub open spec fn session_listed(query: Seq<char>, remote: Seq<char>, title: Seq<char>) -> bool {
    query.len() == 0 || contains_seq(lowered(session_display(remote, title)), query)
}

/// The entry that opens a session.
pub open spec fn session_item_ok(s: (SessionKey, String, String), item: SwitcherItem) -> bool {
    item matches SwitcherItem::Session { key, title, remote } && key_view(key) == key_view(s.0)
        && title@ == session_display(s.2@, s.1@) && remote@ == s.2@
}

/// The sessions listed for a query: the indices of those that pass, in order.
pub open spec fn listed_sessions(query: Seq<char>, sessions: Seq<(SessionKey, String, String)>) -> Seq<usize> {
    kept_indices(sessions.len() as int, |i: int| session_listed(query, sessions[i].2@, sessions[i].1@))
}

/// The entries listed for input `input`.  An input starting with `>`
/// lists the commands: the five fixed ones, then "Connect" for each
/// disconnected remote, then "Disconnect" for each connected one.  Any
/// other input lists the sessions whose `remote: title` contains the
/// input, ignoring case (all of them for an empty input).
pub open spec fn items_for(
    input: Seq<char>,
    sessions: Seq<(SessionKey, String, String)>,
    connected_remotes: Seq<String>,
    disconnected_remotes: Seq<String>,
    items: Seq<SwitcherItem>,
) -> bool {
    if starts_with(input, ">"@) {
        let nd = disconnected_remotes.len() as int;
        let nc = connected_remotes.len() as int;
        &&& items.len() == 5 + nd + nc
        &&& forall|k: int| 0 <= k < 5 ==> command_action_ok(k, #[trigger] items[k])
        &&& forall|k: int| 0 <= k < nd ==> connect_item_ok(disconnected_remotes[k]@, #[trigger] items[5 + k])
        &&& forall|k: int| 0 <= k < nc ==> disconnect_item_ok(connected_remotes[k]@, #[trigger] items[5 + nd + k])
    } else {
        let listed = listed_sessions(lowered(input), sessions);
        &&& items.len() == listed.len()
        &&& forall|k: int| 0 <= k < listed.len() ==> session_item_ok(sessions[listed[k] as int], #[trigger] items[k])
    }
}

impl SwitcherOverlay {
    /// An empty input, the first entry selected, no entries.
    pub fn new() -> (r: Self)
        ensures
            r.input@ == Seq::<char>::empty(),
            r.selected == 0,
            r.items@.len() == 0,
    {
        Self { input: String::new(), selected: 0, items: Vec::new() }
    }

    /// Rebuilds the entries for the current input.  An input starting with
    /// `>` lists the commands: the five fixed ones, then "Connect" for each
    /// disconnected remote, then "Disconnect" for each connected one.  Any
    /// other input lists the sessions whose `remote: title` contains the
    /// input, ignoring case (all of them for an empty input).
    pub fn rebuild_items(
        &mut self,
        sessions: &[(SessionKey, String, String)],
        connected_remotes: &[String],
        disconnected_remotes: &[String],
    )
        ensures
            final(self).input@ == old(self).input@,
            final(self).selected == old(self).selected,
            items_for(old(self).input@, sessions@, connected_remotes@, disconnected_remotes@, final(self).items@),
    {
        self.items.clear();
        let ic = chars_of(self.input.as_str());
        if starts_with_str(ic.as_slice(), ">") {
            self.items.push(SwitcherItem::Action { label: string_of(chars_of("New terminal").as_slice()), action: SwitcherAction::NewTerminal });
            self.items.push(SwitcherItem::Action { label: string_of(chars_of("Change palette").as_slice()), action: SwitcherAction::ChangePalette });
            self.items.push(SwitcherItem::Action { label: string_of(chars_of("Change font").as_slice()), action: SwitcherAction::ChangeFont });
            self.items.push(SwitcherItem::Action { label: string_of(chars_of("Change layout").as_slice()), action: SwitcherAction::ChangeLayout });
            self.items.push(SwitcherItem::Action { label: string_of(chars_of("Clear layout").as_slice()), action: SwitcherAction::ClearLayout });
            let mut i: usize = 0;
            while i < disconnected_remotes.len()
                invariant
                    i <= disconnected_remotes@.len(),
                    self.items@.len() == 5 + i,
                    self.input@ == old(self).input@,
                    self.selected == old(self).selected,
                    forall|k: int| 0 <= k < 5 ==> command_action_ok(k, #[trigger] self.items@[k]),
                    forall|k: int| 0 <= k < i ==> connect_item_ok(
                        disconnected_remotes@[k]@,
                        #[trigger] self.items@[5 + k],
                    ),
                decreases disconnected_remotes.len() - i,
            {
                let r = &disconnected_remotes[i];
                let mut l = chars_of("Connect: ");
                let rc = chars_of(r.as_str());
                append_chars(&mut l, rc.as_slice());
                let item = SwitcherItem::Action { label: string_of(l.as_slice()), action: SwitcherAction::ConnectRemote(r.clone()) };
                self.items.push(item);
                i += 1;
            }
            let mut j: usize = 0;
            let nd = disconnected_remotes.len();
            while j < connected_remotes.len()
                invariant
                    j <= connected_remotes@.len(),
                    nd == disconnected_remotes@.len(),
                    self.items@.len() == 5 + nd + j,
                    self.input@ == old(self).input@,
                    self.selected == old(self).selected,
                    forall|k: int| 0 <= k < 5 ==> command_action_ok(k, #[trigger] self.items@[k]),
                    forall|k: int| 0 <= k < nd ==> connect_item_ok(
                        disconnected_remotes@[k]@,
                        #[trigger] self.items@[5 + k],
                    ),
                    forall|k: int| 0 <= k < j ==> disconnect_item_ok(
                        connected_remotes@[k]@,
                        #[trigger] self.items@[5 + nd + k],
                    ),
                decreases connected_remotes.len() - j,
            {
                let r = &connected_remotes[j];
                let mut l = chars_of("Disconnect: ");
                let rc = chars_of(r.as_str());
                append_chars(&mut l, rc.as_slice());
                let item = SwitcherItem::Action { label: string_of(l.as_slice()), action: SwitcherAction::DisconnectRemote(r.clone()) };
                self.items.push(item);
                j += 1;
            }
            return;
        }
        let q = to_lowercase(self.input.as_str());
        let qc = chars_of(q.as_str());
        let ghost query = lowered(old(self).input@);
        let ghost keep = |i: int| session_listed(query, sessions@[i].2@, sessions@[i].1@);
        let mut listed: Vec<usize> = Vec::new();
        let mut i: usize = 0;
        while i < sessions.len()
            invariant
                i <= sessions@.len(),
                qc@ == query,
                query == lowered(old(self).input@),
                keep == (|i: int| session_listed(query, sessions@[i].2@, sessions@[i].1@)),
                self.input@ == old(self).input@,
                self.selected == old(self).selected,
                !starts_with(old(self).input@, ">"@),
                listed@ == kept_indices(i as int, keep),
                self.items@.len() == listed@.len(),
                forall|k: int| 0 <= k < listed@.len() ==> session_item_ok(
                    sessions@[listed@[k] as int],
                    #[trigger] self.items@[k],
                ),
            decreases sessions.len() - i,
        {
            let (key, title, remote) = (&sessions[i].0, &sessions[i].1, &sessions[i].2);
            let mut d = chars_of(remote.as_str());
            append_str(&mut d, ": ");
            let tc = chars_of(title.as_str());
            append_chars(&mut d, tc.as_slice());
            let display = string_of(d.as_slice());
            let show = if qc.len() == 0 {
                true
            } else {
                let dl = to_lowercase(display.as_str());
                let dc = chars_of(dl.as_str());
                contains_chars(dc.as_slice(), qc.as_slice())
            };
            assert(show == keep(i as int));
            if show {
                let item = SwitcherItem::Session { key: key.duplicate(), title: display, remote: remote.clone() };
                self.items.push(item);
                listed.push(i);
            }
            i += 1;
        }
    }
}

/// What a key pressed in the session switcher asks of the client.
#[derive(Debug, PartialEq)]
pub enum SwitcherOutcome {
    /// Stay in the switcher.
    Stay,
    /// Focus this session and close the switcher.
    FocusSession(SessionKey),
    /// Close the switcher and open a new terminal.
    NewTerminal,
    /// Close the switcher.
    Close,
}

/// What Enter does on the selected entry: open its session, run "New
/// terminal", close the switcher for another command, or nothing when no
/// entry is selected.
pub open spec fn enter_outcome(items: Seq<SwitcherItem>, selected: usize, r: SwitcherOutcome) -> bool {
    if selected < items.len() {
        match items[selected as int] {
            SwitcherItem::Session { key, .. } => r matches SwitcherOutcome::FocusSession(k) && key_view(k) == key_view(key),
            SwitcherItem::Action { action, .. } => if action is NewTerminal {
                r is NewTerminal
            } else {
                r is Close
            },
        }
    } else {
        r is Stay
    }
}

impl SwitcherOverlay {
    /// Handles a key: the arrows move the selection round the entries, Enter
    /// acts on the selected entry, Backspace drops the input's last
    /// character and typed text extends it, both relisting the entries
    /// (commands for connected remotes only) and keeping the selection in
    /// range or going back to the first entry.
    pub fn handle_key(&mut self, key: &Key, sessions: &[(SessionKey, String, String)], connected: &[String]) -> (r: SwitcherOutcome)
        requires
            (key matches Key::Named(NamedKey::ArrowDown)) && old(self).items@.len() > 0 ==> old(self).selected < usize::MAX,
            (key matches Key::Named(NamedKey::ArrowUp)) && old(self).items@.len() > 0 ==> old(self).selected
                + old(self).items@.len() <= usize::MAX,
        ensures
            match *key {
                Key::Named(NamedKey::ArrowDown) => {
                    &&& r is Stay
                    &&& final(self).input@ == old(self).input@
                    &&& final(self).items@ == old(self).items@
                    &&& final(self).selected == if old(self).items@.len() > 0 {
                        ((old(self).selected + 1) % (old(self).items@.len() as int)) as usize
                    } else {
                        old(self).selected
                    }
                },
                Key::Named(NamedKey::ArrowUp) => {
                    &&& r is Stay
                    &&& final(self).input@ == old(self).input@
                    &&& final(self).items@ == old(self).items@
                    &&& final(self).selected == if old(self).items@.len() > 0 {
                        ((old(self).selected + old(self).items@.len() - 1) % (old(self).items@.len() as int)) as usize
                    } else {
                        old(self).selected
                    }
                },
                Key::Named(NamedKey::Enter) => {
                    &&& enter_outcome(old(self).items@, old(self).selected, r)
                    &&& final(self).input@ == old(self).input@
                    &&& final(self).items@ == old(self).items@
                    &&& final(self).selected == old(self).selected
                },
                Key::Named(NamedKey::Backspace) => {
                    &&& r is Stay
                    &&& final(self).input@ == if old(self).input@.len() > 0 {
                        old(self).input@.drop_last()
                    } else {
                        old(self).input@
                    }
                    &&& items_for(final(self).input@, sessions@, connected@, Seq::<String>::empty(), final(self).items@)
                    &&& final(self).selected == if old(self).selected < final(self).items@.len() {
                        old(self).selected as int
                    } else if final(self).items@.len() > 0 {
                        final(self).items@.len() - 1
                    } else {
                        0
                    }
                },
                Key::Character(ch) => {
                    &&& r is Stay
                    &&& final(self).input@ == old(self).input@ + ch@
                    &&& items_for(final(self).input@, sessions@, connected@, Seq::<String>::empty(), final(self).items@)
                    &&& final(self).selected == 0
                },
                _ => {
                    &&& r is Stay
                    &&& final(self).input@ == old(self).input@
                    &&& final(self).items@ == old(self).items@
                    &&& final(self).selected == old(self).selected
                },
            },
    {
        let none: Vec<String> = Vec::new();
        match key {
            Key::Named(NamedKey::ArrowDown) => {
                if self.items.len() > 0 {
                    self.selected = (self.selected + 1) % self.items.len();
                }
                SwitcherOutcome::Stay
            },
            Key::Named(NamedKey::ArrowUp) => {
                if self.items.len() > 0 {
                    self.selected = (self.selected + self.items.len() - 1) % self.items.len();
                }
                SwitcherOutcome::Stay
            },
            Key::Named(NamedKey::Enter) => {
                if self.selected < self.items.len() {
                    match &self.items[self.selected] {
                        SwitcherItem::Session { key, .. } => SwitcherOutcome::FocusSession(key.duplicate()),
                        SwitcherItem::Action { action, .. } => match action {
                            SwitcherAction::NewTerminal => SwitcherOutcome::NewTerminal,
                            _ => SwitcherOutcome::Close,
                        },
                    }
                } else {
                    SwitcherOutcome::Stay
                }
            },
            Key::Named(NamedKey::Backspace) => {
                let mut cs = chars_of(self.input.as_str());
                if cs.len() > 0 {
                    cs.pop();
                }
                self.input = string_of(cs.as_slice());
                self.rebuild_items(sessions, connected, none.as_slice());
                let n = self.items.len();
                let last = if n > 0 {
                    n - 1
                } else {
                    0
                };
                if self.selected > last {
                    self.selected = last;
                }
                SwitcherOutcome::Stay
            },
            Key::Character(ch) => {
                let mut cs = chars_of(self.input.as_str());
                let more = chars_of(ch.as_str());
                append_chars(&mut cs, more.as_slice());
                self.input = string_of(cs.as_slice());
                self.rebuild_items(sessions, connected, none.as_slice());
                self.selected = 0;
                SwitcherOutcome::Stay
            },
            _ => SwitcherOutcome::Stay,
        }
    }
}

} // verus!
