//! The desktop client's remotes file (INI sections, one per remote) and the
//! layout list of the user configuration.
use vstd::prelude::*;
use crate::config::{clean_entry, entry_line, entry_lines, entry_map, lemma_entry_map, is_trimmed, keys_distinct, lemma_line_entry, lemma_lines_terminated, lemma_trim_end_keeps, lemma_trim_start_keeps, terminated, ConfigMap};
use crate::text::{
    append_chars, append_str, chars_eq_str, chars_of, find_char, first_index, lemma_first_index,
    is_ws, lines_chars, lines_seq, lower_letters, lowered, strip_cr, string_of, sub_vec, to_lowercase, trim, trim_chars, views,
};

verus! {

broadcast use vstd::string::group_string_axioms;

// ───────────────────────────── remotes ─────────────────────────────

/// How a remote is reached.
#[derive(Clone, Debug)]
pub enum RemoteKind {
    Unix { socket: Option<String> },
    Tcp { address: String },
    Ssh { host: String },
    Share { passphrase: String, hub: Option<String> },
}

/// A remote: its name, how to reach it, and whether to connect at start.
#[derive(Clone, Debug)]
pub struct RemoteConfig {
    pub name: String,
    pub kind: RemoteKind,
    pub autoconnect: bool,
}

/// What a remote kind says, as text.
pub enum KindView {
    Unix(Option<Seq<char>>),
    Tcp(Seq<char>),
    Ssh(Seq<char>),
    Share(Seq<char>, Option<Seq<char>>),
}

/// What a remote says, as text.
pub struct RemoteView {
    pub name: Seq<char>,
    pub kind: KindView,
    pub autoconnect: bool,
}

pub open spec fn opt_view(o: Option<String>) -> Option<Seq<char>> {
    match o {
        Some(s) => Some(s@),
        None => None,
    }
}

impl View for RemoteKind {
    type V = KindView;

    open spec fn view(&self) -> KindView {
        match self {
            RemoteKind::Unix { socket } => KindView::Unix(opt_view(*socket)),
            RemoteKind::Tcp { address } => KindView::Tcp(address@),
            RemoteKind::Ssh { host } => KindView::Ssh(host@),
            RemoteKind::Share { passphrase, hub } => KindView::Share(passphrase@, opt_view(*hub)),
        }
    }
}

impl View for RemoteConfig {
    type V = RemoteView;

    open spec fn view(&self) -> RemoteView {
        RemoteView { name: self.name@, kind: self.kind@, autoconnect: self.autoconnect }
    }
}

/// The views of remotes.
pub open spec fn remote_views(rs: Seq<RemoteConfig>) -> Seq<RemoteView> {
    Seq::new(rs.len(), |i: int| rs[i]@)
}

/// The remote used when none is configured: the local server's socket,
/// connected at start.
pub open spec fn local_remote() -> RemoteView {
    RemoteView { name: "local"@, kind: KindView::Unix(None), autoconnect: true }
}

/// The remote used when none is configured.
pub fn default_local() -> (r: RemoteConfig)
    ensures
        r@ == local_remote(),
{
    RemoteConfig {
        name: string_of(chars_of("local").as_slice()),
        kind: RemoteKind::Unix { socket: None },
        autoconnect: true,
    }
}

/// What an INI file has been read into so far: the finished sections, the
/// name of the open one, and the properties gathered since the last
/// section closed (properties before the first header go to it).
pub struct IniState {
    pub done: Seq<(Seq<char>, Map<Seq<char>, Seq<char>>)>,
    pub name: Option<Seq<char>>,
    pub props: Map<Seq<char>, Seq<char>>,
}

/// One line of an INI file: blank lines and lines starting with `#` or
/// `;` are skipped; `[name]` opens a section (the name trimmed); a line
/// with `=` sets the lowercased trimmed key to the trimmed value.
pub open spec fn ini_step(st: IniState, line: Seq<char>) -> IniState {
    let t = trim(line);
    if t.len() == 0 || t[0] == '#' || t[0] == ';' {
        st
    } else if t[0] == '[' && t.last() == ']' {
        let name = trim(t.subrange(1, t.len() - 1));
        match st.name {
            Some(n) => IniState { done: st.done.push((n, st.props)), name: Some(name), props: Map::empty() },
            None => IniState { done: st.done, name: Some(name), props: st.props },
        }
    } else {
        match first_index(t, '=') {
            Some(i) => IniState {
                done: st.done,
                name: st.name,
                props: st.props.insert(lowered(trim(t.take(i))), trim(t.skip(i + 1))),
            },
            None => st,
        }
    }
}

/// The state after the lines.
pub open spec fn ini_fold(ls: Seq<Seq<char>>) -> IniState
    decreases ls.len(),
{
    if ls.len() == 0 {
        IniState { done: seq![], name: None, props: Map::empty() }
    } else {
        ini_step(ini_fold(ls.drop_last()), ls.last())
    }
}

/// The sections of an INI text, in order, with their properties.
pub open spec fn ini_sections(text: Seq<char>) -> Seq<(Seq<char>, Map<Seq<char>, Seq<char>>)> {
    let st = ini_fold(lines_seq(text));
    match st.name {
        Some(n) => st.done.push((n, st.props)),
        None => st.done,
    }
}

/// The views of sections.
pub open spec fn section_views(v: Seq<(String, ConfigMap)>) -> Seq<(Seq<char>, Map<Seq<char>, Seq<char>>)> {
    Seq::new(v.len(), |i: int| (v[i].0@, v[i].1@))
}

/// Reads an INI text into its sections.
pub fn parse_ini(content: &str) -> (r: Vec<(String, ConfigMap)>)
    ensures
        section_views(r@) == ini_sections(content@),
{
    let lines = lines_chars(chars_of(content).as_slice());
    let ghost ls = views(lines@);
    let mut sections: Vec<(String, ConfigMap)> = Vec::new();
    let mut name: Option<String> = None;
    let mut props = ConfigMap::new();
    let mut i: usize = 0;
    while i < lines.len()
        invariant
            ls == views(lines@),
            ls == lines_seq(content@),
            i <= ls.len(),
            ({
                let st = ini_fold(ls.take(i as int));
                &&& section_views(sections@) == st.done
                &&& opt_view(name) == st.name
                &&& props@ == st.props
            }),
        decreases lines.len() - i,
    {
        let ghost st0 = ini_fold(ls.take(i as int));
        assert(ls.take(i + 1).drop_last() =~= ls.take(i as int));
        assert(ls.take(i + 1).last() == ls[i as int]);
        let t = trim_chars(lines[i].as_slice());
        assert(t@ == trim(ls[i as int]));
        let n = t.len();
        if n == 0 || t[0] == '#' || t[0] == ';' {
        } else if t[0] == '[' && t[n - 1] == ']' {
            let inner = trim_chars(sub_vec(t.as_slice(), 1, n - 1).as_slice());
            let new_name = string_of(inner.as_slice());
            match name {
                Some(old) => {
                    let ghost prev = section_views(sections@);
                    let ghost entry = (old@, props@);
                    let mut fresh = ConfigMap::new();
                    std::mem::swap(&mut fresh, &mut props);
                    sections.push((old, fresh));
                    assert(section_views(sections@) =~= prev.push(entry));
                },
                None => {},
            }
            name = Some(new_name);
        } else {
            match find_char(t.as_slice(), '=') {
                Some(p) => {
                    proof {
                        lemma_first_index(t@, '=');
                    }
                    let kc = trim_chars(sub_vec(t.as_slice(), 0, p).as_slice());
                    let vc = trim_chars(sub_vec(t.as_slice(), p + 1, n).as_slice());
                    assert(t@.subrange(0, p as int) =~= t@.take(p as int));
                    assert(t@.subrange(p + 1, n as int) =~= t@.skip(p + 1));
                    let ks = string_of(kc.as_slice());
                    let key = to_lowercase(ks.as_str());
                    props.insert(key, string_of(vc.as_slice()));
                },
                None => {},
            }
        }
        i += 1;
    }
    assert(ls.take(ls.len() as int) =~= ls);
    match name {
        Some(nm) => {
            let ghost prev = section_views(sections@);
            let ghost entry = (nm@, props@);
            sections.push((nm, props));
            assert(section_views(sections@) =~= prev.push(entry));
        },
        None => {},
    }
    sections
}

/// Whether a property value switches autoconnect on.
pub open spec fn truthy(v: Seq<char>) -> bool {
    v == "true"@ || v == "1"@ || v == "yes"@
}

/// The value of `key`, if set.
pub open spec fn prop(props: Map<Seq<char>, Seq<char>>, key: Seq<char>) -> Option<Seq<char>> {
    if props.dom().contains(key) {
        Some(props[key])
    } else {
        None
    }
}

/// The remote that a section describes: `type` (default `unix`) picks the
/// kind, `tcp` needs `address`, `ssh` needs `host`, `share` needs
/// `passphrase` (and may have `hub`), `unix` may have `socket`; another
/// type, or a missing required property, gives none. `autoconnect` is on
/// for `true`, `1` or `yes`.
pub open spec fn remote_of(name: Seq<char>, props: Map<Seq<char>, Seq<char>>) -> Option<RemoteView> {
    let kind_str = match prop(props, "type"@) {
        Some(k) => k,
        None => "unix"@,
    };
    let autoconnect = match prop(props, "autoconnect"@) {
        Some(v) => truthy(v),
        None => false,
    };
    let kind = if kind_str == "unix"@ {
        Some(KindView::Unix(prop(props, "socket"@)))
    } else if kind_str == "tcp"@ {
        match prop(props, "address"@) {
            Some(a) => Some(KindView::Tcp(a)),
            None => None,
        }
    } else if kind_str == "ssh"@ {
        match prop(props, "host"@) {
            Some(h) => Some(KindView::Ssh(h)),
            None => None,
        }
    } else if kind_str == "share"@ {
        match prop(props, "passphrase"@) {
            Some(p) => Some(KindView::Share(p, prop(props, "hub"@))),
            None => None,
        }
    } else {
        None
    };
    match kind {
        Some(k) => Some(RemoteView { name, kind: k, autoconnect }),
        None => None,
    }
}

fn get_prop(props: &ConfigMap, key: &str) -> (r: Option<String>)
    ensures
        opt_view(r) == prop(props@, key@),
{
    match props.get(key) {
        Some(v) => Some(v.clone()),
        None => None,
    }
}

/// The remote that a section describes, if it describes one.
pub fn section_to_remote(name: &str, props: &ConfigMap) -> (r: Option<RemoteConfig>)
    ensures
        match remote_of(name@, props@) {
            Some(v) => r matches Some(rc) && rc@ == v,
            None => r is None,
        },
{
    let kind_str = match get_prop(props, "type") {
        Some(k) => chars_of(k.as_str()),
        None => chars_of("unix"),
    };
    let autoconnect = match get_prop(props, "autoconnect") {
        Some(v) => {
            let c = chars_of(v.as_str());
            chars_eq_str(c.as_slice(), "true") || chars_eq_str(c.as_slice(), "1") || chars_eq_str(
                c.as_slice(),
                "yes",
            )
        },
        None => false,
    };
    let kind = if chars_eq_str(kind_str.as_slice(), "unix") {
        RemoteKind::Unix { socket: get_prop(props, "socket") }
    } else if chars_eq_str(kind_str.as_slice(), "tcp") {
        match get_prop(props, "address") {
            Some(a) => RemoteKind::Tcp { address: a },
            None => {
                return None;
            },
        }
    } else if chars_eq_str(kind_str.as_slice(), "ssh") {
        match get_prop(props, "host") {
            Some(h) => RemoteKind::Ssh { host: h },
            None => {
                return None;
            },
        }
    } else if chars_eq_str(kind_str.as_slice(), "share") {
        match get_prop(props, "passphrase") {
            Some(p) => RemoteKind::Share { passphrase: p, hub: get_prop(props, "hub") },
            None => {
                return None;
            },
        }
    } else {
        return None;
    };
    Some(RemoteConfig { name: string_of(chars_of(name).as_slice()), kind, autoconnect })
}

/// The remotes of sections, in order, skipping sections that describe none.
pub open spec fn remotes_of(ss: Seq<(Seq<char>, Map<Seq<char>, Seq<char>>)>) -> Seq<RemoteView>
    decreases ss.len(),
{
    if ss.len() == 0 {
        seq![]
    } else {
        let prev = remotes_of(ss.drop_last());
        match remote_of(ss.last().0, ss.last().1) {
            Some(r) => prev.push(r),
            None => prev,
        }
    }
}

/// The remotes that a remotes file lists; the local remote when it lists
/// none.
pub open spec fn remotes_in(text: Seq<char>) -> Seq<RemoteView> {
    let rs = remotes_of(ini_sections(text));
    if rs.len() == 0 {
        seq![local_remote()]
    } else {
        rs
    }
}

/// The remotes of a remotes file's text.
pub fn remotes_from_text(content: &str) -> (r: Vec<RemoteConfig>)
    ensures
        remote_views(r@) == remotes_in(content@),
{
    let sections = parse_ini(content);
    let ghost ss = section_views(sections@);
    let mut out: Vec<RemoteConfig> = Vec::new();
    let mut i: usize = 0;
    while i < sections.len()
        invariant
            ss == section_views(sections@),
            i <= ss.len(),
            remote_views(out@) == remotes_of(ss.take(i as int)),
        decreases sections.len() - i,
    {
        assert(ss.take(i + 1).drop_last() =~= ss.take(i as int));
        assert(ss.take(i + 1).last() == ss[i as int]);
        let ghost prev = remote_views(out@);
        match section_to_remote(sections[i].0.as_str(), &sections[i].1) {
            Some(r) => {
                let ghost rv = r@;
                out.push(r);
                assert(remote_views(out@) =~= prev.push(rv));
            },
            None => {},
        }
        i += 1;
    }
    assert(ss.take(ss.len() as int) =~= ss);
    if out.len() == 0 {
        out.push(default_local());
        assert(remote_views(out@) =~= seq![local_remote()]);
    }
    out
}

/// The header line of a remote: `[name]`.
pub open spec fn remote_head(r: RemoteView) -> Seq<char> {
    "["@ + r.name + "]\n"@
}

/// The lines of a remote's kind: `type`, then the kind's properties.
pub open spec fn kind_text(k: KindView) -> Seq<char> {
    match k {
        KindView::Unix(s) => "type = unix\n"@ + match s {
            Some(p) => "socket = "@ + p + "\n"@,
            None => seq![],
        },
        KindView::Tcp(a) => "type = tcp\n"@ + "address = "@ + a + "\n"@,
        KindView::Ssh(h) => "type = ssh\n"@ + "host = "@ + h + "\n"@,
        KindView::Share(p, hub) => "type = share\n"@ + "passphrase = "@ + p + "\n"@ + match hub {
            Some(h) => "hub = "@ + h + "\n"@,
            None => seq![],
        },
    }
}

/// The text of one remote in a remotes file: the `[name]` header, `type`,
/// the kind's properties, and `autoconnect = true` when it is on.
pub open spec fn remote_text(r: RemoteView) -> Seq<char> {
    remote_head(r) + kind_text(r.kind) + if r.autoconnect {
        "autoconnect = true\n"@
    } else {
        seq![]
    }
}

/// The remotes file of remotes: their texts, separated by blank lines.
pub open spec fn remotes_file(rs: Seq<RemoteView>) -> Seq<char>
    decreases rs.len(),
{
    if rs.len() == 0 {
        seq![]
    } else if rs.len() == 1 {
        remote_text(rs[0])
    } else {
        remotes_file(rs.drop_last()) + seq!['\n'] + remote_text(rs.last())
    }
}

fn push_kind(out: &mut Vec<char>, k: &RemoteKind)
    ensures
        final(out)@ == old(out)@ + kind_text(k@),
{
    let ghost start = out@;
    match k {
        RemoteKind::Unix { socket } => {
            append_str(out, "type = unix\n");
            match socket {
                Some(s) => {
                    append_str(out, "socket = ");
                    append_chars(out, chars_of(s.as_str()).as_slice());
                    append_str(out, "\n");
                },
                None => {},
            }
            assert(out@ =~= start + kind_text(k@));
        },
        RemoteKind::Tcp { address } => {
            append_str(out, "type = tcp\n");
            append_str(out, "address = ");
            append_chars(out, chars_of(address.as_str()).as_slice());
            append_str(out, "\n");
            assert(out@ =~= start + kind_text(k@));
        },
        RemoteKind::Ssh { host } => {
            append_str(out, "type = ssh\n");
            append_str(out, "host = ");
            append_chars(out, chars_of(host.as_str()).as_slice());
            append_str(out, "\n");
            assert(out@ =~= start + kind_text(k@));
        },
        RemoteKind::Share { passphrase, hub } => {
            append_str(out, "type = share\n");
            append_str(out, "passphrase = ");
            append_chars(out, chars_of(passphrase.as_str()).as_slice());
            append_str(out, "\n");
            let ghost mid = out@;
            match hub {
                Some(h) => {
                    append_str(out, "hub = ");
                    append_chars(out, chars_of(h.as_str()).as_slice());
                    append_str(out, "\n");
                },
                None => {},
            }
            assert(out@ =~= start + kind_text(k@));
        },
    }
}

fn push_remote(out: &mut Vec<char>, r: &RemoteConfig)
    ensures
        final(out)@ == old(out)@ + remote_text(r@),
{
    let ghost start = out@;
    append_str(out, "[");
    append_chars(out, chars_of(r.name.as_str()).as_slice());
    append_str(out, "]\n");
    assert(out@ =~= start + remote_head(r@));
    push_kind(out, &r.kind);
    let ghost mid = out@;
    if r.autoconnect {
        append_str(out, "autoconnect = true\n");
    }
    assert(out@ =~= start + remote_text(r@));
}

/// The text that saving remotes writes.
pub fn remotes_text(remotes: &[RemoteConfig]) -> (r: String)
    ensures
        r@ == remotes_file(remote_views(remotes@)),
{
    let ghost rv = remote_views(remotes@);
    let mut out: Vec<char> = Vec::new();
    let mut i: usize = 0;
    while i < remotes.len()
        invariant
            rv == remote_views(remotes@),
            i <= rv.len(),
            out@ == remotes_file(rv.take(i as int)),
        decreases remotes.len() - i,
    {
        assert(rv.take(i + 1).drop_last() =~= rv.take(i as int));
        assert(rv.take(i + 1).last() == rv[i as int]);
        if i > 0 {
            out.push('\n');
        } else {
            assert(rv.take(1)[0] == rv[0]);
        }
        push_remote(&mut out, &remotes[i]);
        i += 1;
    }
    assert(rv.take(rv.len() as int) =~= rv);
    string_of(out.as_slice())
}


// ───────────────────────────── reading back what was saved ─────────────────────────────

/// A value that a remotes file gives back as written: without white space
/// at its ends and without line feeds.
pub open spec fn clean_value(v: Seq<char>) -> bool {
    is_trimmed(v) && !v.contains('\n')
}

/// A remote that a remotes file gives back as written: its name and its
/// values clean.
pub open spec fn remote_ok(r: RemoteView) -> bool {
    &&& clean_value(r.name)
    &&& match r.kind {
        KindView::Unix(s) => s matches Some(p) ==> clean_value(p),
        KindView::Tcp(a) => clean_value(a),
        KindView::Ssh(h) => clean_value(h),
        KindView::Share(p, hub) => clean_value(p) && (hub matches Some(h) ==> clean_value(h)),
    }
}

/// The properties that a remote's kind sets, in the order written.
pub open spec fn kind_props(k: KindView) -> Seq<(Seq<char>, Seq<char>)> {
    match k {
        KindView::Unix(s) => seq![("type"@, "unix"@)] + match s {
            Some(p) => seq![("socket"@, p)],
            None => seq![],
        },
        KindView::Tcp(a) => seq![("type"@, "tcp"@), ("address"@, a)],
        KindView::Ssh(h) => seq![("type"@, "ssh"@), ("host"@, h)],
        KindView::Share(p, hub) => seq![("type"@, "share"@), ("passphrase"@, p)] + match hub {
            Some(h) => seq![("hub"@, h)],
            None => seq![],
        },
    }
}

/// The property that autoconnect sets when it is on.
pub open spec fn auto_props(on: bool) -> Seq<(Seq<char>, Seq<char>)> {
    if on {
        seq![("autoconnect"@, "true"@)]
    } else {
        seq![]
    }
}

/// The properties that a remote's section sets, in the order written.
pub open spec fn remote_props(r: RemoteView) -> Seq<(Seq<char>, Seq<char>)> {
    kind_props(r.kind) + auto_props(r.autoconnect)
}

/// The lines of a remote's section.
pub open spec fn remote_lines(r: RemoteView) -> Seq<Seq<char>> {
    seq![seq!['['] + r.name + seq![']']] + entry_lines(remote_props(r))
}

/// The lines of a remotes file.
pub open spec fn file_lines(rs: Seq<RemoteView>) -> Seq<Seq<char>>
    decreases rs.len(),
{
    if rs.len() == 0 {
        seq![]
    } else if rs.len() == 1 {
        remote_lines(rs[0])
    } else {
        file_lines(rs.drop_last()) + seq![Seq::<char>::empty()] + remote_lines(rs.last())
    }
}

proof fn lemma_terminated_concat(a: Seq<Seq<char>>, b: Seq<Seq<char>>)
    ensures
        terminated(a + b) == terminated(a) + terminated(b),
    decreases b.len(),
{
    if b.len() == 0 {
        assert(a + b =~= a);
        assert(terminated(a) + terminated(b) =~= terminated(a));
    } else {
        assert((a + b).drop_last() =~= a + b.drop_last());
        lemma_terminated_concat(a, b.drop_last());
        assert(terminated(a + b) =~= terminated(a) + terminated(b));
    }
}

proof fn lemma_terminated_one(l: Seq<char>)
    ensures
        terminated(seq![l]) == l.push('\n'),
{
    assert(seq![l].drop_last() =~= Seq::<Seq<char>>::empty());
    assert(terminated(Seq::<Seq<char>>::empty()) + l.push('\n') =~= l.push('\n'));
}

proof fn lemma_terminated_entries_push(ps: Seq<(Seq<char>, Seq<char>)>, e: (Seq<char>, Seq<char>))
    ensures
        terminated(entry_lines(ps.push(e))) == terminated(entry_lines(ps)) + entry_line(e).push('\n'),
{
    assert(entry_lines(ps.push(e)) =~= entry_lines(ps).push(entry_line(e)));
    assert(entry_lines(ps).push(entry_line(e)).drop_last() =~= entry_lines(ps));
}


proof fn lemma_entry_lines_concat(a: Seq<(Seq<char>, Seq<char>)>, b: Seq<(Seq<char>, Seq<char>)>)
    ensures
        entry_lines(a + b) == entry_lines(a) + entry_lines(b),
{
    assert(entry_lines(a + b) =~= entry_lines(a) + entry_lines(b));
}

proof fn lemma_prop_line(k: Seq<char>, v: Seq<char>, text: Seq<char>)
    requires
        text =~= k + " = "@ + v + "\n"@,
    ensures
        terminated(entry_lines(seq![(k, v)])) == text,
{
    reveal_strlit(" = ");
    reveal_strlit("\n");
    assert(Seq::<(Seq<char>, Seq<char>)>::empty().push((k, v)) =~= seq![(k, v)]);
    lemma_terminated_entries_push(Seq::<(Seq<char>, Seq<char>)>::empty(), (k, v));
    assert(entry_lines(Seq::<(Seq<char>, Seq<char>)>::empty()) =~= Seq::<Seq<char>>::empty());
    assert(terminated(Seq::<Seq<char>>::empty()) + entry_line((k, v)).push('\n') =~= text);
}

proof fn lemma_kind_text(k: KindView)
    ensures
        terminated(entry_lines(kind_props(k))) == kind_text(k),
{
    reveal_strlit("type = unix\n");
    reveal_strlit("type = tcp\n");
    reveal_strlit("type = ssh\n");
    reveal_strlit("type = share\n");
    reveal_strlit("type");
    reveal_strlit("unix");
    reveal_strlit("tcp");
    reveal_strlit("ssh");
    reveal_strlit("share");
    reveal_strlit(" = ");
    reveal_strlit("\n");
    reveal_strlit("socket = ");
    reveal_strlit("socket");
    reveal_strlit("address = ");
    reveal_strlit("address");
    reveal_strlit("host = ");
    reveal_strlit("host");
    reveal_strlit("passphrase = ");
    reveal_strlit("passphrase");
    reveal_strlit("hub = ");
    reveal_strlit("hub");
    let t = |w: Seq<char>| seq![("type"@, w)];
    match k {
        KindView::Unix(so) => {
            lemma_prop_line("type"@, "unix"@, "type = unix\n"@);
            match so {
                Some(p) => {
                    lemma_prop_line("socket"@, p, "socket = "@ + p + "\n"@);
                    lemma_entry_lines_concat(seq![("type"@, "unix"@)], seq![("socket"@, p)]);
                    lemma_terminated_concat(entry_lines(seq![("type"@, "unix"@)]), entry_lines(seq![("socket"@, p)]));
                    assert(kind_props(k) =~= seq![("type"@, "unix"@)] + seq![("socket"@, p)]);
                },
                None => {
                    assert(kind_props(k) =~= seq![("type"@, "unix"@)]);
                    assert(kind_text(k) =~= "type = unix\n"@);
                },
            }
        },
        KindView::Tcp(a) => {
            lemma_prop_line("type"@, "tcp"@, "type = tcp\n"@);
            lemma_prop_line("address"@, a, "address = "@ + a + "\n"@);
            lemma_entry_lines_concat(seq![("type"@, "tcp"@)], seq![("address"@, a)]);
            lemma_terminated_concat(entry_lines(seq![("type"@, "tcp"@)]), entry_lines(seq![("address"@, a)]));
            assert(kind_props(k) =~= seq![("type"@, "tcp"@)] + seq![("address"@, a)]);
            assert(kind_text(k) =~= "type = tcp\n"@ + ("address = "@ + a + "\n"@));
        },
        KindView::Ssh(h) => {
            lemma_prop_line("type"@, "ssh"@, "type = ssh\n"@);
            lemma_prop_line("host"@, h, "host = "@ + h + "\n"@);
            lemma_entry_lines_concat(seq![("type"@, "ssh"@)], seq![("host"@, h)]);
            lemma_terminated_concat(entry_lines(seq![("type"@, "ssh"@)]), entry_lines(seq![("host"@, h)]));
            assert(kind_props(k) =~= seq![("type"@, "ssh"@)] + seq![("host"@, h)]);
            assert(kind_text(k) =~= "type = ssh\n"@ + ("host = "@ + h + "\n"@));
        },
        KindView::Share(p, hub) => {
            lemma_prop_line("type"@, "share"@, "type = share\n"@);
            lemma_prop_line("passphrase"@, p, "passphrase = "@ + p + "\n"@);
            let head = seq![("type"@, "share"@)] + seq![("passphrase"@, p)];
            lemma_entry_lines_concat(seq![("type"@, "share"@)], seq![("passphrase"@, p)]);
            lemma_terminated_concat(entry_lines(seq![("type"@, "share"@)]), entry_lines(seq![("passphrase"@, p)]));
            match hub {
                Some(h) => {
                    lemma_prop_line("hub"@, h, "hub = "@ + h + "\n"@);
                    lemma_entry_lines_concat(head, seq![("hub"@, h)]);
                    lemma_terminated_concat(entry_lines(head), entry_lines(seq![("hub"@, h)]));
                    assert(kind_props(k) =~= head + seq![("hub"@, h)]);
                    assert(kind_text(k) =~= "type = share\n"@ + ("passphrase = "@ + p + "\n"@) + ("hub = "@ + h
                        + "\n"@));
                },
                None => {
                    assert(kind_props(k) =~= head);
                    assert(kind_text(k) =~= "type = share\n"@ + ("passphrase = "@ + p + "\n"@));
                },
            }
        },
    }
}

/// The text of a remote is its lines, each ended by a line feed.
proof fn lemma_remote_text(r: RemoteView)
    ensures
        remote_text(r) == terminated(remote_lines(r)),
{
    reveal_strlit("[");
    reveal_strlit("]\n");
    reveal_strlit("autoconnect = true\n");
    reveal_strlit("autoconnect");
    reveal_strlit("true");
    reveal_strlit(" = ");
    reveal_strlit("\n");
    lemma_kind_text(r.kind);
    let h = seq!['['] + r.name + seq![']'];
    lemma_terminated_one(h);
    lemma_terminated_concat(seq![h], entry_lines(remote_props(r)));
    lemma_entry_lines_concat(kind_props(r.kind), auto_props(r.autoconnect));
    lemma_terminated_concat(entry_lines(kind_props(r.kind)), entry_lines(auto_props(r.autoconnect)));
    if r.autoconnect {
        lemma_prop_line("autoconnect"@, "true"@, "autoconnect = true\n"@);
    } else {
        assert(entry_lines(auto_props(r.autoconnect)) =~= Seq::<Seq<char>>::empty());
    }
    assert(remote_lines(r) =~= seq![h] + entry_lines(remote_props(r)));
    assert(remote_head(r) =~= h.push('\n'));
    assert(remote_text(r) =~= terminated(remote_lines(r)));
}

/// The text of a remotes file is its lines, each ended by a line feed.
proof fn lemma_remotes_file(rs: Seq<RemoteView>)
    ensures
        remotes_file(rs) == terminated(file_lines(rs)),
    decreases rs.len(),
{
    if rs.len() == 1 {
        lemma_remote_text(rs[0]);
    } else if rs.len() > 1 {
        lemma_remotes_file(rs.drop_last());
        lemma_remote_text(rs.last());
        let a = file_lines(rs.drop_last());
        let e = seq![Seq::<char>::empty()];
        lemma_terminated_concat(a + e, remote_lines(rs.last()));
        lemma_terminated_concat(a, e);
        lemma_terminated_one(Seq::<char>::empty());
        assert(Seq::<char>::empty().push('\n') =~= seq!['\n']);
    } else {
        assert(remotes_file(rs) =~= terminated(file_lines(rs)));
    }
}


/// Properties whose lines read back as themselves, with keys of lowercase
/// letters, each key once.
pub open spec fn props_clean(ps: Seq<(Seq<char>, Seq<char>)>) -> bool {
    &&& forall|i: int| 0 <= i < ps.len() ==> clean_entry(#[trigger] ps[i]) && ps[i].0.len() > 0 && lower_letters(ps[i].0)
    &&& keys_distinct(ps)
}

proof fn lemma_key(k: Seq<char>)
    requires
        k.len() > 0,
        lower_letters(k),
    ensures
        is_trimmed(k),
        !k.contains('='),
        !k.contains('\n'),
        k[0] != '#',
{
    assert('a' <= k[0] && k[0] <= 'z');
    assert('a' <= k.last() && k.last() <= 'z') by {
        assert(k.last() == k[k.len() - 1]);
    }
    if k.contains('=') {
        let j = choose|j: int| 0 <= j < k.len() && k[j] == '=';
        assert('a' <= k[j]);
    }
    if k.contains('\n') {
        let j = choose|j: int| 0 <= j < k.len() && k[j] == '\n';
        assert('a' <= k[j]);
    }
}

proof fn lemma_word(w: Seq<char>)
    requires
        w.len() > 0,
        lower_letters(w),
    ensures
        clean_value(w),
{
    lemma_key(w);
}

#[verifier::rlimit(40)]
proof fn lemma_props_clean(r: RemoteView)
    requires
        remote_ok(r),
    ensures
        props_clean(remote_props(r)),
{
    reveal_strlit("type");
    reveal_strlit("unix");
    reveal_strlit("tcp");
    reveal_strlit("ssh");
    reveal_strlit("share");
    reveal_strlit("socket");
    reveal_strlit("address");
    reveal_strlit("host");
    reveal_strlit("passphrase");
    reveal_strlit("hub");
    reveal_strlit("autoconnect");
    reveal_strlit("true");
    let ps = remote_props(r);
    let words = seq!["type"@, "unix"@, "tcp"@, "ssh"@, "share"@, "socket"@, "address"@, "host"@, "passphrase"@, "hub"@, "autoconnect"@, "true"@];
    assert forall|i: int| 0 <= i < words.len() implies #[trigger] words[i].len() > 0 && lower_letters(words[i]) by {
        assert(lower_letters("type"@));
        assert(lower_letters("unix"@));
        assert(lower_letters("tcp"@));
        assert(lower_letters("ssh"@));
        assert(lower_letters("share"@));
        assert(lower_letters("socket"@));
        assert(lower_letters("address"@));
        assert(lower_letters("host"@));
        assert(lower_letters("passphrase"@));
        assert(lower_letters("hub"@));
        assert(lower_letters("autoconnect"@));
        assert(lower_letters("true"@));
    }
    assert forall|i: int| 0 <= i < words.len() implies clean_value(#[trigger] words[i]) && is_trimmed(words[i])
        && !words[i].contains('=') && !words[i].contains('\n') && words[i][0] != '#' by {
        lemma_word(words[i]);
        lemma_key(words[i]);
    }
    assert(words[0] == "type"@ && words[1] == "unix"@ && words[2] == "tcp"@ && words[3] == "ssh"@ && words[4]
        == "share"@ && words[5] == "socket"@ && words[6] == "address"@ && words[7] == "host"@ && words[8]
        == "passphrase"@ && words[9] == "hub"@ && words[10] == "autoconnect"@ && words[11] == "true"@);
    assert forall|i: int| 0 <= i < ps.len() implies clean_entry(#[trigger] ps[i]) && ps[i].0.len() > 0
        && lower_letters(ps[i].0) by {
    }
    assert(keys_distinct(ps)) by {
        assert forall|i: int, j: int| 0 <= i < j < ps.len() implies (#[trigger] ps[i]).0 != (#[trigger] ps[j]).0 by {
            if ps[i].0 == ps[j].0 {
                assert(ps[i].0[0] == ps[j].0[0]);
                assert(ps[i].0.len() == ps[j].0.len());
            }
        }
    }
}


/// A line that reading lines gives back as it is.
pub open spec fn plain_line(l: Seq<char>) -> bool {
    !l.contains('\n') && strip_cr(l) == l
}

proof fn lemma_remote_lines_plain(r: RemoteView)
    requires
        remote_ok(r),
    ensures
        forall|i: int| 0 <= i < remote_lines(r).len() ==> plain_line(#[trigger] remote_lines(r)[i]),
{
    lemma_props_clean(r);
    let ps = remote_props(r);
    let h = seq!['['] + r.name + seq![']'];
    assert(!h.contains('\n')) by {
        if h.contains('\n') {
            let j = choose|j: int| 0 <= j < h.len() && h[j] == '\n';
            assert(r.name[j - 1] == '\n');
        }
    }
    assert(h.last() == ']');
    assert forall|i: int| 0 <= i < remote_lines(r).len() implies plain_line(#[trigger] remote_lines(r)[i]) by {
        if i == 0 {
            assert(remote_lines(r)[0] == h);
        } else {
            assert(remote_lines(r)[i] == entry_line(ps[i - 1]));
            lemma_line_entry(ps[i - 1]);
        }
    }
}

proof fn lemma_file_lines_plain(rs: Seq<RemoteView>)
    requires
        forall|i: int| 0 <= i < rs.len() ==> remote_ok(#[trigger] rs[i]),
    ensures
        forall|i: int| 0 <= i < file_lines(rs).len() ==> plain_line(#[trigger] file_lines(rs)[i]),
    decreases rs.len(),
{
    if rs.len() == 1 {
        lemma_remote_lines_plain(rs[0]);
    } else if rs.len() > 1 {
        let init = rs.drop_last();
        assert forall|i: int| 0 <= i < init.len() implies remote_ok(#[trigger] init[i]) by {
            assert(init[i] == rs[i]);
        }
        lemma_file_lines_plain(init);
        lemma_remote_lines_plain(rs.last());
        assert(remote_ok(rs[rs.len() - 1]));
        let a = file_lines(init);
        let b = remote_lines(rs.last());
        let fl = a + seq![Seq::<char>::empty()] + b;
        assert(file_lines(rs) == fl);
        assert forall|i: int| 0 <= i < fl.len() implies plain_line(#[trigger] fl[i]) by {
            if i < a.len() {
                assert(fl[i] == a[i]);
            } else if i == a.len() {
                assert(fl[i] =~= Seq::<char>::empty());
            } else {
                assert(fl[i] == b[i - a.len() - 1]);
            }
        }
    }
}

/// The lines of a saved remotes file are the lines written.
proof fn lemma_saved_lines(rs: Seq<RemoteView>)
    requires
        forall|i: int| 0 <= i < rs.len() ==> remote_ok(#[trigger] rs[i]),
    ensures
        lines_seq(remotes_file(rs)) == file_lines(rs),
{
    lemma_remotes_file(rs);
    lemma_file_lines_plain(rs);
    let fl = file_lines(rs);
    assert forall|i: int| 0 <= i < fl.len() implies !(#[trigger] fl[i]).contains('\n') by {
        assert(plain_line(fl[i]));
    }
    assert forall|i: int| 0 <= i < fl.len() implies strip_cr(#[trigger] fl[i]) == fl[i] by {
        assert(plain_line(fl[i]));
    }
    lemma_lines_terminated(fl);
}


/// The state after lines, read from state `st` on.
pub open spec fn ini_run(st: IniState, ls: Seq<Seq<char>>) -> IniState
    decreases ls.len(),
{
    if ls.len() == 0 {
        st
    } else {
        ini_step(ini_run(st, ls.drop_last()), ls.last())
    }
}

/// The state before any line.
pub open spec fn ini_start() -> IniState {
    IniState { done: seq![], name: None, props: Map::empty() }
}

proof fn lemma_ini_fold_run(ls: Seq<Seq<char>>)
    ensures
        ini_fold(ls) == ini_run(ini_start(), ls),
    decreases ls.len(),
{
    if ls.len() > 0 {
        lemma_ini_fold_run(ls.drop_last());
    }
}

proof fn lemma_ini_run_concat(st: IniState, a: Seq<Seq<char>>, b: Seq<Seq<char>>)
    ensures
        ini_run(st, a + b) == ini_run(ini_run(st, a), b),
    decreases b.len(),
{
    if b.len() == 0 {
        assert(a + b =~= a);
    } else {
        assert((a + b).drop_last() =~= a + b.drop_last());
        assert((a + b).last() == b.last());
        lemma_ini_run_concat(st, a, b.drop_last());
    }
}

proof fn lemma_ini_run_one(st: IniState, l: Seq<char>)
    ensures
        ini_run(st, seq![l]) == ini_step(st, l),
{
    assert(seq![l].drop_last() =~= Seq::<Seq<char>>::empty());
    assert(ini_run(st, Seq::<Seq<char>>::empty()) == st);
    assert(seq![l].last() == l);
}

/// Trimming text that starts with no white space keeps its first character.
proof fn lemma_trim_first(x: Seq<char>)
    requires
        x.len() > 0,
        !is_ws(x[0]),
    ensures
        trim(x).len() > 0,
        trim(x)[0] == x[0],
    decreases x.len(),
{
    lemma_trim_start_keeps(x);
    if x.len() > 1 && is_ws(x.last()) {
        lemma_trim_first(x.drop_last());
        lemma_trim_start_keeps(x.drop_last());
    }
}

proof fn lemma_prop_step(st: IniState, e: (Seq<char>, Seq<char>))
    requires
        clean_entry(e),
        e.0.len() > 0,
        lower_letters(e.0),
    ensures
        ini_step(st, entry_line(e)) == (IniState { done: st.done, name: st.name, props: st.props.insert(e.0, e.1) }),
{
    lemma_line_entry(e);
    let l = entry_line(e);
    assert(l[0] == e.0[0]);
    assert('a' <= e.0[0] && e.0[0] <= 'z');
    lemma_trim_first(l);
}

proof fn lemma_trimmed_trim(x: Seq<char>)
    requires
        is_trimmed(x),
    ensures
        trim(x) == x,
{
    lemma_trim_start_keeps(x);
    lemma_trim_end_keeps(x);
}

proof fn lemma_header_step(st: IniState, name: Seq<char>)
    requires
        clean_value(name),
    ensures
        ini_step(st, seq!['['] + name + seq![']']) == (match st.name {
            Some(n) => IniState { done: st.done.push((n, st.props)), name: Some(name), props: Map::empty() },
            None => IniState { done: st.done, name: Some(name), props: st.props },
        }),
{
    let h = seq!['['] + name + seq![']'];
    assert(h[0] == '[' && h.last() == ']');
    lemma_trim_start_keeps(h);
    lemma_trim_end_keeps(h);
    assert(trim(h) == h);
    assert(h.subrange(1, h.len() - 1) =~= name);
    lemma_trimmed_trim(name);
}

/// Inserts pairs into a map, in order.
pub open spec fn insert_all(m: Map<Seq<char>, Seq<char>>, ps: Seq<(Seq<char>, Seq<char>)>) -> Map<Seq<char>, Seq<char>>
    decreases ps.len(),
{
    if ps.len() == 0 {
        m
    } else {
        insert_all(m, ps.drop_last()).insert(ps.last().0, ps.last().1)
    }
}

proof fn lemma_insert_all_empty(ps: Seq<(Seq<char>, Seq<char>)>)
    ensures
        insert_all(Map::empty(), ps) == entry_map(ps),
    decreases ps.len(),
{
    if ps.len() > 0 {
        lemma_insert_all_empty(ps.drop_last());
    }
}

proof fn lemma_prop_lines(st: IniState, ps: Seq<(Seq<char>, Seq<char>)>)
    requires
        forall|i: int| 0 <= i < ps.len() ==> clean_entry(#[trigger] ps[i]) && ps[i].0.len() > 0 && lower_letters(ps[i].0),
    ensures
        ini_run(st, entry_lines(ps)) == (IniState { done: st.done, name: st.name, props: insert_all(st.props, ps) }),
    decreases ps.len(),
{
    if ps.len() > 0 {
        let init = ps.drop_last();
        assert forall|i: int| 0 <= i < init.len() implies clean_entry(#[trigger] init[i]) && init[i].0.len() > 0
            && lower_letters(init[i].0) by {
            assert(init[i] == ps[i]);
        }
        lemma_prop_lines(st, init);
        assert(entry_lines(ps).drop_last() =~= entry_lines(init));
        assert(entry_lines(ps).last() == entry_line(ps.last()));
        assert(ps.last() == ps[ps.len() - 1]);
        lemma_prop_step(ini_run(st, entry_lines(init)), ps.last());
    } else {
        assert(entry_lines(ps) =~= Seq::<Seq<char>>::empty());
    }
}

/// Reading a remote's section from state `st`: the open section, if any,
/// is finished, and the remote's section is open with its properties.
proof fn lemma_remote_run(st: IniState, r: RemoteView)
    requires
        remote_ok(r),
        st.name is Some || st.props == Map::<Seq<char>, Seq<char>>::empty(),
    ensures
        ini_run(st, remote_lines(r)) == (IniState {
            done: match st.name {
                Some(n) => st.done.push((n, st.props)),
                None => st.done,
            },
            name: Some(r.name),
            props: entry_map(remote_props(r)),
        }),
{
    lemma_props_clean(r);
    let h = seq!['['] + r.name + seq![']'];
    let ps = remote_props(r);
    assert(remote_lines(r) == seq![h] + entry_lines(ps));
    lemma_ini_run_concat(st, seq![h], entry_lines(ps));
    lemma_ini_run_one(st, h);
    lemma_header_step(st, r.name);
    let st1 = ini_step(st, h);
    lemma_prop_lines(st1, ps);
    lemma_insert_all_empty(ps);
}


/// The sections that remotes are saved as.
pub open spec fn remote_sections(rs: Seq<RemoteView>) -> Seq<(Seq<char>, Map<Seq<char>, Seq<char>>)> {
    Seq::new(rs.len(), |i: int| (rs[i].name, entry_map(remote_props(rs[i]))))
}

proof fn lemma_file_run(rs: Seq<RemoteView>)
    requires
        rs.len() > 0,
        forall|i: int| 0 <= i < rs.len() ==> remote_ok(#[trigger] rs[i]),
    ensures
        ini_run(ini_start(), file_lines(rs)) == (IniState {
            done: remote_sections(rs.drop_last()),
            name: Some(rs.last().name),
            props: entry_map(remote_props(rs.last())),
        }),
    decreases rs.len(),
{
    assert(remote_ok(rs[rs.len() - 1]));
    if rs.len() == 1 {
        lemma_remote_run(ini_start(), rs[0]);
        assert(remote_sections(rs.drop_last()) =~= Seq::<(Seq<char>, Map<Seq<char>, Seq<char>>)>::empty());
    } else {
        let init = rs.drop_last();
        assert forall|i: int| 0 <= i < init.len() implies remote_ok(#[trigger] init[i]) by {
            assert(init[i] == rs[i]);
        }
        lemma_file_run(init);
        let a = file_lines(init);
        let e = seq![Seq::<char>::empty()];
        let st1 = ini_run(ini_start(), a);
        lemma_ini_run_concat(ini_start(), a + e, remote_lines(rs.last()));
        lemma_ini_run_concat(ini_start(), a, e);
        lemma_ini_run_one(st1, Seq::<char>::empty());
        assert(trim(Seq::<char>::empty()) =~= Seq::<char>::empty());
        lemma_remote_run(st1, rs.last());
        assert(remote_sections(init.drop_last()).push((init.last().name, entry_map(remote_props(init.last()))))
            =~= remote_sections(rs.drop_last()));
    }
}

/// A saved remote's section reads back as the remote.
#[verifier::rlimit(60)]
proof fn lemma_remote_of(r: RemoteView)
    requires
        remote_ok(r),
    ensures
        remote_of(r.name, entry_map(remote_props(r))) == Some(r),
{
    reveal_strlit("type");
    reveal_strlit("unix");
    reveal_strlit("tcp");
    reveal_strlit("ssh");
    reveal_strlit("share");
    reveal_strlit("socket");
    reveal_strlit("address");
    reveal_strlit("host");
    reveal_strlit("passphrase");
    reveal_strlit("hub");
    reveal_strlit("autoconnect");
    reveal_strlit("true");
    reveal_strlit("1");
    reveal_strlit("yes");
    lemma_props_clean(r);
    let ps = remote_props(r);
    let m = entry_map(ps);
    lemma_entry_map(ps);
    let keys = seq!["type"@, "socket"@, "address"@, "host"@, "passphrase"@, "hub"@, "autoconnect"@];
    assert forall|k: Seq<char>| #[trigger] keys.contains(k) implies (m.dom().contains(k) <==> exists|i: int|
        0 <= i < ps.len() && ps[i].0 == k) by {
    }
    assert(prop(m, "type"@) == Some(ps[0].1));
    assert(("type"@ == "unix"@) == false);
    match r.kind {
        KindView::Unix(so) => {
            assert(ps[0] == ("type"@, "unix"@));
            match so {
                Some(p) => {
                    assert(ps[1] == ("socket"@, p));
                    assert(prop(m, "socket"@) == Some(p));
                },
                None => {
                    assert(!m.dom().contains("socket"@));
                },
            }
        },
        KindView::Tcp(a) => {
            assert(ps[1] == ("address"@, a));
            assert(prop(m, "address"@) == Some(a));
        },
        KindView::Ssh(h) => {
            assert(ps[1] == ("host"@, h));
            assert(prop(m, "host"@) == Some(h));
        },
        KindView::Share(p, hub) => {
            assert(ps[1] == ("passphrase"@, p));
            assert(prop(m, "passphrase"@) == Some(p));
            match hub {
                Some(h) => {
                    assert(ps[2] == ("hub"@, h));
                    assert(prop(m, "hub"@) == Some(h));
                },
                None => {
                    assert(!m.dom().contains("hub"@));
                },
            }
        },
    }
    if r.autoconnect {
        assert(ps.last() == ("autoconnect"@, "true"@));
        assert(ps[ps.len() - 1] == ("autoconnect"@, "true"@));
        assert(prop(m, "autoconnect"@) == Some("true"@));
    } else {
        assert(!m.dom().contains("autoconnect"@));
    }
}

proof fn lemma_remotes_of_sections(rs: Seq<RemoteView>)
    requires
        forall|i: int| 0 <= i < rs.len() ==> remote_ok(#[trigger] rs[i]),
    ensures
        remotes_of(remote_sections(rs)) == rs,
    decreases rs.len(),
{
    if rs.len() > 0 {
        let init = rs.drop_last();
        assert forall|i: int| 0 <= i < init.len() implies remote_ok(#[trigger] init[i]) by {
            assert(init[i] == rs[i]);
        }
        lemma_remotes_of_sections(init);
        assert(remote_sections(rs).drop_last() =~= remote_sections(init));
        assert(remote_ok(rs[rs.len() - 1]));
        lemma_remote_of(rs.last());
        assert(init.push(rs.last()) =~= rs);
    } else {
        assert(remote_sections(rs) =~= Seq::<(Seq<char>, Map<Seq<char>, Seq<char>>)>::empty());
        assert(remotes_of(remote_sections(rs)) =~= rs);
    }
}

/// Saving remotes and reading the file back gives the same remotes, when
/// there is at least one and their names and values have no white space
/// at their ends and no line feed.
pub proof fn remotes_round_trip(rs: Seq<RemoteView>)
    requires
        rs.len() > 0,
        forall|i: int| 0 <= i < rs.len() ==> remote_ok(#[trigger] rs[i]),
    ensures
        remotes_in(remotes_file(rs)) == rs,
{
    lemma_saved_lines(rs);
    let ls = file_lines(rs);
    lemma_ini_fold_run(ls);
    lemma_file_run(rs);
    assert(remote_sections(rs.drop_last()).push((rs.last().name, entry_map(remote_props(rs.last()))))
        =~= remote_sections(rs));
    lemma_remotes_of_sections(rs);
}

// ───────────────────────────── layouts ─────────────────────────────

/// A named pane layout.
#[derive(Clone, Debug)]
pub struct LayoutEntry {
    pub name: String,
    pub dsl: String,
}

/// The index of the first occurrence of `pat` in `s` at or after `from`.
pub open spec fn find_from(s: Seq<char>, pat: Seq<char>, from: int) -> Option<int>
    decreases s.len() + 1 - from,
{
    if from < 0 || from + pat.len() > s.len() {
        None
    } else if s.subrange(from, from + pat.len()) == pat {
        Some(from)
    } else {
        find_from(s, pat, from + 1)
    }
}

fn find_text(s: &[char], pat: &[char]) -> (r: Option<usize>)
    ensures
        match find_from(s@, pat@, 0) {
            Some(i) => r == Some(i as usize),
            None => r is None,
        },
{
    let n = s.len();
    let mut i: usize = 0;
    while i <= n
        invariant
            n == s@.len(),
            i <= s@.len() + 1,
            find_from(s@, pat@, 0) == find_from(s@, pat@, i as int),
        decreases s@.len() + 1 - i,
    {
        if pat.len() > n - i {
            return None;
        }
        let mut k: usize = 0;
        let mut ok = true;
        while k < pat.len()
            invariant
                n == s@.len(),
                i + pat@.len() <= s@.len(),
                k <= pat@.len(),
                ok == (forall|j: int| 0 <= j < k ==> s@[i + j] == pat@[j]),
            decreases pat.len() - k,
        {
            if s[i + k] != pat[k] {
                ok = false;
            }
            k += 1;
        }
        if ok {
            assert(s@.subrange(i as int, i + pat@.len()) =~= pat@);
            return Some(i);
        }
        assert(s@.subrange(i as int, i + pat@.len()) != pat@) by {
            let j = choose|j: int| 0 <= j < pat@.len() && s@[i + j] != pat@[j];
            assert(s@.subrange(i as int, i + pat@.len())[j] == s@[i + j]);
        }
        if i == n {
            return None;
        }
        i += 1;
    }
    None
}

/// The text of a string field of a flat JSON object: after `"key":"` (or
/// else `"key" : "`), up to the next `"`.
pub open spec fn json_field(obj: Seq<char>, key: Seq<char>) -> Option<Seq<char>> {
    let n1 = seq!['"'] + key + seq!['"', ':', '"'];
    let n2 = seq!['"'] + key + seq!['"', ' ', ':', ' ', '"'];
    let tight = match find_from(obj, n1, 0) {
        Some(s) => {
            let rest = obj.skip(s + n1.len());
            match first_index(rest, '"') {
                Some(e) => Some(rest.take(e)),
                None => None,
            }
        },
        None => None,
    };
    if tight is Some {
        tight
    } else {
        match find_from(obj, n2, 0) {
            Some(s) => {
                let rest = obj.skip(s + n2.len());
                match first_index(rest, '"') {
                    Some(e) => Some(rest.take(e)),
                    None => None,
                }
            },
            None => None,
        }
    }
}

fn field_after(obj: &[char], needle: &[char]) -> (r: Option<Vec<char>>)
    ensures
        match find_from(obj@, needle@, 0) {
            Some(s) => match first_index(obj@.skip(s + needle@.len()), '"') {
                Some(e) => r matches Some(v) && v@ == obj@.skip(s + needle@.len()).take(e),
                None => r is None,
            },
            None => r is None,
        },
{
    proof {
        lemma_find_from_fits(obj@, needle@, 0);
    }
    let n = obj.len();
    match find_text(obj, needle) {
        Some(s) => {
            assert(s + needle@.len() <= n);
            let rest = sub_vec(obj, s + needle.len(), obj.len());
            assert(rest@ =~= obj@.skip(s + needle@.len()));
            match find_char(rest.as_slice(), '"') {
                Some(e) => {
                    proof {
                        lemma_first_index(rest@, '"');
                    }
                    let v = sub_vec(rest.as_slice(), 0, e);
                    assert(v@ =~= rest@.take(e as int));
                    Some(v)
                },
                None => None,
            }
        },
        None => None,
    }
}

proof fn lemma_find_from_fits(s: Seq<char>, pat: Seq<char>, from: int)
    ensures
        find_from(s, pat, from) matches Some(i) ==> from <= i && i + pat.len() <= s.len(),
    decreases s.len() + 1 - from,
{
    if !(from < 0 || from + pat.len() > s.len()) && s.subrange(from, from + pat.len()) != pat {
        lemma_find_from_fits(s, pat, from + 1);
    }
}

fn json_string_field(obj: &[char], key: &str) -> (r: Option<Vec<char>>)
    ensures
        match json_field(obj@, key@) {
            Some(v) => r matches Some(x) && x@ == v,
            None => r is None,
        },
{
    let k = chars_of(key);
    let mut n1: Vec<char> = vec!['"'];
    append_chars(&mut n1, k.as_slice());
    n1.push('"');
    n1.push(':');
    n1.push('"');
    assert(n1@ =~= seq!['"'] + key@ + seq!['"', ':', '"']);
    proof {
        lemma_find_from_fits(obj@, n1@, 0);
    }
    match field_after(obj, n1.as_slice()) {
        Some(v) => {
            return Some(v);
        },
        None => {},
    }
    let mut n2: Vec<char> = vec!['"'];
    append_chars(&mut n2, k.as_slice());
    n2.push('"');
    n2.push(' ');
    n2.push(':');
    n2.push(' ');
    n2.push('"');
    assert(n2@ =~= seq!['"'] + key@ + seq!['"', ' ', ':', ' ', '"']);
    proof {
        lemma_find_from_fits(obj@, n2@, 0);
    }
    field_after(obj, n2.as_slice())
}

/// The layout that one JSON object names: its `name` and `dsl` fields.
pub open spec fn layout_of(obj: Seq<char>) -> Option<(Seq<char>, Seq<char>)> {
    match (json_field(obj, "name"@), json_field(obj, "dsl"@)) {
        (Some(n), Some(d)) => Some((n, d)),
        _ => None,
    }
}

/// Reads one layout object.
pub fn parse_layout_obj(obj: &[char]) -> (r: Option<LayoutEntry>)
    ensures
        match layout_of(obj@) {
            Some((n, d)) => r matches Some(e) && e.name@ == n && e.dsl@ == d,
            None => r is None,
        },
{
    let name = match json_string_field(obj, "name") {
        Some(n) => n,
        None => {
            return None;
        },
    };
    let dsl = match json_string_field(obj, "dsl") {
        Some(d) => d,
        None => {
            return None;
        },
    };
    Some(LayoutEntry { name: string_of(name.as_slice()), dsl: string_of(dsl.as_slice()) })
}

/// Where the scan of a layout list stands: brace depth, the start of the
/// object being read, and the layouts found.
pub struct ScanState {
    pub depth: int,
    pub start: Option<int>,
    pub found: Seq<(Seq<char>, Seq<char>)>,
}

/// The scan after the first `k` characters of `v`: a `{` at depth 1
/// starts an object, a `}` back to depth 1 ends it, and each object that
/// names a layout adds it.
pub open spec fn layout_scan(v: Seq<char>, k: int) -> ScanState
    decreases k,
{
    if k <= 0 {
        ScanState { depth: 0, start: None, found: seq![] }
    } else {
        let st = layout_scan(v, k - 1);
        let c = v[k - 1];
        if c == '{' {
            ScanState {
                depth: st.depth + 1,
                start: if st.depth == 1 {
                    Some(k - 1)
                } else {
                    st.start
                },
                found: st.found,
            }
        } else if c == '}' {
            let d = st.depth - 1;
            if d == 1 && st.start is Some {
                let obj = v.subrange(st.start->0, k);
                ScanState {
                    depth: d,
                    start: None,
                    found: match layout_of(obj) {
                        Some(e) => st.found.push(e),
                        None => st.found,
                    },
                }
            } else {
                ScanState { depth: d, start: st.start, found: st.found }
            }
        } else {
            st
        }
    }
}

/// The layouts of the JSON list in a `blit.layouts` value: none unless the
/// trimmed value starts with `[`.
pub open spec fn layouts_of(val: Seq<char>) -> Seq<(Seq<char>, Seq<char>)> {
    let t = trim(val);
    if t.len() == 0 || t[0] != '[' {
        seq![]
    } else {
        layout_scan(t, t.len() as int).found
    }
}

/// The views of layouts.
pub open spec fn layout_views(v: Seq<LayoutEntry>) -> Seq<(Seq<char>, Seq<char>)> {
    Seq::new(v.len(), |i: int| (v[i].name@, v[i].dsl@))
}

/// Reads the layouts of a `blit.layouts` value.
pub fn parse_layouts_json(val: &str) -> (r: Vec<LayoutEntry>)
    ensures
        layout_views(r@) == layouts_of(val@),
{
    let t = trim_chars(chars_of(val).as_slice());
    let mut entries: Vec<LayoutEntry> = Vec::new();
    if t.len() == 0 || t[0] != '[' {
        assert(layout_views(entries@) =~= Seq::<(Seq<char>, Seq<char>)>::empty());
        return entries;
    }
    let mut depth: i128 = 0;
    let mut start: Option<usize> = None;
    let mut i: usize = 0;
    assert(layout_views(entries@) =~= Seq::<(Seq<char>, Seq<char>)>::empty());
    while i < t.len()
        invariant
            i <= t@.len(),
            -(i as int) <= depth <= i,
            ({
                let st = layout_scan(t@, i as int);
                &&& st.depth == depth
                &&& (match start {
                    Some(s) => st.start == Some(s as int) && s < i,
                    None => st.start is None,
                })
                &&& st.found == layout_views(entries@)
            }),
        decreases t.len() - i,
    {
        let c = t[i];
        if c == '{' {
            if depth == 1 {
                start = Some(i);
            }
            depth += 1;
        } else if c == '}' {
            depth -= 1;
            if depth == 1 {
                match start {
                    Some(s) => {
                        let obj = sub_vec(t.as_slice(), s, i + 1);
                        let ghost prev = layout_views(entries@);
                        match parse_layout_obj(obj.as_slice()) {
                            Some(e) => {
                                let ghost ev = (e.name@, e.dsl@);
                                entries.push(e);
                                assert(layout_views(entries@) =~= prev.push(ev));
                            },
                            None => {},
                        }
                        start = None;
                    },
                    None => {},
                }
            }
        }
        i += 1;
    }
    entries
}


// ───────────────────────────── user settings ─────────────────────────────

/// The user settings of `blit.conf`, as text: the font family, every
/// value given for the font size (in order; the last that reads as a
/// number is the size), the palette, and the layouts.
#[derive(Clone, Debug)]
pub struct UserSettings {
    pub font_family: String,
    pub font_sizes: Vec<String>,
    pub palette: String,
    pub layouts: Vec<LayoutEntry>,
}

/// What the settings say, as text.
pub struct SettingsView {
    pub font_family: Seq<char>,
    pub font_sizes: Seq<Seq<char>>,
    pub palette: Seq<char>,
    pub layouts: Seq<(Seq<char>, Seq<char>)>,
}

impl UserSettings {
    pub open spec fn view_of(self) -> SettingsView {
        SettingsView {
            font_family: self.font_family@,
            font_sizes: views_of_strings(self.font_sizes@),
            palette: self.palette@,
            layouts: layout_views(self.layouts@),
        }
    }
}

/// The views of strings.
pub open spec fn views_of_strings(v: Seq<String>) -> Seq<Seq<char>> {
    Seq::new(v.len(), |i: int| v[i]@)
}

/// The settings before any line: font `monospace`, palette `default`.
pub open spec fn default_settings() -> SettingsView {
    SettingsView { font_family: "monospace"@, font_sizes: seq![], palette: "default"@, layouts: seq![] }
}

/// One line of `blit.conf`: blank lines and lines starting with `#` or `;`
/// are skipped; `key = value` with the keys `blit.fontFamily`,
/// `blit.fontSize`, `blit.palette` and `blit.layouts` sets that setting.
pub open spec fn settings_step(st: SettingsView, line: Seq<char>) -> SettingsView {
    let t = trim(line);
    if t.len() == 0 || t[0] == '#' || t[0] == ';' {
        st
    } else {
        match first_index(t, '=') {
            Some(i) => {
                let key = trim(t.take(i));
                let val = trim(t.skip(i + 1));
                if key == "blit.fontFamily"@ {
                    SettingsView { font_family: val, ..st }
                } else if key == "blit.fontSize"@ {
                    SettingsView { font_sizes: st.font_sizes.push(val), ..st }
                } else if key == "blit.palette"@ {
                    SettingsView { palette: val, ..st }
                } else if key == "blit.layouts"@ {
                    SettingsView { layouts: layouts_of(val), ..st }
                } else {
                    st
                }
            },
            None => st,
        }
    }
}

/// The settings after the lines.
pub open spec fn settings_fold(ls: Seq<Seq<char>>) -> SettingsView
    decreases ls.len(),
{
    if ls.len() == 0 {
        default_settings()
    } else {
        settings_step(settings_fold(ls.drop_last()), ls.last())
    }
}

/// The default settings.
pub fn default_user_settings() -> (r: UserSettings)
    ensures
        r.view_of() == default_settings(),
{
    let r = UserSettings {
        font_family: string_of(chars_of("monospace").as_slice()),
        font_sizes: Vec::new(),
        palette: string_of(chars_of("default").as_slice()),
        layouts: Vec::new(),
    };
    assert(r.view_of().font_sizes =~= Seq::<Seq<char>>::empty());
    assert(r.view_of().layouts =~= Seq::<(Seq<char>, Seq<char>)>::empty());
    r
}

/// Reads the text of `blit.conf`.
pub fn user_settings_from_text(content: &str) -> (r: UserSettings)
    ensures
        r.view_of() == settings_fold(lines_seq(content@)),
{
    let lines = lines_chars(chars_of(content).as_slice());
    let ghost ls = views(lines@);
    let mut cfg = default_user_settings();
    let mut i: usize = 0;
    while i < lines.len()
        invariant
            ls == views(lines@),
            ls == lines_seq(content@),
            i <= ls.len(),
            cfg.view_of() == settings_fold(ls.take(i as int)),
        decreases lines.len() - i,
    {
        assert(ls.take(i + 1).drop_last() =~= ls.take(i as int));
        assert(ls.take(i + 1).last() == ls[i as int]);
        let t = trim_chars(lines[i].as_slice());
        let n = t.len();
        if n > 0 && t[0] != '#' && t[0] != ';' {
            match find_char(t.as_slice(), '=') {
                Some(p) => {
                    proof {
                        lemma_first_index(t@, '=');
                    }
                    let key = trim_chars(sub_vec(t.as_slice(), 0, p).as_slice());
                    let val = trim_chars(sub_vec(t.as_slice(), p + 1, n).as_slice());
                    assert(t@.subrange(0, p as int) =~= t@.take(p as int));
                    assert(t@.subrange(p + 1, n as int) =~= t@.skip(p + 1));
                    if chars_eq_str(key.as_slice(), "blit.fontFamily") {
                        cfg.font_family = string_of(val.as_slice());
                    } else if chars_eq_str(key.as_slice(), "blit.fontSize") {
                        let ghost prev = cfg.view_of().font_sizes;
                        let ghost vv = val@;
                        cfg.font_sizes.push(string_of(val.as_slice()));
                        assert(cfg.view_of().font_sizes =~= prev.push(vv));
                    } else if chars_eq_str(key.as_slice(), "blit.palette") {
                        cfg.palette = string_of(val.as_slice());
                    } else if chars_eq_str(key.as_slice(), "blit.layouts") {
                        cfg.layouts = parse_layouts_json(string_of(val.as_slice()).as_str());
                    }
                },
                None => {},
            }
        }
        i += 1;
    }
    assert(ls.take(ls.len() as int) =~= ls);
    cfg
}

} // verus!
