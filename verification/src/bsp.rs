//! Pane layouts of the desktop client: split directions, the panes of a
//! layout, and the assignment of live sessions to panes.
use vstd::prelude::*;
use crate::session::{key_view, SessionKey};
use crate::text::{append_chars, append_str, char_is_ws, chars_of, dec, dec_u64, is_ws, string_of};

verus! {

/// How a split arranges its children.
#[derive(Clone, Copy, Debug, PartialEq, Eq, Structural)]
pub enum Direction {
    Horizontal,
    Vertical,
    Tabs,
}

/// A pane of a layout: its path id (`0`, `1.0`, ...), its tag, and the
/// command it runs, if it names one.
#[derive(Clone, Debug)]
pub struct Pane {
    pub id: String,
    pub tag: String,
    pub command: Option<String>,
}

/// The index of the first candidate not yet used.
pub open spec fn first_unused(cands: Seq<(Seq<char>, u16)>, used: Set<(Seq<char>, u16)>, from: int) -> Option<int>
    decreases cands.len() - from,
{
    if from < 0 || from >= cands.len() {
        None
    } else if !used.contains(cands[from]) {
        Some(from)
    } else {
        first_unused(cands, used, from + 1)
    }
}

/// The sessions given to the panes (whether each pane runs a command of
/// its own), in pane order, and the sessions used: a pane with a command
/// gets none; any other pane gets the first candidate not given yet, or
/// none when all are given.
pub open spec fn assign_fold(with_command: Seq<bool>, cands: Seq<(Seq<char>, u16)>) -> (Seq<Option<(Seq<char>, u16)>>, Set<(Seq<char>, u16)>)
    decreases with_command.len(),
{
    if with_command.len() == 0 {
        (seq![], Set::empty())
    } else {
        let (a, used) = assign_fold(with_command.drop_last(), cands);
        if with_command.last() {
            (a.push(None), used)
        } else {
            match first_unused(cands, used, 0) {
                Some(i) => (a.push(Some(cands[i])), used.insert(cands[i])),
                None => (a.push(None), used),
            }
        }
    }
}

/// The candidates in order of preference: the focused session, then the
/// recently used ones, then the live ones.
pub open spec fn candidates(live: Seq<SessionKey>, focused: Option<SessionKey>, lru: Seq<SessionKey>) -> Seq<(Seq<char>, u16)> {
    let f = match focused {
        Some(k) => seq![key_view(k)],
        None => seq![],
    };
    f + Seq::new(lru.len(), |i: int| key_view(lru[i])) + Seq::new(live.len(), |i: int| key_view(live[i]))
}

/// Whether each pane runs a command of its own.
pub open spec fn pane_commands(panes: Seq<Pane>) -> Seq<bool> {
    Seq::new(panes.len(), |i: int| panes[i].command is Some)
}

/// The views of assignments.
pub open spec fn assignment_views(v: Seq<(String, Option<SessionKey>)>) -> Seq<Option<(Seq<char>, u16)>> {
    Seq::new(v.len(), |i: int| match v[i].1 {
        Some(k) => Some(key_view(k)),
        None => None,
    })
}

fn contains_key(used: &Vec<SessionKey>, k: &SessionKey) -> (r: bool)
    ensures
        r == Seq::new(used@.len(), |i: int| key_view(used@[i])).contains(key_view(*k)),
{
    let ghost s = Seq::new(used@.len(), |i: int| key_view(used@[i]));
    let mut i: usize = 0;
    while i < used.len()
        invariant
            i <= used@.len(),
            s == Seq::new(used@.len(), |i: int| key_view(used@[i])),
            forall|j: int| 0 <= j < i ==> s[j] != key_view(*k),
        decreases used.len() - i,
    {
        if used[i].same(k) {
            assert(s[i as int] == key_view(*k));
            return true;
        }
        i += 1;
    }
    false
}

/// Gives live sessions to the panes of a layout, pane by pane: a pane
/// that runs its own command gets none, any other the first session not
/// given yet among the focused one, the recently used ones and the live
/// ones, or none. The result lists each pane's id with its session, in
/// pane order.
pub fn assign_sessions(panes: &[Pane], live: &[SessionKey], focused: Option<&SessionKey>, lru: &[SessionKey]) -> (r: Vec<(String, Option<SessionKey>)>)
    ensures
        r@.len() == panes@.len(),
        forall|i: int| 0 <= i < panes@.len() ==> (#[trigger] r@[i]).0@ == panes@[i].id@,
        assignment_views(r@) == assign_fold(
            pane_commands(panes@),
            candidates(live@, match focused {
                Some(k) => Some(*k),
                None => None,
            }, lru@),
        ).0,
{
    let ghost fo = match focused {
        Some(k) => Some(*k),
        None => None,
    };
    let ghost cs = candidates(live@, fo, lru@);
    let mut cands: Vec<SessionKey> = Vec::new();
    match focused {
        Some(f) => {
            cands.push(f.duplicate());
        },
        None => {},
    }
    let mut i: usize = 0;
    while i < lru.len()
        invariant
            i <= lru@.len(),
            Seq::new(cands@.len(), |j: int| key_view(cands@[j])) == (match fo {
                Some(k) => seq![key_view(k)],
                None => Seq::<(Seq<char>, u16)>::empty(),
            }) + Seq::new(i as nat, |j: int| key_view(lru@[j])),
        decreases lru.len() - i,
    {
        let ghost prev = cands@;
        let ghost prevs = Seq::new(prev.len(), |j: int| key_view(prev[j]));
        cands.push(lru[i].duplicate());
        assert(Seq::new(cands@.len(), |j: int| key_view(cands@[j])) =~= prevs.push(key_view(lru@[i as int])));
        assert(Seq::new((i + 1) as nat, |j: int| key_view(lru@[j])) =~= Seq::new(i as nat, |j: int| key_view(lru@[j])).push(key_view(lru@[i as int])));
        i += 1;
    }
    let mut i: usize = 0;
    while i < live.len()
        invariant
            i <= live@.len(),
            Seq::new(cands@.len(), |j: int| key_view(cands@[j])) == (match fo {
                Some(k) => seq![key_view(k)],
                None => Seq::<(Seq<char>, u16)>::empty(),
            }) + Seq::new(lru@.len(), |j: int| key_view(lru@[j])) + Seq::new(i as nat, |j: int| key_view(live@[j])),
        decreases live.len() - i,
    {
        let ghost prev = cands@;
        let ghost prevs = Seq::new(prev.len(), |j: int| key_view(prev[j]));
        cands.push(live[i].duplicate());
        assert(Seq::new(cands@.len(), |j: int| key_view(cands@[j])) =~= prevs.push(key_view(live@[i as int])));
        assert(Seq::new((i + 1) as nat, |j: int| key_view(live@[j])) =~= Seq::new(i as nat, |j: int| key_view(live@[j])).push(key_view(live@[i as int])));
        i += 1;
    }
    assert(Seq::new(cands@.len(), |j: int| key_view(cands@[j])) =~= cs);
    let mut used: Vec<SessionKey> = Vec::new();
    let mut out: Vec<(String, Option<SessionKey>)> = Vec::new();
    let mut p: usize = 0;
    while p < panes.len()
        invariant
            p <= panes@.len(),
            Seq::new(cands@.len(), |j: int| key_view(cands@[j])) == cs,
            out@.len() == p,
            forall|j: int| 0 <= j < p ==> (#[trigger] out@[j]).0@ == panes@[j].id@,
            assignment_views(out@) == assign_fold(pane_commands(panes@).take(p as int), cs).0,
            Seq::new(used@.len(), |j: int| key_view(used@[j])).to_set() == assign_fold(
                pane_commands(panes@).take(p as int),
                cs,
            ).1,
        decreases panes.len() - p,
    {
        let ghost pc = pane_commands(panes@);
        assert(pc.take(p + 1).drop_last() =~= pc.take(p as int));
        assert(pc.take(p + 1).last() == (panes@[p as int].command is Some));
        let ghost prev_out = out@;
        let ghost prev_used = Seq::new(used@.len(), |j: int| key_view(used@[j]));
        let ghost st = assign_fold(pc.take(p as int), cs);
        let id = panes[p].id.clone();
        if panes[p].command.is_some() {
            out.push((id, None));
            assert(assignment_views(out@) =~= assignment_views(prev_out).push(None));
        } else {
            let mut k: usize = 0;
            let mut chosen: Option<usize> = None;
            while k < cands.len()
                invariant
                    k <= cands@.len(),
                    Seq::new(cands@.len(), |j: int| key_view(cands@[j])) == cs,
                    prev_used == Seq::new(used@.len(), |j: int| key_view(used@[j])),
                    prev_used.to_set() == st.1,
                    chosen is None ==> first_unused(cs, st.1, 0) == first_unused(cs, st.1, k as int),
                    chosen matches Some(c) ==> first_unused(cs, st.1, 0) == Some(c as int) && c < cands@.len(),
                decreases cands.len() - k,
            {
                if chosen.is_none() {
                    let u = contains_key(&used, &cands[k]);
                    assert(cs[k as int] == key_view(cands@[k as int]));
                    if !u {
                        chosen = Some(k);
                    }
                }
                k += 1;
            }
            match chosen {
                Some(c) => {
                    let key = cands[c].duplicate();
                    let key2 = cands[c].duplicate();
                    assert(cs[c as int] == key_view(cands@[c as int]));
                    used.push(key);
                    out.push((id, Some(key2)));
                    assert(Seq::new(used@.len(), |j: int| key_view(used@[j])) =~= prev_used.push(cs[c as int]));
                    proof {
                        prev_used.lemma_push_to_set_commute(cs[c as int]);
                    }
                    assert(assignment_views(out@) =~= assignment_views(prev_out).push(Some(cs[c as int])));
                },
                None => {
                    out.push((id, None));
                    assert(assignment_views(out@) =~= assignment_views(prev_out).push(None));
                },
            }
        }
        p += 1;
    }
    assert(pane_commands(panes@).take(panes@.len() as int) =~= pane_commands(panes@));
    out
}



proof fn lemma_first_unused(cands: Seq<(Seq<char>, u16)>, used: Set<(Seq<char>, u16)>, from: int)
    ensures
        first_unused(cands, used, from) matches Some(i) ==> 0 <= i < cands.len() && !used.contains(cands[i]),
    decreases cands.len() - from,
{
    if 0 <= from < cands.len() && used.contains(cands[from]) {
        lemma_first_unused(cands, used, from + 1);
    }
}

proof fn lemma_assign_fold(with_command: Seq<bool>, cands: Seq<(Seq<char>, u16)>)
    ensures
        ({
            let (a, used) = assign_fold(with_command, cands);
            &&& a.len() == with_command.len()
            &&& forall|i: int| 0 <= i < a.len() && a[i] is Some ==> used.contains(#[trigger] a[i]->0)
            &&& forall|i: int, j: int|
                0 <= i < j < a.len() && a[i] is Some && a[j] is Some ==> #[trigger] a[i] != #[trigger] a[j]
        }),
    decreases with_command.len(),
{
    if with_command.len() > 0 {
        lemma_assign_fold(with_command.drop_last(), cands);
        let (a0, used0) = assign_fold(with_command.drop_last(), cands);
        lemma_first_unused(cands, used0, 0);
        let (a, used) = assign_fold(with_command, cands);
        assert forall|i: int| 0 <= i < a.len() && a[i] is Some implies used.contains(#[trigger] a[i]->0) by {
            if i < a0.len() {
                assert(a[i] == a0[i]);
            }
        }
        assert forall|i: int, j: int| 0 <= i < j < a.len() && a[i] is Some && a[j] is Some implies #[trigger] a[i]
            != #[trigger] a[j] by {
            if j < a0.len() {
                assert(a[i] == a0[i] && a[j] == a0[j]);
            } else {
                assert(a[i] == a0[i]);
                assert(used0.contains(a0[i]->0));
            }
        }
    }
}

/// A session goes to one pane at most.
pub proof fn session_assigned_once(with_command: Seq<bool>, cands: Seq<(Seq<char>, u16)>)
    ensures
        ({
            let a = assign_fold(with_command, cands).0;
            forall|i: int, j: int|
                0 <= i < j < a.len() && a[i] is Some && a[j] is Some ==> #[trigger] a[i] != #[trigger] a[j]
        }),
{
    lemma_assign_fold(with_command, cands);
}

// ───────────────────────────── layout trees ─────────────────────────────

/// A node of a layout tree: a split of two or more children (any number
/// for tabs), or a pane with its tag and the command it runs.
#[derive(Debug)]
pub enum BspNode {
    Split { direction: Direction, children: Vec<BspChild> },
    Leaf { tag: String, command: Option<String> },
}

/// A child of a split: its node, its weight as written in the layout text
/// (none for the default weight of one), and its label.
#[derive(Debug)]
pub struct BspChild {
    pub node: BspNode,
    pub weight: Option<String>,
    pub label: Option<String>,
}

/// The model of a layout node.
pub enum NodeV {
    Split { direction: Direction, children: Seq<ChildV> },
    Leaf { tag: Seq<char>, command: Option<Seq<char>> },
}

/// The model of a child of a split.
pub struct ChildV {
    pub node: NodeV,
    pub weight: Option<Seq<char>>,
    pub label: Option<Seq<char>>,
}

/// The text of an optional string.
pub open spec fn opt_view(o: Option<String>) -> Option<Seq<char>> {
    match o {
        Some(s) => Some(s@),
        None => None,
    }
}

/// The model of a layout node.
pub open spec fn node_view(n: BspNode) -> NodeV
    decreases n,
{
    match n {
        BspNode::Split { direction, children } => NodeV::Split {
            direction,
            children: children_view(children@),
        },
        BspNode::Leaf { tag, command } => NodeV::Leaf { tag: tag@, command: opt_view(command) },
    }
}

/// The models of the children of a split, in order.
pub open spec fn children_view(cs: Seq<BspChild>) -> Seq<ChildV>
    decreases cs,
{
    if cs.len() == 0 {
        seq![]
    } else {
        children_view(cs.drop_last()).push(
            ChildV {
                node: node_view(cs.last().node),
                weight: opt_view(cs.last().weight),
                label: opt_view(cs.last().label),
            },
        )
    }
}

/// The model of a child of a split.
pub open spec fn child_view(c: BspChild) -> ChildV {
    ChildV { node: node_view(c.node), weight: opt_view(c.weight), label: opt_view(c.label) }
}

/// One model per child.
pub proof fn lemma_children_view_len(cs: Seq<BspChild>)
    ensures
        children_view(cs).len() == cs.len(),
    decreases cs.len(),
{
    if cs.len() > 0 {
        lemma_children_view_len(cs.drop_last());
    }
}

/// Adding a child adds its model.
pub proof fn lemma_children_view_push(cs: Seq<BspChild>, c: BspChild)
    ensures
        children_view(cs.push(c)) == children_view(cs).push(child_view(c)),
{
    assert(cs.push(c).drop_last() =~= cs);
}


// ───────────────────────────── layout text ─────────────────────────────

/// The characters that a bare name cannot hold.
pub open spec fn is_special(c: char) -> bool {
    c == '(' || c == ')' || c == ',' || c == '@' || c == '\'' || c == '"' || c == '\\' || c == ':'
        || c == '='
}

/// Whether a name must be written in quotes: it holds white space or a
/// special character.
pub open spec fn needs_quotes(s: Seq<char>) -> bool {
    exists|i: int| 0 <= i < s.len() && (is_ws(#[trigger] s[i]) || is_special(s[i]))
}

/// A character inside quotes: backslash and double quote get a backslash.
pub open spec fn escape_char(c: char) -> Seq<char> {
    if c == '\\' {
        seq!['\\', '\\']
    } else if c == '"' {
        seq!['\\', '"']
    } else {
        seq![c]
    }
}

/// The characters of `s`, escaped.
pub open spec fn escaped(s: Seq<char>) -> Seq<char>
    decreases s.len(),
{
    if s.len() == 0 {
        seq![]
    } else {
        escaped(s.drop_last()) + escape_char(s.last())
    }
}

/// A name as the layout text writes it: in double quotes, escaped, when
/// it needs them, else as it is.
pub open spec fn quoted_name(s: Seq<char>) -> Seq<char> {
    if needs_quotes(s) {
        seq!['"'] + escaped(s) + seq!['"']
    } else {
        s
    }
}

/// The keyword of a split direction.
pub open spec fn keyword(d: Direction) -> Seq<char> {
    match d {
        Direction::Horizontal => seq!['l', 'i', 'n', 'e'],
        Direction::Vertical => seq!['c', 'o', 'l'],
        Direction::Tabs => seq!['t', 'a', 'b', 's'],
    }
}

/// A child in the layout text, around the text of its node: its label
/// and `: ` before, a space and its weight after.
pub open spec fn child_text(label: Option<Seq<char>>, node: Seq<char>, weight: Option<Seq<char>>) -> Seq<char> {
    let l = match label {
        Some(t) => quoted_name(t) + seq![':', ' '],
        None => seq![],
    };
    let w = match weight {
        Some(t) => seq![' '] + t,
        None => seq![],
    };
    l + node + w
}

/// The layout text of a node: a pane is its quoted tag, then `=` and its
/// quoted command if it has one; a split is its keyword and its children
/// in brackets, separated by `, `.
pub open spec fn node_text(n: NodeV) -> Seq<char>
    decreases n,
{
    match n {
        NodeV::Leaf { tag, command } => quoted_name(tag) + match command {
            Some(c) => seq!['='] + quoted_name(c),
            None => seq![],
        },
        NodeV::Split { direction, children } => keyword(direction) + seq!['('] + children_text(
            children,
        ) + seq![')'],
    }
}

/// The children of a split in the layout text, separated by `, `.
pub open spec fn children_text(cs: Seq<ChildV>) -> Seq<char>
    decreases cs,
{
    if cs.len() == 0 {
        seq![]
    } else {
        let last = child_text(cs.last().label, node_text(cs.last().node), cs.last().weight);
        if cs.len() == 1 {
            last
        } else {
            children_text(cs.drop_last()) + seq![',', ' '] + last
        }
    }
}

fn is_special_char(c: char) -> (r: bool)
    ensures
        r == is_special(c),
{
    c == '(' || c == ')' || c == ',' || c == '@' || c == '\'' || c == '"' || c == '\\' || c == ':'
        || c == '='
}

/// Appends `s` as a name of the layout text: quoted and escaped where it
/// holds white space or a special character.
pub fn push_quoted(out: &mut Vec<char>, s: &str)
    ensures
        final(out)@ == old(out)@ + quoted_name(s@),
{
    let cs = chars_of(s);
    let n = cs.len();
    let mut needs = false;
    let mut i: usize = 0;
    while i < n
        invariant
            n == cs@.len(),
            cs@ == s@,
            i <= n,
            needs == (exists|j: int| 0 <= j < i && (is_ws(#[trigger] cs@[j]) || is_special(cs@[j]))),
        decreases n - i,
    {
        if char_is_ws(cs[i]) || is_special_char(cs[i]) {
            needs = true;
        }
        i += 1;
    }
    if !needs {
        let mut k: usize = 0;
        while k < n
            invariant
                n == cs@.len(),
                k <= n,
                out@ == old(out)@ + cs@.take(k as int),
            decreases n - k,
        {
            out.push(cs[k]);
            assert(cs@.take(k + 1) =~= cs@.take(k as int).push(cs@[k as int]));
            k += 1;
        }
        assert(cs@.take(n as int) =~= cs@);
        return;
    }
    out.push('"');
    let ghost start = out@;
    let mut k: usize = 0;
    while k < n
        invariant
            n == cs@.len(),
            k <= n,
            out@ == start + escaped(cs@.take(k as int)),
        decreases n - k,
    {
        let c = cs[k];
        assert(cs@.take(k + 1).drop_last() =~= cs@.take(k as int));
        if c == '\\' {
            out.push('\\');
            out.push('\\');
        } else if c == '"' {
            out.push('\\');
            out.push('"');
        } else {
            out.push(c);
        }
        assert(out@ =~= start + escaped(cs@.take(k + 1)));
        k += 1;
    }
    assert(cs@.take(n as int) =~= cs@);
    out.push('"');
    assert(out@ =~= old(out)@ + quoted_name(s@));
}

/// A name as the layout text writes it.
pub fn quote_if_needed(s: &str) -> (r: String)
    ensures
        r@ == quoted_name(s@),
{
    let mut out: Vec<char> = Vec::new();
    push_quoted(&mut out, s);
    string_of(out.as_slice())
}


proof fn lemma_child_smaller(n: BspNode, i: int)
    requires
        n is Split,
        0 <= i < n->children@.len(),
    ensures
        decreases_to!(n => n->children@[i].node),
{
    let cs = n->children;
    assert(decreases_to!(n => n->children));
    assert(decreases_to!(cs => cs@));
    assert(decreases_to!(cs@ => cs@[i]));
    assert(decreases_to!(cs@[i] => cs@[i].node));
}

fn push_keyword(out: &mut Vec<char>, d: Direction)
    ensures
        final(out)@ == old(out)@ + keyword(d),
{
    match d {
        Direction::Horizontal => {
            out.push('l');
            out.push('i');
            out.push('n');
            out.push('e');
        },
        Direction::Vertical => {
            out.push('c');
            out.push('o');
            out.push('l');
        },
        Direction::Tabs => {
            out.push('t');
            out.push('a');
            out.push('b');
            out.push('s');
        },
    }
    assert(out@ =~= old(out)@ + keyword(d));
}

/// Appends the layout text of `n`.
fn push_node(out: &mut Vec<char>, n: &BspNode)
    ensures
        final(out)@ == old(out)@ + node_text(node_view(*n)),
    decreases n,
{
    match n {
        BspNode::Leaf { tag, command } => {
            push_quoted(out, tag.as_str());
            match command {
                Some(c) => {
                    out.push('=');
                    push_quoted(out, c.as_str());
                },
                None => {},
            }
            assert(out@ =~= old(out)@ + node_text(node_view(*n)));
        },
        BspNode::Split { direction, children } => {
            push_keyword(out, *direction);
            out.push('(');
            let ghost start = out@;
            let mut i: usize = 0;
            while i < children.len()
                invariant
                    i <= children@.len(),
                    *n == (BspNode::Split { direction: *direction, children: *children }),
                    out@ == start + children_text(children_view(children@.take(i as int))),
                decreases children.len() - i,
            {
                let ghost before = out@;
                let ghost prefix = children@.take(i as int);
                assert(children@.take(i + 1) =~= prefix.push(children@[i as int]));
                proof {
                    lemma_children_view_push(prefix, children@[i as int]);
                    lemma_children_view_len(prefix);
                    let cv = children_view(prefix).push(child_view(children@[i as int]));
                    assert(cv.drop_last() =~= children_view(prefix));
                    lemma_child_smaller(*n, i as int);
                }
                if i > 0 {
                    out.push(',');
                    out.push(' ');
                }
                let c = &children[i];
                let ghost mid = out@;
                match &c.label {
                    Some(l) => {
                        push_quoted(out, l.as_str());
                        out.push(':');
                        out.push(' ');
                    },
                    None => {},
                }
                let ghost lab = out@;
                push_node(out, &c.node);
                match &c.weight {
                    Some(w) => {
                        out.push(' ');
                        append_str(out, w.as_str());
                    },
                    None => {},
                }
                let ghost part = child_text(opt_view(c.label), node_text(node_view(c.node)), opt_view(c.weight));
                assert(out@ =~= mid + part);
                assert(out@ =~= start + children_text(children_view(children@.take(i + 1))));
                i += 1;
            }
            assert(children@.take(children@.len() as int) =~= children@);
            out.push(')');
            assert(out@ =~= old(out)@ + node_text(node_view(*n)));
        },
    }
}

/// The layout text of a tree: `line(..)`, `col(..)` and `tabs(..)` for the
/// splits, names in quotes where they need them, labels before and weights
/// after the children.
pub fn serialize_dsl(node: &BspNode) -> (r: String)
    ensures
        r@ == node_text(node_view(*node)),
{
    let mut out: Vec<char> = Vec::new();
    push_node(&mut out, node);
    assert(out@ =~= node_text(node_view(*node)));
    string_of(out.as_slice())
}


// ───────────────────────────── panes ─────────────────────────────

/// The path id of the `i`-th child of the node at `prefix`: `i` at the
/// root, else `prefix.i`.
pub open spec fn child_path(prefix: Seq<char>, i: nat) -> Seq<char> {
    if prefix.len() == 0 {
        dec(i)
    } else {
        prefix + seq!['.'] + dec(i)
    }
}

/// The model of a pane: its id, tag and command.
pub open spec fn pane_view(p: Pane) -> (Seq<char>, Seq<char>, Option<Seq<char>>) {
    (p.id@, p.tag@, opt_view(p.command))
}

/// The models of a list of panes.
pub open spec fn panes_view(ps: Seq<Pane>) -> Seq<(Seq<char>, Seq<char>, Option<Seq<char>>)> {
    Seq::new(ps.len(), |i: int| pane_view(ps[i]))
}

/// The panes of a node at `prefix`, left to right: a pane's id is its
/// path (`0` for a tree that is one pane).
pub open spec fn panes_of(n: NodeV, prefix: Seq<char>) -> Seq<(Seq<char>, Seq<char>, Option<Seq<char>>)>
    decreases n,
{
    match n {
        NodeV::Leaf { tag, command } => seq![
            (if prefix.len() == 0 {
                seq!['0']
            } else {
                prefix
            }, tag, command),
        ],
        NodeV::Split { children, .. } => children_panes(children, prefix),
    }
}

/// The panes of the children of the split at `prefix`.
pub open spec fn children_panes(cs: Seq<ChildV>, prefix: Seq<char>) -> Seq<(Seq<char>, Seq<char>, Option<Seq<char>>)>
    decreases cs,
{
    if cs.len() == 0 {
        seq![]
    } else {
        children_panes(cs.drop_last(), prefix) + panes_of(
            cs.last().node,
            child_path(prefix, (cs.len() - 1) as nat),
        )
    }
}

fn clone_opt(o: &Option<String>) -> (r: Option<String>)
    ensures
        opt_view(r) == opt_view(*o),
{
    match o {
        Some(s) => Some(s.clone()),
        None => None,
    }
}

fn collect_panes(n: &BspNode, prefix: &Vec<char>, panes: &mut Vec<Pane>)
    ensures
        panes_view(final(panes)@) == panes_view(old(panes)@) + panes_of(node_view(*n), prefix@),
    decreases n,
{
    match n {
        BspNode::Leaf { tag, command } => {
            let id = if prefix.len() == 0 {
                let mut z: Vec<char> = Vec::new();
                z.push('0');
                string_of(z.as_slice())
            } else {
                string_of(prefix.as_slice())
            };
            let ghost before = panes@;
            panes.push(Pane { id, tag: tag.clone(), command: clone_opt(command) });
            assert(panes_view(panes@) =~= panes_view(old(panes)@) + panes_of(node_view(*n), prefix@));
        },
        BspNode::Split { direction, children } => {
            let ghost start = panes_view(panes@);
            let mut i: usize = 0;
            while i < children.len()
                invariant
                    i <= children@.len(),
                    *n == (BspNode::Split { direction: *direction, children: *children }),
                    panes_view(panes@) == start + children_panes(
                        children_view(children@.take(i as int)),
                        prefix@,
                    ),
                decreases children.len() - i,
            {
                let ghost prefix_children = children@.take(i as int);
                assert(children@.take(i + 1) =~= prefix_children.push(children@[i as int]));
                proof {
                    lemma_children_view_push(prefix_children, children@[i as int]);
                    lemma_children_view_len(prefix_children);
                    let cv = children_view(prefix_children).push(child_view(children@[i as int]));
                    assert(cv.drop_last() =~= children_view(prefix_children));
                    lemma_child_smaller(*n, i as int);
                }
                let mut path: Vec<char> = Vec::new();
                if prefix.len() > 0 {
                    append_chars(&mut path, prefix.as_slice());
                    path.push('.');
                }
                let d = dec_u64(i as u64);
                append_chars(&mut path, d.as_slice());
                assert(path@ =~= child_path(prefix@, i as nat));
                let ghost mid = panes_view(panes@);
                collect_panes(&children[i].node, &path, panes);
                assert(panes_view(panes@) =~= start + children_panes(
                    children_view(children@.take(i + 1)),
                    prefix@,
                ));
                i += 1;
            }
            assert(children@.take(children@.len() as int) =~= children@);
        },
    }
}

/// The panes of a layout tree, left to right, each with its path id.
pub fn enumerate_panes(node: &BspNode) -> (r: Vec<Pane>)
    ensures
        panes_view(r@) == panes_of(node_view(*node), seq![]),
{
    let mut panes: Vec<Pane> = Vec::new();
    let root: Vec<char> = Vec::new();
    assert(root@ =~= Seq::<char>::empty());
    collect_panes(node, &root, &mut panes);
    assert(panes_view(Seq::<Pane>::empty()) =~= Seq::empty());
    assert(panes_view(panes@) =~= panes_of(node_view(*node), seq![]));
    panes
}

} // verus!
