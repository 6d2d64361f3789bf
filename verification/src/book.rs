//! The desktop client's book of sessions as servers announce, create and
//! close them: which sessions it holds a terminal for, which it used most
//! recently, which one has the focus, and what it asks of the servers in
//! return.
use vstd::prelude::*;
use crate::session::{key_view, SessionKey};

verus! {

/// A request to the server a session lives on.
#[derive(Clone, Copy, Debug, PartialEq, Eq, Structural)]
pub enum BookCommand {
    /// Send this session's frames.
    Subscribe(u16),
    /// This session has the client's focus.
    Focus(u16),
    /// Size this session to the client's terminal area.
    Resize { pty_id: u16, rows: u16, cols: u16 },
}

/// The sessions the client holds, the most recently used first, and the
/// focused one.
pub struct SessionBook {
    pub sessions: Vec<SessionKey>,
    pub lru: Vec<SessionKey>,
    pub focused: Option<SessionKey>,
}

/// The views of a run of keys.
pub open spec fn keys_of(v: Seq<SessionKey>) -> Seq<(Seq<char>, u16)> {
    v.map_values(|k: SessionKey| key_view(k))
}

/// No key occurs twice.
pub open spec fn distinct_keys(v: Seq<SessionKey>) -> bool {
    forall|i: int, j: int| 0 <= i < j < v.len() ==> key_view(v[i]) != key_view(v[j])
}

/// Some key of `v` is `k`.
pub open spec fn holds_key(v: Seq<SessionKey>, k: (Seq<char>, u16)) -> bool {
    exists|i: int| 0 <= i < v.len() && key_view(v[i]) == k
}

/// The sessions held, as a set.
pub open spec fn held(v: Seq<SessionKey>) -> Set<(Seq<char>, u16)> {
    Set::new(|k: (Seq<char>, u16)| holds_key(v, k))
}

/// The view of an optional key.
pub open spec fn opt_key(o: Option<SessionKey>) -> Option<(Seq<char>, u16)> {
    match o {
        Some(k) => Some(key_view(k)),
        None => None,
    }
}

/// `s` without `k`, in order.
pub open spec fn without(s: Seq<(Seq<char>, u16)>, k: (Seq<char>, u16)) -> Seq<(Seq<char>, u16)>
    decreases s.len(),
{
    if s.len() == 0 {
        s
    } else if s.last() == k {
        without(s.drop_last(), k)
    } else {
        without(s.drop_last(), k).push(s.last())
    }
}

/// The book after a session list from `remote`, and the requests it makes:
/// each listed session not yet held is taken in and subscribed to; with no
/// session focused, the first listed takes the focus and is sized.
pub open spec fn list_fold(
    known: Set<(Seq<char>, u16)>,
    focused: Option<(Seq<char>, u16)>,
    remote: Seq<char>,
    ids: Seq<u16>,
    size: (u16, u16),
) -> (Set<(Seq<char>, u16)>, Option<(Seq<char>, u16)>, Seq<BookCommand>)
    decreases ids.len(),
{
    if ids.len() == 0 {
        (known, focused, seq![])
    } else {
        let (kn, fo, cmds) = list_fold(known, focused, remote, ids.drop_last(), size);
        let p = ids.last();
        let k = (remote, p);
        let (kn2, c1) = if kn.contains(k) {
            (kn, seq![])
        } else {
            (kn.insert(k), seq![BookCommand::Subscribe(p)])
        };
        let (fo2, c2) = if fo is None {
            (Some(k), seq![BookCommand::Focus(p), BookCommand::Resize { pty_id: p, rows: size.0, cols: size.1 }])
        } else {
            (fo, seq![])
        };
        (kn2, fo2, cmds + c1 + c2)
    }
}

/// Where the key `k` stands in `v`, if it is there.
fn find_key(v: &Vec<SessionKey>, k: &SessionKey) -> (r: Option<usize>)
    ensures
        r is None ==> !holds_key(v@, key_view(*k)),
        r matches Some(i) ==> i < v@.len() && key_view(v@[i as int]) == key_view(*k),
{
    let mut i: usize = 0;
    while i < v.len()
        invariant
            i <= v@.len(),
            forall|m: int| 0 <= m < i ==> key_view(v@[m]) != key_view(*k),
        decreases v@.len() - i,
    {
        if v[i].same(k) {
            return Some(i);
        }
        i += 1;
    }
    None
}

/// Removes the key `k` from `v`, if it is there.
fn remove_key(v: &mut Vec<SessionKey>, k: &SessionKey)
    requires
        distinct_keys(old(v)@),
    ensures
        distinct_keys(final(v)@),
        keys_of(final(v)@) == without(keys_of(old(v)@), key_view(*k)),
{
    let ghost o = v@;
    match find_key(v, k) {
        Some(i) => {
            v.remove(i);
            proof {
                lemma_without_at(o, i as int);
                lemma_remove_distinct(o, i as int);
            }
        },
        None => {
            proof {
                lemma_without_absent(o, key_view(*k));
            }
        },
    }
}

/// Taking out a key that is not there changes nothing.
proof fn lemma_without_absent(v: Seq<SessionKey>, k: (Seq<char>, u16))
    requires
        !holds_key(v, k),
    ensures
        without(keys_of(v), k) == keys_of(v),
    decreases v.len(),
{
    if v.len() > 0 {
        let d = v.drop_last();
        assert(!holds_key(d, k)) by {
            if holds_key(d, k) {
                let i = choose|i: int| 0 <= i < d.len() && key_view(d[i]) == k;
                assert(key_view(v[i]) == k);
            }
        }
        lemma_without_absent(d, k);
        assert(keys_of(v).drop_last() =~= keys_of(d));
        assert(keys_of(v).last() != k) by {
            assert(key_view(v[v.len() - 1]) == keys_of(v).last());
        }
        assert(keys_of(v) =~= keys_of(d).push(keys_of(v).last()));
    }
}

/// Taking out the key at `i` of distinct keys removes position `i`.
proof fn lemma_without_at(v: Seq<SessionKey>, i: int)
    requires
        distinct_keys(v),
        0 <= i < v.len(),
    ensures
        without(keys_of(v), key_view(v[i])) == keys_of(v.remove(i)),
    decreases v.len(),
{
    let k = key_view(v[i]);
    let d = v.drop_last();
    assert(keys_of(v).drop_last() =~= keys_of(d));
    assert(keys_of(v).last() == key_view(v[v.len() - 1]));
    if i == v.len() - 1 {
        assert(!holds_key(d, k)) by {
            if holds_key(d, k) {
                let j = choose|j: int| 0 <= j < d.len() && key_view(d[j]) == k;
                assert(key_view(v[j]) != key_view(v[i]));
            }
        }
        lemma_without_absent(d, k);
        assert(v.remove(i) =~= d);
    } else {
        assert(distinct_keys(d)) by {
            assert forall|a: int, b: int| 0 <= a < b < d.len() implies key_view(d[a]) != key_view(d[b]) by {
                assert(d[a] == v[a] && d[b] == v[b]);
            }
        }
        assert(d[i] == v[i]);
        lemma_without_at(d, i);
        assert(key_view(v[v.len() - 1]) != k);
        assert(v.remove(i) =~= d.remove(i).push(v.last()));
        assert(keys_of(v.remove(i)) =~= keys_of(d.remove(i)).push(keys_of(v).last()));
    }
}

/// Removing a position keeps keys distinct.
proof fn lemma_remove_distinct(v: Seq<SessionKey>, i: int)
    requires
        distinct_keys(v),
        0 <= i < v.len(),
    ensures
        distinct_keys(v.remove(i)),
{
    let r = v.remove(i);
    assert forall|a: int, b: int| 0 <= a < b < r.len() implies key_view(r[a]) != key_view(r[b]) by {
        let a2 = if a < i { a } else { a + 1 };
        let b2 = if b < i { b } else { b + 1 };
        assert(r[a] == v[a2] && r[b] == v[b2]);
    }
}

impl SessionBook {
    /// No session is held twice, nor listed twice among the recently used.
    pub open spec fn wf(&self) -> bool {
        distinct_keys(self.sessions@) && distinct_keys(self.lru@)
    }

    /// An empty book.
    pub fn new() -> (r: SessionBook)
        ensures
            r.wf(),
            r.sessions@.len() == 0,
            r.lru@.len() == 0,
            r.focused is None,
    {
        SessionBook { sessions: Vec::new(), lru: Vec::new(), focused: None }
    }

    /// Makes `k` the most recently used session.
    pub fn push_lru(&mut self, k: &SessionKey)
        requires
            old(self).wf(),
        ensures
            final(self).wf(),
            keys_of(final(self).lru@) == seq![key_view(*k)] + without(keys_of(old(self).lru@), key_view(*k)),
            final(self).sessions@ == old(self).sessions@,
            final(self).focused == old(self).focused,
    {
        let ghost o = self.lru@;
        remove_key(&mut self.lru, k);
        let ghost mid = self.lru@;
        self.lru.insert(0, k.duplicate());
        proof {
            assert(keys_of(self.lru@) =~= seq![key_view(*k)] + keys_of(mid));
            lemma_without_gone(keys_of(o), key_view(*k));
            assert forall|a: int, b: int| 0 <= a < b < self.lru@.len() implies key_view(self.lru@[a]) != key_view(self.lru@[b]) by {
                if a == 0 {
                    assert(key_view(self.lru@[b]) == keys_of(mid)[b - 1]);
                    assert(!without(keys_of(o), key_view(*k)).contains(key_view(*k)));
                } else {
                    assert(self.lru@[a] == mid[a - 1] && self.lru@[b] == mid[b - 1]);
                }
            }
        }
    }
}

/// Taking in a key not yet held adds it to the set held.
proof fn lemma_held_push(v: Seq<SessionKey>, k: SessionKey)
    ensures
        held(v.push(k)) == held(v).insert(key_view(k)),
{
    let w = v.push(k);
    assert forall|x: (Seq<char>, u16)| held(w).contains(x) <==> held(v).insert(key_view(k)).contains(x) by {
        if holds_key(v, x) {
            let i = choose|i: int| 0 <= i < v.len() && key_view(v[i]) == x;
            assert(w[i] == v[i]);
        }
        if holds_key(w, x) {
            let i = choose|i: int| 0 <= i < w.len() && key_view(w[i]) == x;
            if i < v.len() {
                assert(w[i] == v[i]);
            }
        }
        if x == key_view(k) {
            assert(w[v.len() as int] == k);
        }
    }
    assert(held(w) =~= held(v).insert(key_view(k)));
}

/// Removing the key at `i` of distinct keys removes it from the set held.
proof fn lemma_held_remove(v: Seq<SessionKey>, i: int)
    requires
        distinct_keys(v),
        0 <= i < v.len(),
    ensures
        held(v.remove(i)) == held(v).remove(key_view(v[i])),
{
    let w = v.remove(i);
    let k = key_view(v[i]);
    assert forall|x: (Seq<char>, u16)| held(w).contains(x) <==> held(v).remove(k).contains(x) by {
        if holds_key(w, x) {
            let j = choose|j: int| 0 <= j < w.len() && key_view(w[j]) == x;
            let j2 = if j < i { j } else { j + 1 };
            assert(w[j] == v[j2]);
            assert(key_view(v[j2]) != k);
        }
        if holds_key(v, x) && x != k {
            let j = choose|j: int| 0 <= j < v.len() && key_view(v[j]) == x;
            if j < i {
                assert(w[j] == v[j]);
            } else {
                assert(j != i);
                assert(w[j - 1] == v[j]);
            }
        }
    }
    assert(held(w) =~= held(v).remove(k));
}

/// A key that is not held stays out of the set when it is removed.
proof fn lemma_held_absent(v: Seq<SessionKey>, k: (Seq<char>, u16))
    requires
        !holds_key(v, k),
    ensures
        held(v) == held(v).remove(k),
{
    assert(held(v) =~= held(v).remove(k));
}

/// The session list up to one more entry.
proof fn lemma_list_fold_take(
    known: Set<(Seq<char>, u16)>,
    focused: Option<(Seq<char>, u16)>,
    remote: Seq<char>,
    ids: Seq<u16>,
    j: int,
    size: (u16, u16),
)
    requires
        0 <= j < ids.len(),
    ensures
        ({
            let (kn, fo, cmds) = list_fold(known, focused, remote, ids.take(j), size);
            let p = ids[j];
            let k = (remote, p);
            let (kn2, c1) = if kn.contains(k) {
                (kn, seq![])
            } else {
                (kn.insert(k), seq![BookCommand::Subscribe(p)])
            };
            let (fo2, c2) = if fo is None {
                (Some(k), seq![BookCommand::Focus(p), BookCommand::Resize { pty_id: p, rows: size.0, cols: size.1 }])
            } else {
                (fo, seq![])
            };
            list_fold(known, focused, remote, ids.take(j + 1), size) == (kn2, fo2, cmds + c1 + c2)
        }),
{
    assert(ids.take(j + 1).drop_last() =~= ids.take(j));
    assert(ids.take(j + 1).last() == ids[j]);
}

impl SessionBook {
    /// A server's session list: each listed session not yet held is taken
    /// in and subscribed to; with no session focused, the first listed one
    /// takes the focus and is sized to the terminal area. Returns the
    /// requests for `remote`, in order.
    pub fn on_session_list(&mut self, remote: &str, ids: &[u16], size: (u16, u16)) -> (r: Vec<BookCommand>)
        requires
            old(self).wf(),
        ensures
            final(self).wf(),
            ({
                let (kn, fo, cmds) = list_fold(held(old(self).sessions@), opt_key(old(self).focused), remote@, ids@, size);
                &&& held(final(self).sessions@) == kn
                &&& opt_key(final(self).focused) == fo
                &&& r@ == cmds
            }),
            final(self).lru@ == old(self).lru@,
    {
        let ghost known0 = held(self.sessions@);
        let ghost focused0 = opt_key(self.focused);
        let mut out: Vec<BookCommand> = Vec::new();
        let mut j: usize = 0;
        assert(ids@.take(0) =~= Seq::<u16>::empty());
        while j < ids.len()
            invariant
                j <= ids@.len(),
                distinct_keys(self.sessions@),
                distinct_keys(self.lru@),
                self.lru@ == old(self).lru@,
                known0 == held(old(self).sessions@),
                focused0 == opt_key(old(self).focused),
                ({
                    let (kn, fo, cmds) = list_fold(known0, focused0, remote@, ids@.take(j as int), size);
                    &&& held(self.sessions@) == kn
                    &&& opt_key(self.focused) == fo
                    &&& out@ == cmds
                }),
            decreases ids@.len() - j,
        {
            let p = ids[j];
            let key = SessionKey { remote: remote.to_string(), pty_id: p };
            proof {
                lemma_list_fold_take(known0, focused0, remote@, ids@, j as int, size);
            }
            let ghost before = self.sessions@;
            match find_key(&self.sessions, &key) {
                Some(i) => {
                    assert(held(before).contains(key_view(key)));
                },
                None => {
                    assert(!held(before).contains(key_view(key)));
                    self.sessions.push(key.duplicate());
                    out.push(BookCommand::Subscribe(p));
                    proof {
                        lemma_held_push(before, self.sessions@.last());
                        assert(self.sessions@ == before.push(self.sessions@.last()));
                        assert forall|a: int, b: int| 0 <= a < b < self.sessions@.len() implies key_view(self.sessions@[a])
                            != key_view(self.sessions@[b]) by {
                            if b == before.len() {
                                assert(self.sessions@[a] == before[a]);
                            } else {
                                assert(self.sessions@[a] == before[a] && self.sessions@[b] == before[b]);
                            }
                        }
                    }
                },
            }
            if self.focused.is_none() {
                self.focused = Some(key.duplicate());
                out.push(BookCommand::Focus(p));
                out.push(BookCommand::Resize { pty_id: p, rows: size.0, cols: size.1 });
            }
            j += 1;
        }
        assert(ids@.take(ids@.len() as int) =~= ids@);
        out
    }

    /// A session created on `remote`: it is taken in, subscribed to,
    /// focused and sized, and becomes the most recently used.
    pub fn on_created(&mut self, remote: &str, pty_id: u16, size: (u16, u16)) -> (r: Vec<BookCommand>)
        requires
            old(self).wf(),
        ensures
            final(self).wf(),
            held(final(self).sessions@) == held(old(self).sessions@).insert((remote@, pty_id)),
            opt_key(final(self).focused) == Some((remote@, pty_id)),
            keys_of(final(self).lru@) == seq![(remote@, pty_id)] + without(keys_of(old(self).lru@), (remote@, pty_id)),
            r@ == seq![
                BookCommand::Subscribe(pty_id),
                BookCommand::Focus(pty_id),
                BookCommand::Resize { pty_id, rows: size.0, cols: size.1 },
            ],
    {
        let key = SessionKey { remote: remote.to_string(), pty_id };
        let ghost before = self.sessions@;
        match find_key(&self.sessions, &key) {
            Some(i) => {
                assert(held(before).insert(key_view(key)) =~= held(before));
            },
            None => {
                self.sessions.push(key.duplicate());
                proof {
                    lemma_held_push(before, self.sessions@.last());
                    assert(self.sessions@ == before.push(self.sessions@.last()));
                    assert forall|a: int, b: int| 0 <= a < b < self.sessions@.len() implies key_view(self.sessions@[a])
                        != key_view(self.sessions@[b]) by {
                        if b == before.len() {
                            assert(self.sessions@[a] == before[a]);
                        } else {
                            assert(self.sessions@[a] == before[a] && self.sessions@[b] == before[b]);
                        }
                    }
                }
            },
        }
        self.focused = Some(key.duplicate());
        self.push_lru(&key);
        let mut out: Vec<BookCommand> = Vec::new();
        out.push(BookCommand::Subscribe(pty_id));
        out.push(BookCommand::Focus(pty_id));
        out.push(BookCommand::Resize { pty_id, rows: size.0, cols: size.1 });
        out
    }

    /// A session closed on `remote`: it is let go and forgotten among the
    /// recently used; when it had the focus, the most recently used
    /// session left takes it, if there is one.
    pub fn on_closed(&mut self, remote: &str, pty_id: u16)
        requires
            old(self).wf(),
        ensures
            final(self).wf(),
            held(final(self).sessions@) == held(old(self).sessions@).remove((remote@, pty_id)),
            keys_of(final(self).lru@) == without(keys_of(old(self).lru@), (remote@, pty_id)),
            opt_key(final(self).focused) == if opt_key(old(self).focused) == Some((remote@, pty_id)) {
                if final(self).lru@.len() > 0 {
                    Some(keys_of(final(self).lru@)[0])
                } else {
                    None
                }
            } else {
                opt_key(old(self).focused)
            },
    {
        let key = SessionKey { remote: remote.to_string(), pty_id };
        let ghost before = self.sessions@;
        match find_key(&self.sessions, &key) {
            Some(i) => {
                self.sessions.remove(i);
                proof {
                    lemma_held_remove(before, i as int);
                    lemma_remove_distinct(before, i as int);
                }
            },
            None => {
                proof {
                    lemma_held_absent(before, key_view(key));
                }
            },
        }
        remove_key(&mut self.lru, &key);
        let was_focused = match &self.focused {
            Some(f) => f.same(&key),
            None => false,
        };
        if was_focused {
            if self.lru.len() > 0 {
                self.focused = Some(self.lru[0].duplicate());
            } else {
                self.focused = None;
            }
        }
    }
}

/// `k` is gone from `s` without it.
proof fn lemma_without_gone(s: Seq<(Seq<char>, u16)>, k: (Seq<char>, u16))
    ensures
        !without(s, k).contains(k),
    decreases s.len(),
{
    if s.len() > 0 {
        lemma_without_gone(s.drop_last(), k);
    }
}

} // verus!
