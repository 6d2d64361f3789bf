//! The user configuration: a map from keys to values, read from and written
//! to a text file of `key = value` lines.
use vstd::prelude::*;
use vstd::std_specs::cmp::PartialEqSpecImpl;
use crate::text::{
    append_chars, append_str, chars_of, find_char, first_index, is_ws, lemma_first_index,
    lemma_first_index_unique, lemma_split_nonempty, lines_chars, lines_seq, push_chars, split_seq,
    starts_with, starts_with_chars,
    string_of, strip_cr, sub_vec, trim, trim_chars, trim_end, trim_start, views,
};
use crate::sorted::{insert_sorted, sorted};

verus! {

/// The views of a sequence of key/value pairs.
pub open spec fn pair_views(v: Seq<(String, String)>) -> Seq<(Seq<char>, Seq<char>)> {
    Seq::new(v.len(), |i: int| (v[i].0@, v[i].1@))
}

/// No key occurs twice.
pub open spec fn keys_distinct(s: Seq<(Seq<char>, Seq<char>)>) -> bool {
    forall|i: int, j: int| 0 <= i < j < s.len() ==> (#[trigger] s[i]).0 != (#[trigger] s[j]).0
}

/// The map that the pairs spell, a later pair winning over an earlier one.
pub open spec fn entry_map(s: Seq<(Seq<char>, Seq<char>)>) -> Map<Seq<char>, Seq<char>>
    decreases s.len(),
{
    if s.len() == 0 {
        Map::empty()
    } else {
        entry_map(s.drop_last()).insert(s.last().0, s.last().1)
    }
}

/// With distinct keys, the map holds exactly the pairs.
pub proof fn lemma_entry_map(s: Seq<(Seq<char>, Seq<char>)>)
    requires
        keys_distinct(s),
    ensures
        forall|k: Seq<char>|
            entry_map(s).dom().contains(k) <==> exists|i: int| 0 <= i < s.len() && (#[trigger] s[i]).0 == k,
        forall|i: int| 0 <= i < s.len() ==> entry_map(s)[(#[trigger] s[i]).0] == s[i].1,
        entry_map(s).dom().finite(),
        entry_map(s).dom().len() == s.len(),
    decreases s.len(),
{
    if s.len() > 0 {
        let t = s.drop_last();
        assert forall|i: int, j: int| 0 <= i < j < t.len() implies (#[trigger] t[i]).0 != (
        #[trigger] t[j]).0 by {
            assert(t[i] == s[i] && t[j] == s[j]);
        }
        lemma_entry_map(t);
        let last = s.last();
        assert(!entry_map(t).dom().contains(last.0)) by {
            if entry_map(t).dom().contains(last.0) {
                let i = choose|i: int| 0 <= i < t.len() && (#[trigger] t[i]).0 == last.0;
                assert(s[i] == t[i]);
                assert(s[s.len() - 1] == last);
            }
        }
        assert forall|k: Seq<char>|
            entry_map(s).dom().contains(k) <==> exists|i: int|
                0 <= i < s.len() && (#[trigger] s[i]).0 == k by {
            if entry_map(s).dom().contains(k) {
                if k == last.0 {
                    assert(s[s.len() - 1].0 == k);
                } else {
                    let i = choose|i: int| 0 <= i < t.len() && (#[trigger] t[i]).0 == k;
                    assert(s[i] == t[i]);
                }
            }
            if exists|i: int| 0 <= i < s.len() && (#[trigger] s[i]).0 == k {
                let i = choose|i: int| 0 <= i < s.len() && (#[trigger] s[i]).0 == k;
                if i < s.len() - 1 {
                    assert(t[i] == s[i]);
                }
            }
        }
        assert forall|i: int| 0 <= i < s.len() implies entry_map(s)[(#[trigger] s[i]).0]
            == s[i].1 by {
            if i < s.len() - 1 {
                assert(t[i] == s[i]);
                assert(s[i].0 != last.0);
            }
        }
    }
}

/// A configuration: keys mapped to values, each key at most once.
#[derive(Debug)]
pub struct ConfigMap {
    entries: Vec<(String, String)>,
}

impl ConfigMap {
    /// The pairs of the map, in the order in which they are kept.
    pub closed spec fn pairs(self) -> Seq<(Seq<char>, Seq<char>)> {
        pair_views(self.entries@)
    }

    #[verifier::type_invariant]
    closed spec fn distinct(self) -> bool {
        keys_distinct(pair_views(self.entries@))
    }
}

impl View for ConfigMap {
    type V = Map<Seq<char>, Seq<char>>;

    closed spec fn view(&self) -> Map<Seq<char>, Seq<char>> {
        entry_map(pair_views(self.entries@))
    }
}

/// Index of the pair whose key is `key`, if any.
fn position_of(es: &Vec<(String, String)>, key: &str) -> (r: Option<usize>)
    requires
        keys_distinct(pair_views(es@)),
    ensures
        match r {
            Some(i) => i < es@.len() && es@[i as int].0@ == key@,
            None => forall|i: int| 0 <= i < es@.len() ==> es@[i].0@ != key@,
        },
        r is None <==> !entry_map(pair_views(es@)).dom().contains(key@),
{
    let k = string_of(chars_of(key).as_slice());
    proof {
        lemma_entry_map(pair_views(es@));
    }
    let mut i: usize = 0;
    while i < es.len()
        invariant
            i <= es@.len(),
            k@ == key@,
            keys_distinct(pair_views(es@)),
            forall|j: int| 0 <= j < i ==> es@[j].0@ != key@,
        decreases es.len() - i,
    {
        if es[i].0 == k {
            proof {
                lemma_entry_map(pair_views(es@));
            }
            assert(pair_views(es@)[i as int].0 == key@);
            return Some(i);
        }
        i += 1;
    }
    assert forall|j: int| 0 <= j < pair_views(es@).len() implies (#[trigger] pair_views(es@)[j]).0
        != key@ by {
        assert(pair_views(es@)[j].0 == es@[j].0@);
    }
    None
}

impl ConfigMap {
    /// An empty configuration.
    pub fn new() -> (r: ConfigMap)
        ensures
            r@ == Map::<Seq<char>, Seq<char>>::empty(),
            r.pairs() == Seq::<(Seq<char>, Seq<char>)>::empty(),
    {
        let r = ConfigMap { entries: Vec::new() };
        assert(pair_views(r.entries@) =~= Seq::<(Seq<char>, Seq<char>)>::empty());
        r
    }

    /// Number of keys.
    pub fn len(&self) -> (r: usize)
        ensures
            r == self@.dom().len(),
            self@.dom().finite(),
    {
        proof {
            use_type_invariant(self);
            lemma_entry_map(pair_views(self.entries@));
        }
        self.entries.len()
    }

    /// Whether there is no key.
    pub fn is_empty(&self) -> (r: bool)
        ensures
            r == (self@.dom().len() == 0),
            self@.dom().finite(),
    {
        self.len() == 0
    }

    /// The value of `key`, if it has one.
    pub fn get(&self, key: &str) -> (r: Option<&String>)
        ensures
            match r {
                Some(v) => self@.dom().contains(key@) && v@ == self@[key@],
                None => !self@.dom().contains(key@),
            },
    {
        proof {
            use_type_invariant(self);
            lemma_entry_map(pair_views(self.entries@));
        }
        match position_of(&self.entries, key) {
            Some(i) => {
                assert(pair_views(self.entries@)[i as int].0 == key@);
                Some(&self.entries[i].1)
            },
            None => None,
        }
    }

    /// Sets `key` to `value`, replacing the value it had.
    pub fn insert(&mut self, key: String, value: String)
        ensures
            final(self)@ == old(self)@.insert(key@, value@),
    {
        proof {
            use_type_invariant(&*self);
        }
        let mut es: Vec<(String, String)> = Vec::new();
        std::mem::swap(&mut es, &mut self.entries);
        let ghost old_es = pair_views(es@);
        let ghost kv = key@;
        let ghost vv = value@;
        proof {
            lemma_entry_map(old_es);
        }
        match position_of(&es, key.as_str()) {
            Some(i) => {
                es.set(i, (key, value));
                let ghost ns = pair_views(es@);
                assert(ns =~= old_es.update(i as int, (kv, vv)));
                assert(keys_distinct(ns)) by {
                    assert forall|a: int, b: int| 0 <= a < b < ns.len() implies (#[trigger] ns[a]).0
                        != (#[trigger] ns[b]).0 by {
                        if a != i && b != i {
                            assert(ns[a] == old_es[a] && ns[b] == old_es[b]);
                        } else if a == i {
                            assert(ns[b] == old_es[b]);
                            assert(old_es[i as int].0 == kv);
                        } else {
                            assert(ns[a] == old_es[a]);
                            assert(old_es[i as int].0 == kv);
                        }
                    }
                }
                proof {
                    lemma_entry_map(ns);
                }
                assert(entry_map(ns) =~= entry_map(old_es).insert(kv, vv)) by {
                    assert forall|k: Seq<char>| #[trigger]
                        entry_map(ns).dom().contains(k) == entry_map(old_es).insert(
                            kv,
                            vv,
                        ).dom().contains(k) by {
                        if entry_map(ns).dom().contains(k) {
                            let j = choose|j: int| 0 <= j < ns.len() && (#[trigger] ns[j]).0 == k;
                            if j != i {
                                assert(old_es[j] == ns[j]);
                            }
                        }
                        if entry_map(old_es).dom().contains(k) {
                            let j = choose|j: int| 0 <= j < old_es.len() && (#[trigger] old_es[j]).0
                                == k;
                            if j != i {
                                assert(old_es[j] == ns[j]);
                            } else {
                                assert(ns[j].0 == kv);
                            }
                        }
                        if k == kv {
                            assert(ns[i as int].0 == kv);
                        }
                    }
                    assert forall|k: Seq<char>| #[trigger]
                        entry_map(ns).dom().contains(k) implies entry_map(ns)[k] == entry_map(
                        old_es,
                    ).insert(kv, vv)[k] by {
                        let j = choose|j: int| 0 <= j < ns.len() && (#[trigger] ns[j]).0 == k;
                        if j != i {
                            assert(old_es[j] == ns[j]);
                            assert(old_es[i as int].0 == kv);
                            assert(old_es[j].0 != kv);
                        }
                    }
                }
            },
            None => {
                es.push((key, value));
                let ghost ns = pair_views(es@);
                assert(ns =~= old_es.push((kv, vv)));
                assert(ns.drop_last() =~= old_es);
                assert(keys_distinct(ns)) by {
                    assert forall|a: int, b: int| 0 <= a < b < ns.len() implies (#[trigger] ns[a]).0
                        != (#[trigger] ns[b]).0 by {
                        assert(ns[a] == old_es[a]);
                        if b < old_es.len() {
                            assert(ns[b] == old_es[b]);
                        }
                    }
                }
            },
        }
        self.entries = es;
    }

    /// Removes `key` and its value, if it is there.
    pub fn remove(&mut self, key: &str)
        ensures
            final(self)@ == old(self)@.remove(key@),
    {
        proof {
            use_type_invariant(&*self);
        }
        let mut es: Vec<(String, String)> = Vec::new();
        std::mem::swap(&mut es, &mut self.entries);
        let ghost old_es = pair_views(es@);
        proof {
            lemma_entry_map(old_es);
        }
        match position_of(&es, key) {
            Some(i) => {
                let _ = es.remove(i);
                let ghost ns = pair_views(es@);
                assert(ns =~= old_es.remove(i as int));
                assert(keys_distinct(ns)) by {
                    assert forall|a: int, b: int| 0 <= a < b < ns.len() implies (#[trigger] ns[a]).0
                        != (#[trigger] ns[b]).0 by {
                        let oa = if a < i { a } else { a + 1 };
                        let ob = if b < i { b } else { b + 1 };
                        assert(ns[a] == old_es[oa] && ns[b] == old_es[ob]);
                    }
                }
                proof {
                    lemma_entry_map(ns);
                }
                assert(entry_map(ns) =~= entry_map(old_es).remove(key@)) by {
                    assert forall|k: Seq<char>| #[trigger]
                        entry_map(ns).dom().contains(k) == entry_map(old_es).remove(
                            key@,
                        ).dom().contains(k) by {
                        if entry_map(ns).dom().contains(k) {
                            let j = choose|j: int| 0 <= j < ns.len() && (#[trigger] ns[j]).0 == k;
                            let oj = if j < i { j } else { j + 1 };
                            assert(ns[j] == old_es[oj]);
                            assert(old_es[i as int].0 == key@);
                        }
                        if entry_map(old_es).dom().contains(k) && k != key@ {
                            let j = choose|j: int| 0 <= j < old_es.len() && (#[trigger] old_es[j]).0
                                == k;
                            assert(j != i);
                            if j < i {
                                assert(ns[j] == old_es[j]);
                            } else {
                                assert(ns[j - 1] == old_es[j]);
                            }
                        }
                    }
                    assert forall|k: Seq<char>| #[trigger]
                        entry_map(ns).dom().contains(k) implies entry_map(ns)[k] == entry_map(
                        old_es,
                    )[k] by {
                        let j = choose|j: int| 0 <= j < ns.len() && (#[trigger] ns[j]).0 == k;
                        let oj = if j < i { j } else { j + 1 };
                        assert(ns[j] == old_es[oj]);
                    }
                }
            },
            None => {
                assert(entry_map(old_es).remove(key@) =~= entry_map(old_es));
            },
        }
        self.entries = es;
    }
}


/// What one line of a configuration file says: nothing for a blank line,
/// a comment (`#` first) or a line without `=`; else the trimmed text before
/// the first `=` as the key and the trimmed text after it as the value.
pub open spec fn line_entry(line: Seq<char>) -> Option<(Seq<char>, Seq<char>)> {
    let t = trim(line);
    if t.len() == 0 || t[0] == '#' {
        None
    } else {
        match first_index(t, '=') {
            Some(i) => Some((trim(t.take(i)), trim(t.skip(i + 1)))),
            None => None,
        }
    }
}

/// The map that a sequence of lines sets up, a later line winning.
pub open spec fn parse_lines(ls: Seq<Seq<char>>) -> Map<Seq<char>, Seq<char>>
    decreases ls.len(),
{
    if ls.len() == 0 {
        Map::empty()
    } else {
        let m = parse_lines(ls.drop_last());
        match line_entry(ls.last()) {
            Some(e) => m.insert(e.0, e.1),
            None => m,
        }
    }
}

/// The map that a configuration text sets up.
pub open spec fn parse_config(s: Seq<char>) -> Map<Seq<char>, Seq<char>> {
    parse_lines(lines_seq(s))
}

/// Reads a configuration text: one `key = value` per line, blank lines
/// and lines starting with `#` skipped, as are lines without `=`.
pub fn parse_config_str(contents: &str) -> (r: ConfigMap)
    ensures
        r@ == parse_config(contents@),
        forall|i: int| 0 <= i < r.pairs().len() ==> clean_entry(#[trigger] r.pairs()[i]),
{
    let cs = chars_of(contents);
    let lines = lines_chars(cs.as_slice());
    let mut map = ConfigMap::new();
    let mut i: usize = 0;
    while i < lines.len()
        invariant
            i <= lines@.len(),
            views(lines@) == lines_seq(contents@),
            map@ == parse_lines(views(lines@).take(i as int)),
        decreases lines.len() - i,
    {
        let ghost lv = views(lines@)[i as int];
        assert(views(lines@).take(i + 1).drop_last() =~= views(lines@).take(i as int));
        assert(views(lines@).take(i + 1).last() == lv);
        let line = trim_chars(lines[i].as_slice());
        assert(line@ == trim(lv));
        if line.len() > 0 && line[0] != '#' {
            match find_char(line.as_slice(), '=') {
                Some(p) => {
                    proof {
                        lemma_first_index(line@, '=');
                    }
                    let kc = trim_chars(sub_vec(line.as_slice(), 0, p).as_slice());
                    let vc = trim_chars(sub_vec(line.as_slice(), p + 1, line.len()).as_slice());
                    assert(line@.subrange(0, p as int) =~= line@.take(p as int));
                    assert(line@.subrange(p + 1, line@.len() as int) =~= line@.skip(p + 1));
                    map.insert(string_of(kc.as_slice()), string_of(vc.as_slice()));
                },
                None => {},
            }
        }
        i += 1;
    }
    assert(views(lines@).take(lines@.len() as int) =~= views(lines@));
    proof {
        use_type_invariant(&map);
        let ps = pair_views(map.entries@);
        lemma_entry_map(ps);
        lemma_parse_config_clean(contents@);
        assert(map@ == entry_map(ps));
        assert forall|i: int| 0 <= i < ps.len() implies clean_entry(#[trigger] ps[i]) by {
            assert(entry_map(ps).dom().contains(ps[i].0));
            assert(entry_map(ps)[ps[i].0] == ps[i].1);
            assert(parse_config(contents@).dom().contains(ps[i].0));
            assert(clean_entry((ps[i].0, parse_config(contents@)[ps[i].0])));
            assert((ps[i].0, ps[i].1) == ps[i]);
        }
    }
    map
}

impl ConfigMap {
    /// Whether every key of `self` has the same value in `other`.
    fn within(&self, other: &ConfigMap) -> (r: bool)
        ensures
            r == (forall|k: Seq<char>| #[trigger] self@.dom().contains(k) ==> other@.dom().contains(
                k,
            ) && other@[k] == self@[k]),
    {
        proof {
            use_type_invariant(self);
            lemma_entry_map(pair_views(self.entries@));
        }
        let mut i: usize = 0;
        while i < self.entries.len()
            invariant
                i <= self.entries@.len(),
                keys_distinct(pair_views(self.entries@)),
                forall|j: int| 0 <= j < i ==> other@.dom().contains(
                    (#[trigger] pair_views(self.entries@)[j]).0,
                ) && other@[pair_views(self.entries@)[j].0] == pair_views(self.entries@)[j].1,
            decreases self.entries.len() - i,
        {
            let ghost e = pair_views(self.entries@)[i as int];
            match other.get(self.entries[i].0.as_str()) {
                Some(v) => {
                    if *v != self.entries[i].1 {
                        proof {
                            lemma_entry_map(pair_views(self.entries@));
                        }
                        assert(self@.dom().contains(e.0) && self@[e.0] == e.1);
                        return false;
                    }
                },
                None => {
                    proof {
                        lemma_entry_map(pair_views(self.entries@));
                    }
                    assert(self@.dom().contains(e.0));
                    return false;
                },
            }
            i += 1;
        }
        proof {
            lemma_entry_map(pair_views(self.entries@));
            assert forall|k: Seq<char>| #[trigger] self@.dom().contains(k) implies other@.dom().contains(
                k,
            ) && other@[k] == self@[k] by {
                let j = choose|j: int|
                    0 <= j < pair_views(self.entries@).len() && (#[trigger] pair_views(
                        self.entries@,
                    )[j]).0 == k;
            }
        }
        true
    }
}

impl PartialEq for ConfigMap {
    fn eq(&self, other: &Self) -> (r: bool) {
        let a = self.within(other);
        let b = other.within(self);
        proof {
            if a && b {
                assert(self@.dom() =~= other@.dom());
                assert(self@ =~= other@);
            }
        }
        a && b
    }
}

impl PartialEqSpecImpl for ConfigMap {
    open spec fn obeys_eq_spec() -> bool {
        true
    }

    open spec fn eq_spec(&self, other: &Self) -> bool {
        self@ == other@
    }
}


// ───────────────────────────── writing ─────────────────────────────

/// The line that writes one pair: the key, ` = `, the value.
pub open spec fn entry_line(e: (Seq<char>, Seq<char>)) -> Seq<char> {
    e.0 + seq![' ', '=', ' '] + e.1
}

/// The lines of a sequence of pairs, in the same order.
pub open spec fn entry_lines(s: Seq<(Seq<char>, Seq<char>)>) -> Seq<Seq<char>> {
    Seq::new(s.len(), |i: int| entry_line(s[i]))
}

/// Lines, each followed by a line feed.
pub open spec fn terminated(ls: Seq<Seq<char>>) -> Seq<char>
    decreases ls.len(),
{
    if ls.len() == 0 {
        Seq::empty()
    } else {
        terminated(ls.drop_last()) + ls.last().push('\n')
    }
}

/// Writes a configuration: one `key = value` line per key, the lines in
/// sorted order, each ended by a line feed.
pub fn serialize_config_str(map: &ConfigMap) -> (r: String)
    ensures
        keys_distinct(map.pairs()),
        map@ == entry_map(map.pairs()),
        exists|ls: Seq<Seq<char>>|
            #![trigger terminated(ls)]
            sorted(ls) && ls.to_multiset() == entry_lines(map.pairs()).to_multiset() && r@
                == terminated(ls),
        (forall|i: int| 0 <= i < map.pairs().len() ==> clean_entry(#[trigger] map.pairs()[i]))
            ==> parse_config(r@) == map@,
{
    broadcast use vstd::seq_lib::group_to_multiset_ensures;

    proof {
        use_type_invariant(map);
    }
    let ghost ps = pair_views(map.entries@);
    let mut lines: Vec<Vec<char>> = Vec::new();
    let mut i: usize = 0;
    while i < map.entries.len()
        invariant
            i <= map.entries@.len(),
            ps == pair_views(map.entries@),
            sorted(views(lines@)),
            views(lines@).to_multiset() == entry_lines(ps.take(i as int)).to_multiset(),
        decreases map.entries.len() - i,
    {
        let mut l = chars_of(map.entries[i].0.as_str());
        append_str(&mut l, " = ");
        let vc = chars_of(map.entries[i].1.as_str());
        append_chars(&mut l, vc.as_slice());
        proof {
            reveal_strlit(" = ");
        }
        assert(l@ == entry_line(ps[i as int]));
        let ghost lv = l@;
        assert(entry_lines(ps.take(i + 1)) =~= entry_lines(ps.take(i as int)).push(lv));
        proof {
            entry_lines(ps.take(i as int)).to_multiset_ensures();
        }
        assert(entry_lines(ps.take(i as int)).push(lv).to_multiset() =~= entry_lines(
            ps.take(i as int),
        ).to_multiset().insert(lv));
        insert_sorted(&mut lines, l);
        i += 1;
    }
    assert(ps.take(ps.len() as int) =~= ps);
    let mut r = String::new();
    let nl = vec!['\n'];
    let mut j: usize = 0;
    while j < lines.len()
        invariant
            j <= lines@.len(),
            nl@ == seq!['\n'],
            r@ == terminated(views(lines@).take(j as int)),
        decreases lines.len() - j,
    {
        push_chars(&mut r, lines[j].as_slice());
        push_chars(&mut r, nl.as_slice());
        assert(views(lines@).take(j + 1).drop_last() =~= views(lines@).take(j as int));
        assert(r@ =~= terminated(views(lines@).take(j + 1)));
        j += 1;
    }
    assert(views(lines@).take(lines@.len() as int) =~= views(lines@));
    proof {
        if forall|i: int| 0 <= i < ps.len() ==> clean_entry(#[trigger] ps[i]) {
            lemma_config_round_trip(ps, views(lines@));
        }
    }
    r
}


// ───────────────────────────── reading back ─────────────────────────────

/// No white space at either end.
pub open spec fn is_trimmed(s: Seq<char>) -> bool {
    s.len() == 0 || (!is_ws(s[0]) && !is_ws(s.last()))
}

/// A pair that its written line gives back unchanged: key and value
/// without white space at their ends and without line feeds, and a key
/// without `=` that does not start with `#`.
pub open spec fn clean_entry(e: (Seq<char>, Seq<char>)) -> bool {
    &&& is_trimmed(e.0)
    &&& is_trimmed(e.1)
    &&& !e.0.contains('=')
    &&& !e.0.contains('\n')
    &&& !e.1.contains('\n')
    &&& !(e.0.len() > 0 && e.0[0] == '#')
}

pub proof fn lemma_trim_start_keeps(x: Seq<char>)
    requires
        x.len() == 0 || !is_ws(x[0]),
    ensures
        trim_start(x) == x,
{
}

pub proof fn lemma_trim_end_keeps(x: Seq<char>)
    requires
        x.len() == 0 || !is_ws(x.last()),
    ensures
        trim_end(x) == x,
{
}

proof fn lemma_trim_start_space(x: Seq<char>)
    ensures
        trim_start(seq![' '] + x) == trim_start(x),
{
    assert((seq![' '] + x).drop_first() =~= x);
    assert((seq![' '] + x)[0] == ' ');
}

proof fn lemma_trim_end_space(x: Seq<char>)
    ensures
        trim_end(x.push(' ')) == trim_end(x),
{
    assert(x.push(' ').drop_last() =~= x);
}

/// A clean pair's line reads back as the pair.
pub proof fn lemma_line_entry(e: (Seq<char>, Seq<char>))
    requires
        clean_entry(e),
    ensures
        line_entry(entry_line(e)) == Some(e),
        strip_cr(entry_line(e)) == entry_line(e),
        !entry_line(e).contains('\n'),
{
    let k = e.0;
    let v = e.1;
    let line = entry_line(e);
    let head = if k.len() == 0 {
        seq!['=']
    } else {
        k + seq![' ', '=']
    };
    let tail = if v.len() == 0 {
        Seq::<char>::empty()
    } else {
        seq![' '] + v
    };
    let ts = head + seq![' '] + v;
    if k.len() == 0 {
        assert(line =~= seq![' '] + (seq!['=', ' '] + v));
        lemma_trim_start_space(seq!['=', ' '] + v);
        lemma_trim_start_keeps(seq!['=', ' '] + v);
        assert(ts =~= seq!['=', ' '] + v);
    } else {
        assert(line[0] == k[0]);
        lemma_trim_start_keeps(line);
        assert(ts =~= line);
    }
    assert(trim_start(line) == ts);
    if v.len() == 0 {
        assert(ts =~= head.push(' '));
        lemma_trim_end_space(head);
        lemma_trim_end_keeps(head);
        assert(head + tail =~= head);
    } else {
        assert(ts.last() == v.last());
        lemma_trim_end_keeps(ts);
        assert(ts =~= head + tail);
    }
    let t = head + tail;
    assert(trim(line) == t);
    let i0 = head.len() - 1;
    assert(t[i0] == '=');
    assert forall|j: int| 0 <= j < i0 implies t[j] != '=' by {
        if j < k.len() {
            assert(t[j] == k[j]);
        } else {
            assert(t[j] == ' ');
        }
    }
    lemma_first_index_unique(t, '=', i0);
    if k.len() == 0 {
        assert(t.take(i0) =~= Seq::<char>::empty());
    } else {
        assert(t.take(i0) =~= k.push(' '));
        assert(t[0] == k[0]);
        lemma_trim_start_keeps(k.push(' '));
        lemma_trim_end_space(k);
        lemma_trim_end_keeps(k);
    }
    assert(trim(t.take(i0)) == k);
    assert(t.skip(i0 + 1) =~= tail);
    if v.len() > 0 {
        lemma_trim_start_space(v);
        lemma_trim_start_keeps(v);
        lemma_trim_end_keeps(v);
    }
    assert(trim(tail) == v);
    assert(line.last() == (if v.len() == 0 {
        ' '
    } else {
        v.last()
    }));
    assert(!line.contains('\n')) by {
        if line.contains('\n') {
            let j = choose|j: int| 0 <= j < line.len() && line[j] == '\n';
            if j < k.len() {
                assert(k[j] == '\n');
            } else if j >= k.len() + 3 {
                assert(v[j - k.len() - 3] == '\n');
            }
        }
    }
}

/// Appending text without the separator extends the last piece.
proof fn lemma_split_append(p: Seq<char>, x: Seq<char>, sep: char)
    requires
        !x.contains(sep),
    ensures
        split_seq(p + x, sep) == split_seq(p, sep).update(
            split_seq(p, sep).len() - 1,
            split_seq(p, sep).last() + x,
        ),
    decreases x.len(),
{
    lemma_split_nonempty(p, sep);
    let sp = split_seq(p, sep);
    if x.len() == 0 {
        assert(p + x =~= p);
        assert(sp.last() + x =~= sp.last());
        assert(sp.update(sp.len() - 1, sp.last() + x) =~= sp);
    } else {
        let x2 = x.drop_last();
        assert(!x2.contains(sep)) by {
            if x2.contains(sep) {
                let j = choose|j: int| 0 <= j < x2.len() && x2[j] == sep;
                assert(x[j] == sep);
            }
        }
        lemma_split_append(p, x2, sep);
        assert((p + x).drop_last() =~= p + x2);
        assert(x[x.len() - 1] != sep);
        assert((p + x).last() == x.last());
        assert((sp.last() + x2).push(x.last()) =~= sp.last() + x);
        assert(split_seq(p + x, sep) =~= sp.update(sp.len() - 1, sp.last() + x));
    }
}

/// The pieces of lines each followed by a line feed: the lines, then an
/// empty piece.
proof fn lemma_split_terminated(ls: Seq<Seq<char>>)
    requires
        forall|i: int| 0 <= i < ls.len() ==> !(#[trigger] ls[i]).contains('\n'),
    ensures
        split_seq(terminated(ls), '\n') == ls.push(Seq::<char>::empty()),
    decreases ls.len(),
{
    if ls.len() == 0 {
        assert(split_seq(terminated(ls), '\n') =~= ls.push(Seq::<char>::empty()));
    } else {
        let prev = ls.drop_last();
        let l = ls.last();
        assert forall|i: int| 0 <= i < prev.len() implies !(#[trigger] prev[i]).contains('\n') by {
            assert(prev[i] == ls[i]);
        }
        lemma_split_terminated(prev);
        assert(!l.contains('\n')) by {
            assert(ls[ls.len() - 1] == l);
        }
        let tp = terminated(prev);
        assert(terminated(ls) =~= (tp + l).push('\n'));
        assert((tp + l).push('\n').drop_last() =~= tp + l);
        lemma_split_append(tp, l, '\n');
        assert(Seq::<char>::empty() + l =~= l);
        assert(split_seq(tp + l, '\n') =~= ls);
    }
}

/// The lines of lines each followed by a line feed are the lines, when none
/// holds a line feed or ends in a carriage return.
pub proof fn lemma_lines_terminated(ls: Seq<Seq<char>>)
    requires
        forall|i: int| 0 <= i < ls.len() ==> !(#[trigger] ls[i]).contains('\n'),
        forall|i: int| 0 <= i < ls.len() ==> strip_cr(#[trigger] ls[i]) == ls[i],
    ensures
        lines_seq(terminated(ls)) == ls,
{
    lemma_split_terminated(ls);
    let parts = ls.push(Seq::<char>::empty());
    assert(parts[ls.len() as int].len() == 0);
    assert(Seq::new(ls.len(), |i: int| strip_cr(parts[i])) =~= ls) by {
        assert forall|i: int| 0 <= i < ls.len() implies strip_cr(parts[i]) == ls[i] by {
            assert(parts[i] == ls[i]);
        }
    }
}

/// The pairs that lines give, when each gives one.
pub open spec fn line_entries(ls: Seq<Seq<char>>) -> Seq<(Seq<char>, Seq<char>)> {
    Seq::new(ls.len(), |i: int| line_entry(ls[i]).unwrap())
}

proof fn lemma_parse_lines_entries(ls: Seq<Seq<char>>)
    requires
        forall|i: int| 0 <= i < ls.len() ==> (#[trigger] line_entry(ls[i])) is Some,
    ensures
        parse_lines(ls) == entry_map(line_entries(ls)),
    decreases ls.len(),
{
    if ls.len() > 0 {
        let prev = ls.drop_last();
        assert forall|i: int| 0 <= i < prev.len() implies (#[trigger] line_entry(prev[i])) is Some by {
            assert(prev[i] == ls[i]);
            assert(line_entry(ls[i]) is Some);
        }
        lemma_parse_lines_entries(prev);
        assert(line_entries(ls).drop_last() =~= line_entries(prev));
        assert(line_entry(ls[ls.len() - 1]) is Some);
    }
}

/// Any key of the map of pairs comes from a pair, and its value from a
/// pair with that key.
proof fn lemma_entry_map_any(s: Seq<(Seq<char>, Seq<char>)>)
    ensures
        forall|k: Seq<char>|
            entry_map(s).dom().contains(k) <==> exists|j: int| 0 <= j < s.len() && (#[trigger] s[j]).0 == k,
        forall|k: Seq<char>|
            #[trigger] entry_map(s).dom().contains(k) ==> exists|j: int|
                0 <= j < s.len() && (#[trigger] s[j]).0 == k && entry_map(s)[k] == s[j].1,
    decreases s.len(),
{
    if s.len() > 0 {
        let t = s.drop_last();
        lemma_entry_map_any(t);
        let last = s.last();
        assert(s[s.len() - 1] == last);
        assert forall|k: Seq<char>|
            entry_map(s).dom().contains(k) <==> exists|j: int| 0 <= j < s.len() && (#[trigger] s[j]).0 == k by {
            if entry_map(s).dom().contains(k) && k != last.0 {
                assert(entry_map(t).dom().contains(k));
                let j = choose|j: int| 0 <= j < t.len() && (#[trigger] t[j]).0 == k;
                assert(s[j] == t[j]);
            }
            if k == last.0 {
                assert(s[s.len() - 1].0 == k);
            }
            if exists|j: int| 0 <= j < s.len() && (#[trigger] s[j]).0 == k {
                let j = choose|j: int| 0 <= j < s.len() && (#[trigger] s[j]).0 == k;
                if j < s.len() - 1 {
                    assert(t[j] == s[j]);
                    assert(entry_map(t).dom().contains(k));
                }
            }
        }
        assert forall|k: Seq<char>| #[trigger] entry_map(s).dom().contains(k) implies exists|j: int|
            0 <= j < s.len() && (#[trigger] s[j]).0 == k && entry_map(s)[k] == s[j].1 by {
            if k != last.0 {
                let j = choose|j: int|
                    0 <= j < t.len() && (#[trigger] t[j]).0 == k && entry_map(t)[k] == t[j].1;
                assert(s[j] == t[j]);
            }
        }
    }
}

/// Reading back the lines of distinct clean pairs, in any order, gives the
/// map of the pairs.
pub proof fn lemma_config_round_trip(s: Seq<(Seq<char>, Seq<char>)>, ls: Seq<Seq<char>>)
    requires
        keys_distinct(s),
        forall|i: int| 0 <= i < s.len() ==> clean_entry(#[trigger] s[i]),
        ls.to_multiset() == entry_lines(s).to_multiset(),
    ensures
        parse_config(terminated(ls)) == entry_map(s),
{
    ls.to_multiset_ensures();
    entry_lines(s).to_multiset_ensures();
    assert forall|j: int| 0 <= j < ls.len() implies exists|i: int|
        0 <= i < s.len() && #[trigger] ls[j] == entry_line(#[trigger] s[i]) by {
        assert(ls.contains(ls[j]));
        assert(ls.to_multiset().count(ls[j]) > 0);
        assert(entry_lines(s).to_multiset().count(ls[j]) > 0);
        assert(entry_lines(s).contains(ls[j]));
        let i = choose|i: int| 0 <= i < entry_lines(s).len() && entry_lines(s)[i] == ls[j];
        assert(entry_lines(s)[i] == entry_line(s[i]));
    }
    assert forall|j: int| 0 <= j < ls.len() implies !(#[trigger] ls[j]).contains('\n') && strip_cr(
        ls[j],
    ) == ls[j] && line_entry(ls[j]) is Some by {
        let i = choose|i: int| 0 <= i < s.len() && #[trigger] ls[j] == entry_line(#[trigger] s[i]);
        lemma_line_entry(s[i]);
    }
    lemma_lines_terminated(ls);
    assert forall|j: int| 0 <= j < ls.len() implies (#[trigger] line_entry(ls[j])) is Some by {
        assert(ls[j] == ls[j]);
    }
    lemma_parse_lines_entries(ls);
    let s2 = line_entries(ls);
    lemma_entry_map_any(s2);
    lemma_entry_map(s);
    assert forall|j: int| 0 <= j < s2.len() implies exists|i: int|
        0 <= i < s.len() && #[trigger] s2[j] == #[trigger] s[i] by {
        let i = choose|i: int| 0 <= i < s.len() && #[trigger] ls[j] == entry_line(#[trigger] s[i]);
        lemma_line_entry(s[i]);
    }
    assert forall|k: Seq<char>| #[trigger]
        entry_map(s2).dom().contains(k) == entry_map(s).dom().contains(k) by {
        if entry_map(s2).dom().contains(k) {
            let j = choose|j: int| 0 <= j < s2.len() && (#[trigger] s2[j]).0 == k;
            let i = choose|i: int| 0 <= i < s.len() && #[trigger] s2[j] == #[trigger] s[i];
        }
        if entry_map(s).dom().contains(k) {
            let i = choose|i: int| 0 <= i < s.len() && (#[trigger] s[i]).0 == k;
            assert(entry_lines(s)[i] == entry_line(s[i]));
            assert(entry_lines(s).contains(entry_line(s[i])));
            assert(entry_lines(s).to_multiset().count(entry_line(s[i])) > 0);
            assert(ls.to_multiset().count(entry_line(s[i])) > 0);
            assert(ls.contains(entry_line(s[i])));
            let j = choose|j: int| 0 <= j < ls.len() && ls[j] == entry_line(s[i]);
            lemma_line_entry(s[i]);
            assert(s2[j] == s[i]);
        }
    }
    assert forall|k: Seq<char>| #[trigger] entry_map(s2).dom().contains(k) implies entry_map(s2)[k]
        == entry_map(s)[k] by {
        let j = choose|j: int| 0 <= j < s2.len() && (#[trigger] s2[j]).0 == k && entry_map(s2)[k] == s2[j].1;
        let i = choose|i: int| 0 <= i < s.len() && #[trigger] s2[j] == #[trigger] s[i];
    }
    assert(entry_map(s2) =~= entry_map(s));
}


// ───────────────────────────── what reading gives ─────────────────────────────

/// `trim_start` drops a prefix and leaves nothing or a non-space first.
proof fn lemma_trim_start_shape(x: Seq<char>)
    ensures
        trim_start(x).len() <= x.len(),
        trim_start(x) == x.subrange(x.len() - trim_start(x).len(), x.len() as int),
        trim_start(x).len() == 0 || !is_ws(trim_start(x)[0]),
    decreases x.len(),
{
    if x.len() > 0 && is_ws(x[0]) {
        lemma_trim_start_shape(x.drop_first());
        assert(x.drop_first().subrange(x.drop_first().len() - trim_start(x).len(), x.drop_first().len() as int)
            =~= x.subrange(x.len() - trim_start(x).len(), x.len() as int));
    } else {
        assert(x.subrange(0, x.len() as int) =~= x);
    }
}

/// `trim_end` drops a suffix and leaves nothing or a non-space last.
proof fn lemma_trim_end_shape(x: Seq<char>)
    ensures
        trim_end(x).len() <= x.len(),
        trim_end(x) == x.take(trim_end(x).len() as int),
        trim_end(x).len() == 0 || !is_ws(trim_end(x).last()),
    decreases x.len(),
{
    if x.len() > 0 && is_ws(x.last()) {
        lemma_trim_end_shape(x.drop_last());
        assert(x.drop_last().take(trim_end(x).len() as int) =~= x.take(trim_end(x).len() as int));
    } else {
        assert(x.take(x.len() as int) =~= x);
    }
}

/// `trim` gives a piece of its argument with no white space at its ends;
/// a piece that starts where the argument starts when that is no space.
proof fn lemma_trim_shape(x: Seq<char>) -> (ab: (int, int))
    ensures
        0 <= ab.0 <= ab.1 <= x.len(),
        trim(x) == x.subrange(ab.0, ab.1),
        is_trimmed(trim(x)),
        x.len() > 0 && !is_ws(x[0]) ==> ab.0 == 0,
{
    lemma_trim_start_shape(x);
    let y = trim_start(x);
    lemma_trim_end_shape(y);
    let a = x.len() - y.len();
    let b = a + trim_end(y).len();
    assert(trim(x) =~= x.subrange(a, b));
    if x.len() > 0 && !is_ws(x[0]) {
        assert(trim_start(x) == x);
    }
    if trim(x).len() > 0 {
        assert(trim(x)[0] == y[0]);
    }
    (a, b)
}

/// A character not in a text is in none of its pieces.
proof fn lemma_not_in_piece(x: Seq<char>, a: int, b: int, c: char)
    requires
        0 <= a <= b <= x.len(),
        !x.contains(c),
    ensures
        !x.subrange(a, b).contains(c),
{
    if x.subrange(a, b).contains(c) {
        let i = choose|i: int| 0 <= i < b - a && x.subrange(a, b)[i] == c;
        assert(x[a + i] == c);
    }
}

/// A line without line feeds gives, if anything, a pair that its written
/// line gives back.
proof fn lemma_line_entry_clean(line: Seq<char>)
    requires
        !line.contains('\n'),
        line_entry(line) is Some,
    ensures
        clean_entry(line_entry(line)->0),
{
    let (ta, tb) = lemma_trim_shape(line);
    let t = trim(line);
    lemma_not_in_piece(line, ta, tb, '\n');
    lemma_first_index(t, '=');
    let i = first_index(t, '=')->0;
    let k0 = t.take(i);
    let v0 = t.skip(i + 1);
    assert(k0 =~= t.subrange(0, i));
    assert(v0 =~= t.subrange(i + 1, t.len() as int));
    lemma_not_in_piece(t, 0, i, '\n');
    lemma_not_in_piece(t, i + 1, t.len() as int, '\n');
    assert(!k0.contains('=')) by {
        if k0.contains('=') {
            let j = choose|j: int| 0 <= j < k0.len() && k0[j] == '=';
            assert(t[j] == '=');
        }
    }
    let (ka, kb) = lemma_trim_shape(k0);
    let (va, vb) = lemma_trim_shape(v0);
    lemma_not_in_piece(k0, ka, kb, '=');
    lemma_not_in_piece(k0, ka, kb, '\n');
    lemma_not_in_piece(v0, va, vb, '\n');
    if trim(k0).len() > 0 {
        assert(k0[0] == t[0]);
        assert(ka == 0);
        assert(trim(k0)[0] == t[0]);
    }
}

/// The lines of a text hold no line feed.
proof fn lemma_lines_no_break(s: Seq<char>)
    ensures
        forall|j: int| 0 <= j < lines_seq(s).len() ==> !(#[trigger] lines_seq(s)[j]).contains('\n'),
{
    lemma_split_no_sep(s, '\n');
    lemma_split_nonempty(s, '\n');
    let parts = split_seq(s, '\n');
    assert forall|j: int| 0 <= j < lines_seq(s).len() implies !(#[trigger] lines_seq(s)[j]).contains('\n') by {
        assert(!parts[j].contains('\n'));
        if parts[j].len() > 0 && parts[j].last() == '\r' {
            lemma_not_in_piece(parts[j], 0, parts[j].len() - 1, '\n');
            assert(parts[j].drop_last() =~= parts[j].subrange(0, parts[j].len() - 1));
        }
    }
}

/// No piece of a split holds the separator.
proof fn lemma_split_no_sep(s: Seq<char>, sep: char)
    ensures
        forall|j: int| 0 <= j < split_seq(s, sep).len() ==> !(#[trigger] split_seq(s, sep)[j]).contains(sep),
    decreases s.len(),
{
    if s.len() > 0 {
        lemma_split_no_sep(s.drop_last(), sep);
        lemma_split_nonempty(s.drop_last(), sep);
        let p = split_seq(s.drop_last(), sep);
        if s.last() != sep {
            assert(!p.last().push(s.last()).contains(sep)) by {
                assert(!p[p.len() - 1].contains(sep));
                if p.last().push(s.last()).contains(sep) {
                    let j = choose|j: int| 0 <= j < p.last().len() + 1 && p.last().push(s.last())[j] == sep;
                    assert(p.last()[j] == sep);
                }
            }
        } else {
            assert(!Seq::<char>::empty().contains(sep));
        }
    }
}

/// Every pair of the map that lines set up is one its written line gives
/// back, when no line holds a line feed.
proof fn lemma_parse_lines_clean(ls: Seq<Seq<char>>)
    requires
        forall|j: int| 0 <= j < ls.len() ==> !(#[trigger] ls[j]).contains('\n'),
    ensures
        forall|k: Seq<char>| #[trigger] parse_lines(ls).dom().contains(k) ==> clean_entry((k, parse_lines(ls)[k])),
    decreases ls.len(),
{
    if ls.len() > 0 {
        let prev = ls.drop_last();
        assert forall|j: int| 0 <= j < prev.len() implies !(#[trigger] prev[j]).contains('\n') by {
            assert(prev[j] == ls[j]);
        }
        lemma_parse_lines_clean(prev);
        assert(!ls[ls.len() - 1].contains('\n'));
        if line_entry(ls.last()) is Some {
            lemma_line_entry_clean(ls.last());
        }
        let m = parse_lines(prev);
        assert forall|k: Seq<char>| #[trigger] parse_lines(ls).dom().contains(k) implies clean_entry((k, parse_lines(ls)[k])) by {
            match line_entry(ls.last()) {
                Some(e) => {
                    if k != e.0 {
                        assert(m.dom().contains(k));
                    }
                },
                None => {
                    assert(m.dom().contains(k));
                },
            }
        }
    }
}

/// Every pair that reading a text gives is one its written line gives back.
pub proof fn lemma_parse_config_clean(s: Seq<char>)
    ensures
        forall|k: Seq<char>| #[trigger] parse_config(s).dom().contains(k) ==> clean_entry((k, parse_config(s)[k])),
{
    lemma_lines_no_break(s);
    lemma_parse_lines_clean(lines_seq(s));
}

/// Writing what was read and reading it again gives what was read: for any
/// text, any listing of the pairs it sets up (each key once), written one
/// `key = value` line per pair in any order, reads back as the same map.
pub proof fn config_round_trip(s: Seq<char>, ps: Seq<(Seq<char>, Seq<char>)>, ls: Seq<Seq<char>>)
    requires
        keys_distinct(ps),
        entry_map(ps) == parse_config(s),
        ls.to_multiset() == entry_lines(ps).to_multiset(),
    ensures
        parse_config(terminated(ls)) == parse_config(s),
{
    lemma_parse_config_clean(s);
    lemma_entry_map(ps);
    assert forall|i: int| 0 <= i < ps.len() implies clean_entry(#[trigger] ps[i]) by {
        assert(entry_map(ps).dom().contains(ps[i].0));
        assert(entry_map(ps)[ps[i].0] == ps[i].1);
        assert((ps[i].0, ps[i].1) == ps[i]);
    }
    lemma_config_round_trip(ps, ls);
}

// ───────────────────────────── live edits ─────────────────────────────

/// An edit that a client asks for: set a key to a value, or drop a key.
#[derive(Debug)]
pub enum ConfigEdit {
    Put(String, String),
    Remove(String),
}

/// `s` without its line feeds and carriage returns.
pub open spec fn without_breaks(s: Seq<char>) -> Seq<char>
    decreases s.len(),
{
    if s.len() == 0 {
        s
    } else if s.last() == '\n' || s.last() == '\r' {
        without_breaks(s.drop_last())
    } else {
        without_breaks(s.drop_last()).push(s.last())
    }
}

/// The edit that a client message asks for: the trimmed message is
/// `set `, a key, a space and a value; key and value are trimmed and lose
/// their line breaks; an empty key asks for nothing, an empty value for
/// the key's removal.
pub open spec fn config_command(text: Seq<char>) -> Option<(Seq<char>, Seq<char>)> {
    let t = trim(text);
    if !starts_with(t, seq!['s', 'e', 't', ' ']) {
        None
    } else {
        let rest = t.skip(4);
        match first_index(rest, ' ') {
            Some(i) => {
                let k = without_breaks(trim(rest.take(i)));
                let v = without_breaks(trim(rest.skip(i + 1)));
                if k.len() == 0 {
                    None
                } else {
                    Some((k, v))
                }
            },
            None => None,
        }
    }
}

/// `s` without its line feeds and carriage returns.
fn drop_breaks(s: &[char]) -> (r: Vec<char>)
    ensures
        r@ == without_breaks(s@),
{
    let mut r: Vec<char> = Vec::new();
    let mut i: usize = 0;
    while i < s.len()
        invariant
            i <= s@.len(),
            r@ == without_breaks(s@.take(i as int)),
        decreases s.len() - i,
    {
        assert(s@.take(i + 1).drop_last() =~= s@.take(i as int));
        assert(s@.take(i + 1).last() == s@[i as int]);
        if s[i] != '\n' && s[i] != '\r' {
            r.push(s[i]);
        }
        i += 1;
    }
    assert(s@.take(s@.len() as int) =~= s@);
    r
}

/// Reads a client message (`set <key> <value>`) into the edit it asks for.
pub fn parse_config_command(text: &str) -> (r: Option<ConfigEdit>)
    ensures
        match config_command(text@) {
            None => r is None,
            Some((k, v)) => if v.len() == 0 {
                r matches Some(ConfigEdit::Remove(rk)) && rk@ == k
            } else {
                r matches Some(ConfigEdit::Put(rk, rv)) && rk@ == k && rv@ == v
            },
        },
{
    let t = trim_chars(chars_of(text).as_slice());
    let pre = vec!['s', 'e', 't', ' '];
    assert(pre@ =~= seq!['s', 'e', 't', ' ']);
    if !starts_with_chars(t.as_slice(), pre.as_slice()) {
        return None;
    }
    let rest = sub_vec(t.as_slice(), 4, t.len());
    assert(rest@ =~= t@.skip(4));
    match find_char(rest.as_slice(), ' ') {
        Some(i) => {
            proof {
                lemma_first_index(rest@, ' ');
            }
            let kc = drop_breaks(trim_chars(sub_vec(rest.as_slice(), 0, i).as_slice()).as_slice());
            let vc = drop_breaks(
                trim_chars(sub_vec(rest.as_slice(), i + 1, rest.len()).as_slice()).as_slice(),
            );
            assert(rest@.subrange(0, i as int) =~= rest@.take(i as int));
            assert(rest@.subrange(i + 1, rest@.len() as int) =~= rest@.skip(i + 1));
            if kc.len() == 0 {
                None
            } else if vc.len() == 0 {
                Some(ConfigEdit::Remove(string_of(kc.as_slice())))
            } else {
                Some(ConfigEdit::Put(string_of(kc.as_slice()), string_of(vc.as_slice())))
            }
        },
        None => None,
    }
}

impl ConfigMap {
    /// Carries out an edit.
    pub fn apply(&mut self, edit: ConfigEdit)
        ensures
            final(self)@ == match edit {
                ConfigEdit::Put(k, v) => old(self)@.insert(k@, v@),
                ConfigEdit::Remove(k) => old(self)@.remove(k@),
            },
    {
        match edit {
            ConfigEdit::Put(k, v) => self.insert(k, v),
            ConfigEdit::Remove(k) => self.remove(k.as_str()),
        }
    }

    /// The messages that tell a client the configuration: `key=value` for
    /// each key.
    pub fn update_messages(&self) -> (r: Vec<String>)
        ensures
            r@.len() == self.pairs().len(),
            forall|i: int| 0 <= i < r@.len() ==> (#[trigger] r@[i])@ == self.pairs()[i].0 + seq!['=']
                + self.pairs()[i].1,
    {
        let mut r: Vec<String> = Vec::new();
        let mut i: usize = 0;
        while i < self.entries.len()
            invariant
                i <= self.entries@.len(),
                r@.len() == i,
                forall|j: int| 0 <= j < i ==> (#[trigger] r@[j])@ == pair_views(self.entries@)[j].0
                    + seq!['='] + pair_views(self.entries@)[j].1,
            decreases self.entries.len() - i,
        {
            let mut l = chars_of(self.entries[i].0.as_str());
            l.push('=');
            let vc = chars_of(self.entries[i].1.as_str());
            append_chars(&mut l, vc.as_slice());
            let m = string_of(l.as_slice());
            assert(m@ =~= pair_views(self.entries@)[i as int].0 + seq!['='] + pair_views(
                self.entries@,
            )[i as int].1);
            r.push(m);
            i += 1;
        }
        r
    }
}

} // verus!
