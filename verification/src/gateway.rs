//! What the gateways answer: which route a request takes, and the JSON
//! that describes a gateway and its destinations.
use vstd::prelude::*;
use crate::config::{keys_distinct, pair_views};
use crate::fonts::{eq_ascii_nocase, eq_ignore_ascii_case};
use crate::interactive::{json_escape, json_escaped};
use crate::sorted::{insert_sorted, sorted};
use crate::text::{append_chars, append_str, chars_eq, chars_of, string_of};

verus! {

broadcast use vstd::string::group_string_axioms;

// ───────────────────────────── routes ─────────────────────────────

/// Where a gateway request goes (after the font routes).
#[derive(Clone, Copy, Debug, PartialEq, Eq, Structural)]
pub enum GatewayRoute {
    /// The configuration socket: a WebSocket upgrade to `.../config`
    /// when the gateway keeps a configuration.
    ConfigSocket,
    /// The terminal socket: any other WebSocket upgrade.
    Socket,
    /// The gateway's description as JSON: `.../config` without upgrade.
    ConfigJson,
    /// The page.
    Index,
}

/// `s` ends with `suffix`.
pub open spec fn ends_with(s: Seq<char>, suffix: Seq<char>) -> bool {
    suffix.len() <= s.len() && s.subrange(s.len() - suffix.len(), s.len() as int) == suffix
}

/// The route of a request for `path` whose `Upgrade` header reads
/// `upgrade` (none when absent or not text).
pub open spec fn route_of(path: Seq<char>, upgrade: Option<Seq<char>>, has_config: bool) -> GatewayRoute {
    let ws = match upgrade {
        Some(u) => eq_ascii_nocase(u, "websocket"@),
        None => false,
    };
    let config = ends_with(path, "/config"@);
    if ws && config && has_config {
        GatewayRoute::ConfigSocket
    } else if ws {
        GatewayRoute::Socket
    } else if config {
        GatewayRoute::ConfigJson
    } else {
        GatewayRoute::Index
    }
}

fn ends_with_str(s: &str, suffix: &str) -> (r: bool)
    ensures
        r == ends_with(s@, suffix@),
{
    let a = chars_of(s);
    let b = chars_of(suffix);
    if b.len() > a.len() {
        return false;
    }
    let la = a.len();
    let off = la - b.len();
    let mut i: usize = 0;
    while i < b.len()
        invariant
            a@ == s@,
            b@ == suffix@,
            la == a@.len(),
            off == a@.len() - b@.len(),
            i <= b@.len(),
            forall|k: int| 0 <= k < i ==> a@[off + k] == b@[k],
        decreases b.len() - i,
    {
        if a[off + i] != b[i] {
            assert(a@.subrange(off as int, a@.len() as int)[i as int] != b@[i as int]);
            return false;
        }
        i += 1;
    }
    assert(a@.subrange(off as int, a@.len() as int) =~= b@);
    true
}

/// Which route a request takes.
pub fn gateway_route(path: &str, upgrade: Option<&str>, has_config: bool) -> (r: GatewayRoute)
    ensures
        r == route_of(path@, match upgrade {
            Some(u) => Some(u@),
            None => None,
        }, has_config),
{
    let ws = match upgrade {
        Some(u) => eq_ignore_ascii_case(u, "websocket"),
        None => false,
    };
    let config = ends_with_str(path, "/config");
    if ws && config && has_config {
        GatewayRoute::ConfigSocket
    } else if ws {
        GatewayRoute::Socket
    } else if config {
        GatewayRoute::ConfigJson
    } else {
        GatewayRoute::Index
    }
}

// ───────────────────────────── descriptions ─────────────────────────────

/// The gateway's description: `{"gateway":true}`, with its certificate
/// hash when it has one.
pub open spec fn gateway_json(cert_hash: Option<Seq<char>>) -> Seq<char> {
    match cert_hash {
        Some(h) => "{\"gateway\":true,\"certHash\":\""@ + h + "\"}"@,
        None => "{\"gateway\":true}"@,
    }
}

/// The gateway's description.
pub fn gateway_config_json(cert_hash: Option<&str>) -> (r: String)
    ensures
        r@ == gateway_json(match cert_hash {
            Some(h) => Some(h@),
            None => None,
        }),
{
    let mut out = chars_of("{\"gateway\":true");
    match cert_hash {
        Some(h) => {
            append_str(&mut out, ",\"certHash\":\"");
            append_str(&mut out, h);
            out.push('"');
        },
        None => {},
    }
    out.push('}');
    proof {
        reveal_strlit("{\"gateway\":true");
        reveal_strlit(",\"certHash\":\"");
        reveal_strlit("{\"gateway\":true,\"certHash\":\"");
        reveal_strlit("\"}");
        reveal_strlit("{\"gateway\":true}");
    }
    assert(out@ =~= gateway_json(match cert_hash {
        Some(h) => Some(h@),
        None => None,
    }));
    string_of(out.as_slice())
}

/// The label of the destination named `name` (its first pair).
pub open spec fn label_for(dests: Seq<(Seq<char>, Seq<char>)>, name: Seq<char>) -> Seq<char>
    decreases dests.len(),
{
    if dests.len() == 0 {
        seq![]
    } else if dests[0].0 == name {
        dests[0].1
    } else {
        label_for(dests.drop_first(), name)
    }
}

/// A destination in JSON.
pub open spec fn destination_json(name: Seq<char>, label: Seq<char>) -> Seq<char> {
    "{\"id\":\""@ + json_escaped(name) + "\",\"type\":\"gateway\",\"label\":\""@ + json_escaped(label)
        + "\"}"@
}

/// The destinations named `names`, in that order, separated by commas.
pub open spec fn destinations_text(names: Seq<Seq<char>>, dests: Seq<(Seq<char>, Seq<char>)>) -> Seq<char>
    decreases names.len(),
{
    if names.len() == 0 {
        seq![]
    } else if names.len() == 1 {
        destination_json(names[0], label_for(dests, names[0]))
    } else {
        destinations_text(names.drop_last(), dests) + seq![','] + destination_json(
            names.last(),
            label_for(dests, names.last()),
        )
    }
}

/// The names of destinations.
pub open spec fn dest_names(dests: Seq<(Seq<char>, Seq<char>)>) -> Seq<Seq<char>> {
    Seq::new(dests.len(), |i: int| dests[i].0)
}

/// The browser gateway's description: its destinations sorted by name.
pub open spec fn destinations_config(names: Seq<Seq<char>>, dests: Seq<(Seq<char>, Seq<char>)>) -> Seq<char> {
    "{\"gateway\":true,\"destinations\":["@ + destinations_text(names, dests) + "]}"@
}

fn label_of(dests: &[(String, String)], name: &[char]) -> (r: String)
    ensures
        r@ == label_for(pair_views(dests@), name@),
{
    let ghost ps = pair_views(dests@);
    assert(ps.subrange(0, ps.len() as int) =~= ps);
    let mut i: usize = 0;
    while i < dests.len()
        invariant
            i <= dests@.len(),
            ps == pair_views(dests@),
            label_for(ps, name@) == label_for(ps.subrange(i as int, ps.len() as int), name@),
        decreases dests.len() - i,
    {
        let ghost rest = ps.subrange(i as int, ps.len() as int);
        assert(rest.drop_first() =~= ps.subrange(i + 1, ps.len() as int));
        let k = chars_of(dests[i].0.as_str());
        if chars_eq(k.as_slice(), name) {
            return dests[i].1.clone();
        }
        i += 1;
    }
    String::new()
}

/// The browser gateway's description of its destinations, each a name and
/// a label: `{"gateway":true,"destinations":[...]}` with one object per
/// destination, sorted by name.
pub fn destinations_json(dests: &[(String, String)]) -> (r: String)
    requires
        keys_distinct(pair_views(dests@)),
    ensures
        exists|ls: Seq<Seq<char>>|
            #![trigger destinations_config(ls, pair_views(dests@))]
            sorted(ls) && ls.to_multiset() == dest_names(pair_views(dests@)).to_multiset() && r@
                == destinations_config(ls, pair_views(dests@)),
{
    broadcast use vstd::seq_lib::group_to_multiset_ensures;

    let ghost ps = pair_views(dests@);
    let mut names: Vec<Vec<char>> = Vec::new();
    let mut i: usize = 0;
    while i < dests.len()
        invariant
            i <= dests@.len(),
            ps == pair_views(dests@),
            sorted(crate::text::views(names@)),
            crate::text::views(names@).to_multiset() == dest_names(ps.take(i as int)).to_multiset(),
        decreases dests.len() - i,
    {
        let n = chars_of(dests[i].0.as_str());
        let ghost nv = n@;
        assert(dest_names(ps.take(i + 1)) =~= dest_names(ps.take(i as int)).push(nv));
        proof {
            dest_names(ps.take(i as int)).to_multiset_ensures();
        }
        insert_sorted(&mut names, n);
        i += 1;
    }
    assert(ps.take(ps.len() as int) =~= ps);
    let ghost ls = crate::text::views(names@);
    let mut out: Vec<char> = Vec::new();
    let mut j: usize = 0;
    while j < names.len()
        invariant
            j <= names@.len(),
            ps == pair_views(dests@),
            ls == crate::text::views(names@),
            out@ == destinations_text(ls.take(j as int), ps),
        decreases names.len() - j,
    {
        assert(ls.take(j + 1).drop_last() =~= ls.take(j as int));
        assert(ls.take(j + 1).last() == names@[j as int]@);
        if j > 0 {
            out.push(',');
        }
        let label = label_of(dests, names[j].as_slice());
        let mut item = chars_of("{\"id\":\"");
        let en = json_escape(string_of(names[j].as_slice()).as_str());
        append_str(&mut item, en.as_str());
        append_str(&mut item, "\",\"type\":\"gateway\",\"label\":\"");
        let el = json_escape(label.as_str());
        append_str(&mut item, el.as_str());
        append_str(&mut item, "\"}");
        assert(item@ =~= destination_json(names@[j as int]@, label_for(ps, names@[j as int]@)));
        append_chars(&mut out, item.as_slice());
        assert(out@ =~= destinations_text(ls.take(j + 1), ps));
        j += 1;
    }
    assert(ls.take(ls.len() as int) =~= ls);
    let mut r = chars_of("{\"gateway\":true,\"destinations\":[");
    append_chars(&mut r, out.as_slice());
    append_str(&mut r, "]}");
    assert(r@ =~= destinations_config(ls, ps));
    string_of(r.as_slice())
}

} // verus!
