//! Small text pieces of the browser-sharing mode of the command line
//! client: the JSON escaping of destination names and the destination a
//! request path names.
use vstd::prelude::*;
use crate::text::{append_str, chars_of, find_char, first_index, lemma_first_index, starts_with, starts_with_str, string_of, sub_vec};

verus! {

broadcast use vstd::string::group_string_axioms;

/// A character inside a JSON string: backslash, double quote and line feed
/// get a backslash (the line feed as `\n`).
pub open spec fn json_escape_char(c: char) -> Seq<char> {
    if c == '\\' {
        seq!['\\', '\\']
    } else if c == '"' {
        seq!['\\', '"']
    } else if c == '\n' {
        seq!['\\', 'n']
    } else {
        seq![c]
    }
}

/// The characters of `s`, each escaped.
pub open spec fn json_escaped(s: Seq<char>) -> Seq<char>
    decreases s.len(),
{
    if s.len() == 0 {
        seq![]
    } else {
        json_escaped(s.drop_last()) + json_escape_char(s.last())
    }
}

/// Escapes a destination name for a JSON string.
pub fn json_escape(s: &str) -> (r: String)
    ensures
        r@ == json_escaped(s@),
{
    let cs = chars_of(s);
    let n = cs.len();
    let mut out: Vec<char> = Vec::new();
    let mut i: usize = 0;
    while i < n
        invariant
            n == cs@.len(),
            i <= n,
            out@ == json_escaped(cs@.take(i as int)),
        decreases n - i,
    {
        let c = cs[i];
        assert(cs@.take(i + 1).drop_last() =~= cs@.take(i as int));
        if c == '\\' {
            out.push('\\');
            out.push('\\');
        } else if c == '"' {
            out.push('\\');
            out.push('"');
        } else if c == '\n' {
            out.push('\\');
            out.push('n');
        } else {
            out.push(c);
        }
        assert(out@ =~= json_escaped(cs@.take(i + 1)));
        i += 1;
    }
    assert(cs@.take(n as int) =~= cs@);
    string_of(out.as_slice())
}

/// The destination that a request path names: for `/d/{name}...` the
/// name, up to the next `/`, when it is not empty; else none (the root
/// goes to the first destination).
pub open spec fn destination_name(path: Seq<char>) -> Option<Seq<char>> {
    if starts_with(path, "/d/"@) {
        let rest = path.subrange(3, path.len() as int);
        let name = match first_index(rest, '/') {
            Some(i) => rest.subrange(0, i),
            None => rest,
        };
        if name.len() > 0 {
            Some(name)
        } else {
            None
        }
    } else {
        None
    }
}

/// Which destination a request is for.
pub fn resolve_destination_name(path: &str) -> (r: Option<String>)
    ensures
        match r {
            Some(t) => destination_name(path@) == Some(t@),
            None => destination_name(path@) is None,
        },
{
    let cs = chars_of(path);
    if !starts_with_str(cs.as_slice(), "/d/") {
        return None;
    }
    proof {
        reveal_strlit("/d/");
    }
    let rest = sub_vec(cs.as_slice(), 3, cs.len());
    proof {
        lemma_first_index(rest@, '/');
    }
    let name = match find_char(rest.as_slice(), '/') {
        Some(i) => sub_vec(rest.as_slice(), 0, i),
        None => rest,
    };
    if name.len() > 0 {
        Some(string_of(name.as_slice()))
    } else {
        None
    }
}

/// Where a destination of the browser mode leads: an SSH host (with an
/// optional user and remote socket), a TCP address, a socket path, or the
/// local server.
pub enum Destination {
    Ssh { user: Option<String>, host: String, socket: Option<String> },
    Tcp(String),
    Socket(String),
    Local,
}

/// The SSH target of a host: `user@host`, or the host alone.
pub fn ssh_target(user: Option<&str>, host: &str) -> (r: String)
    ensures
        r@ == match user {
            Some(u) => u@ + "@"@ + host@,
            None => host@,
        },
{
    match user {
        Some(u) => {
            let mut v = chars_of(u);
            append_str(&mut v, "@");
            append_str(&mut v, host);
            string_of(v.as_slice())
        },
        None => string_of(chars_of(host).as_slice()),
    }
}

/// The label a destination is shown under: an SSH destination's host, a
/// TCP address up to its first `:`, a socket destination's name, and
/// `local` for the local server.
pub open spec fn label_of(name: Seq<char>, dest: Destination) -> Seq<char> {
    match dest {
        Destination::Ssh { host, .. } => host@,
        Destination::Tcp(addr) => match first_index(addr@, ':') {
            Some(i) => addr@.take(i),
            None => addr@,
        },
        Destination::Socket(_) => name,
        Destination::Local => "local"@,
    }
}

/// The label of a destination.
pub fn destination_label(name: &str, dest: &Destination) -> (r: String)
    ensures
        r@ == label_of(name@, *dest),
{
    match dest {
        Destination::Ssh { host, .. } => host.clone(),
        Destination::Tcp(addr) => {
            let cs = chars_of(addr.as_str());
            proof {
                lemma_first_index(cs@, ':');
            }
            match find_char(cs.as_slice(), ':') {
                Some(i) => {
                    let head = sub_vec(cs.as_slice(), 0, i);
                    assert(head@ =~= cs@.take(i as int));
                    string_of(head.as_slice())
                },
                None => string_of(cs.as_slice()),
            }
        },
        Destination::Socket(_) => string_of(chars_of(name).as_slice()),
        Destination::Local => string_of(chars_of("local").as_slice()),
    }
}

/// What follows a connection attempt to a destination before serving.
#[derive(Clone, Copy, Debug, PartialEq, Eq, Structural)]
pub enum RetryAction {
    /// The destination answered.
    Ready,
    /// Wait a tenth of a second and try again.
    WaitAndRetry,
    /// Wait a tenth of a second, then give up with the last error.
    WaitAndGiveUp,
    /// Give up with the error.
    GiveUp,
}

/// The attempts allowed each destination.
pub const CONNECT_ATTEMPTS: u32 = 30;

/// After an attempt that failed `attempts` times before: success is done;
/// a failure counts one more attempt and waits, then tries again, or gives
/// up once thirty failures are counted. Returns the action and the count.
pub fn connect_retry(attempts: u32, connected: bool) -> (r: (RetryAction, u32))
    ensures
        r == (if connected {
            (RetryAction::Ready, attempts)
        } else if attempts < CONNECT_ATTEMPTS {
            (if attempts + 1 == CONNECT_ATTEMPTS {
                RetryAction::WaitAndGiveUp
            } else {
                RetryAction::WaitAndRetry
            }, (attempts + 1) as u32)
        } else {
            (RetryAction::GiveUp, attempts)
        }),
{
    if connected {
        (RetryAction::Ready, attempts)
    } else if attempts < CONNECT_ATTEMPTS {
        let a = attempts + 1;
        if a == CONNECT_ATTEMPTS {
            (RetryAction::WaitAndGiveUp, a)
        } else {
            (RetryAction::WaitAndRetry, a)
        }
    } else {
        (RetryAction::GiveUp, attempts)
    }
}

/// The address the browser opens: `http://ADDR/#TOKEN`.
pub fn browser_url(addr: &str, token: &str) -> (r: String)
    ensures
        r@ == "http://"@ + addr@ + "/#"@ + token@,
{
    let mut v = chars_of("http://");
    append_str(&mut v, addr);
    append_str(&mut v, "/#");
    append_str(&mut v, token);
    string_of(v.as_slice())
}

} // verus!
