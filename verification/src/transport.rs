//! The command that bridges a client's standard streams to a terminal
//! server's socket on another machine, run there over SSH.
use vstd::prelude::*;
use crate::text::{append_chars, append_str, chars_of, string_of};

verus! {

/// Starts a server on the remote machine when its socket `$S` is missing,
/// with `blit server` or else `blit-server`, and waits up to five seconds
/// for the socket.
pub const SSH_AUTOSTART: &'static str = "if ! [ -S \"$S\" ]; then if command -v blit >/dev/null 2>&1; then blit server & i=0; while ! [ -S \"$S\" ] && [ $i -lt 50 ]; do sleep 0.1; i=$((i+1)); done; elif command -v blit-server >/dev/null 2>&1; then blit-server & i=0; while ! [ -S \"$S\" ] && [ $i -lt 50 ]; do sleep 0.1; i=$((i+1)); done; fi; fi";

/// Finds the server's socket on the remote machine: `$BLIT_SOCK`, then the
/// usual places, else `/tmp/blit.sock`.
pub const SSH_SOCK_SEARCH: &'static str = "if [ -n \"$BLIT_SOCK\" ]; then S=\"$BLIT_SOCK\"; elif [ -n \"$TMPDIR\" ] && [ -S \"$TMPDIR/blit.sock\" ]; then S=\"$TMPDIR/blit.sock\"; elif [ -S \"/tmp/blit-$(id -un).sock\" ]; then S=\"/tmp/blit-$(id -un).sock\"; elif [ -S \"/run/blit/$(id -un).sock\" ]; then S=\"/run/blit/$(id -un).sock\"; elif [ -n \"$XDG_RUNTIME_DIR\" ] && [ -S \"$XDG_RUNTIME_DIR/blit.sock\" ]; then S=\"$XDG_RUNTIME_DIR/blit.sock\"; else S=/tmp/blit.sock; fi";

/// The remote command: `sh -c '…'` that sets `S` to the given socket path
/// (else searches for it), starts a server if needed, and connects the
/// streams to the socket with `nc -U` (or `socat`).
pub open spec fn bridge_script(remote_socket: Option<Seq<char>>) -> Seq<char> {
    let resolve = match remote_socket {
        Some(p) => "S='"@ + p + "'"@,
        None => SSH_SOCK_SEARCH@,
    };
    "sh -c '"@ + resolve + "; "@ + SSH_AUTOSTART@ + "; exec nc -U \"$S\" 2>/dev/null || socat - \"UNIX-CONNECT:$S\"'"@
}

/// The remote command that bridges to the server's socket.
pub fn ssh_bridge_script(remote_socket: Option<&str>) -> (r: String)
    ensures
        r@ == bridge_script(match remote_socket {
            Some(p) => Some(p@),
            None => None,
        }),
{
    let mut v = chars_of("sh -c '");
    match remote_socket {
        Some(p) => {
            append_str(&mut v, "S='");
            append_chars(&mut v, chars_of(p).as_slice());
            append_str(&mut v, "'");
        },
        None => {
            append_str(&mut v, SSH_SOCK_SEARCH);
        },
    }
    append_str(&mut v, "; ");
    append_str(&mut v, SSH_AUTOSTART);
    append_str(&mut v, "; exec nc -U \"$S\" 2>/dev/null || socat - \"UNIX-CONNECT:$S\"'");
    let r = string_of(v.as_slice());
    assert(r@ =~= bridge_script(match remote_socket {
        Some(p) => Some(p@),
        None => None,
    }));
    r
}

/// What the choice of the local server's socket reads from the
/// environment: `BLIT_SOCK`, `TMPDIR`, `USER` and `XDG_RUNTIME_DIR`.
pub struct SocketEnv {
    pub blit_sock: Option<String>,
    pub tmpdir: Option<String>,
    pub user: Option<String>,
    pub xdg_runtime_dir: Option<String>,
}

/// The socket paths to try, in order, taking the first that exists, and
/// the path to take when none does: `BLIT_SOCK` outright; else
/// `$TMPDIR/blit.sock`, `/tmp/blit-$USER.sock` and `/run/blit/$USER.sock`
/// (each when its variable is set) if they exist, else
/// `$XDG_RUNTIME_DIR/blit.sock`, else `/tmp/blit.sock`.
pub open spec fn socket_plan_spec(
    blit_sock: Option<Seq<char>>,
    tmpdir: Option<Seq<char>>,
    user: Option<Seq<char>>,
    xdg: Option<Seq<char>>,
) -> (Seq<Seq<char>>, Seq<char>) {
    match blit_sock {
        Some(p) => (seq![], p),
        None => {
            let a = match tmpdir {
                Some(d) => seq![d + "/blit.sock"@],
                None => seq![],
            };
            let b = match user {
                Some(u) => seq!["/tmp/blit-"@ + u + ".sock"@, "/run/blit/"@ + u + ".sock"@],
                None => seq![],
            };
            let fallback = match xdg {
                Some(d) => d + "/blit.sock"@,
                None => "/tmp/blit.sock"@,
            };
            (a + b, fallback)
        },
    }
}

/// The views of a vector of strings.
pub open spec fn string_views(v: Seq<String>) -> Seq<Seq<char>> {
    v.map_values(|s: String| s@)
}

/// The view of an optional string.
pub open spec fn opt_view(o: Option<String>) -> Option<Seq<char>> {
    match o {
        Some(s) => Some(s@),
        None => None,
    }
}

/// Where to look for the local server's socket.
pub fn socket_plan(env: &SocketEnv) -> (r: (Vec<String>, String))
    ensures
        (string_views(r.0@), r.1@) == socket_plan_spec(
            opt_view(env.blit_sock),
            opt_view(env.tmpdir),
            opt_view(env.user),
            opt_view(env.xdg_runtime_dir),
        ),
{
    let mut probes: Vec<String> = Vec::new();
    if let Some(p) = &env.blit_sock {
        assert(string_views(probes@) =~= Seq::<Seq<char>>::empty());
        return (probes, p.clone());
    }
    if let Some(d) = &env.tmpdir {
        let mut v = chars_of(d.as_str());
        append_str(&mut v, "/blit.sock");
        probes.push(string_of(v.as_slice()));
    }
    if let Some(u) = &env.user {
        let mut v = chars_of("/tmp/blit-");
        append_str(&mut v, u.as_str());
        append_str(&mut v, ".sock");
        probes.push(string_of(v.as_slice()));
        let mut w = chars_of("/run/blit/");
        append_str(&mut w, u.as_str());
        append_str(&mut w, ".sock");
        probes.push(string_of(w.as_slice()));
    }
    let fallback = match &env.xdg_runtime_dir {
        Some(d) => {
            let mut v = chars_of(d.as_str());
            append_str(&mut v, "/blit.sock");
            string_of(v.as_slice())
        },
        None => string_of(chars_of("/tmp/blit.sock").as_slice()),
    };
    assert(string_views(probes@) =~= socket_plan_spec(
        opt_view(env.blit_sock),
        opt_view(env.tmpdir),
        opt_view(env.user),
        opt_view(env.xdg_runtime_dir),
    ).0);
    (probes, fallback)
}

} // verus!
