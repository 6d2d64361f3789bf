//! The terminal server's settings: from its environment variables and its
//! command line arguments.
use vstd::prelude::*;
use crate::agent::{all_digits, digits_value, is_digit, parse_i32, parse_i32_spec};
use crate::text::{append_chars, append_str, chars_eq_str, chars_of, starts_with, starts_with_str, string_of, sub_vec};

verus! {

broadcast use vstd::string::group_string_axioms;

// ───────────────────────────── numbers ─────────────────────────────

/// The digits of an unsigned number's text: without a leading `+`.
pub open spec fn unsigned_body(s: Seq<char>) -> Seq<char> {
    if s.len() > 0 && s[0] == '+' {
        s.drop_first()
    } else {
        s
    }
}

/// What `str::parse` gives for an unsigned type whose largest value is
/// `max`: an optional `+`, then one or more ASCII digits, with the value
/// at most `max`.
pub open spec fn parse_bounded_spec(s: Seq<char>, max: u64) -> Option<u64> {
    let body = unsigned_body(s);
    if body.len() == 0 || !all_digits(body) || digits_value(body) > max {
        None
    } else {
        Some(digits_value(body) as u64)
    }
}

/// What `str::parse::<usize>` gives.
pub open spec fn parse_usize_spec(s: Seq<char>) -> Option<usize> {
    match parse_bounded_spec(s, usize::MAX as u64) {
        Some(v) => Some(v as usize),
        None => None,
    }
}

/// `str::parse` for an unsigned type whose largest value is `max`.
pub fn parse_bounded(s: &[char], max: u64) -> (r: Option<u64>)
    ensures
        r == parse_bounded_spec(s@, max),
{
    let n = s.len();
    let start: usize = if n > 0 && s[0] == '+' {
        1
    } else {
        0
    };
    let ghost body = unsigned_body(s@);
    assert(body =~= s@.subrange(start as int, n as int));
    if start == n {
        return None;
    }
    // Saturates at 2^64, above every value a `u64` can take.
    let cap: u128 = 18446744073709551616;
    let mut acc: u128 = 0;
    let mut i = start;
    while i < n
        invariant
            n == s@.len(),
            start <= i <= n,
            body == s@.subrange(start as int, n as int),
            body == unsigned_body(s@),
            cap == 18446744073709551616,
            forall|j: int| start <= j < i ==> is_digit(#[trigger] s@[j]),
            acc == (if digits_value(s@.subrange(start as int, i as int)) < cap {
                digits_value(s@.subrange(start as int, i as int))
            } else {
                cap as nat
            }),
        decreases n - i,
    {
        let c = s[i];
        if !('0' <= c && c <= '9') {
            assert(body[i - start] == c);
            assert(!is_digit(body[i - start]));
            assert(!all_digits(body));
            return None;
        }
        let d = (c as u32 - 48) as u128;
        let ghost prev = s@.subrange(start as int, i as int);
        assert(s@.subrange(start as int, i + 1) =~= prev.push(c));
        assert(s@.subrange(start as int, i + 1).drop_last() =~= prev);
        if acc >= cap {
            assert(digits_value(prev.push(c)) >= digits_value(prev));
        } else {
            let next = acc * 10 + d;
            if next >= cap {
                acc = cap;
            } else {
                acc = next;
            }
        }
        i += 1;
    }
    assert(s@.subrange(start as int, n as int) == body);
    assert(all_digits(body)) by {
        assert forall|j: int| 0 <= j < body.len() implies is_digit(#[trigger] body[j]) by {
            assert(body[j] == s@[start + j]);
        }
    }
    if acc > max as u128 {
        None
    } else {
        Some(acc as u64)
    }
}

/// `str::parse::<usize>`.
pub fn parse_usize(s: &[char]) -> (r: Option<usize>)
    ensures
        r == parse_usize_spec(s@),
{
    match parse_bounded(s, usize::MAX as u64) {
        Some(v) => Some(v as usize),
        None => None,
    }
}

// ───────────────────────────── settings ─────────────────────────────

/// The environment variables the server reads (`None` when unset).
pub struct ServerEnv {
    /// `SHELL`
    pub shell: Option<String>,
    /// `BLIT_SHELL_FLAGS`
    pub shell_flags: Option<String>,
    /// `BLIT_SCROLLBACK`
    pub scrollback: Option<String>,
    /// `BLIT_SOCK`
    pub sock: Option<String>,
    /// `BLIT_FD_CHANNEL`
    pub fd_channel: Option<String>,
    /// `BLIT_VERBOSE`
    pub verbose: Option<String>,
    /// `BLIT_VAAPI_DEVICE`
    pub vaapi_device: Option<String>,
    /// `BLIT_SURFACE_H264_ENCODER`
    pub surface_encoder: Option<String>,
}

/// The server's settings; the socket path is unset when neither the
/// environment nor the arguments give one.
#[derive(Debug)]
pub struct ServerSettings {
    pub shell: String,
    pub shell_flags: String,
    pub scrollback: usize,
    pub ipc_path: Option<String>,
    pub vaapi_device: String,
    pub fd_channel: Option<i32>,
    pub verbose: bool,
}

/// Why the server stops before starting: help or version asked for, or a
/// mistake, with its message and whether the usage line follows it.
#[derive(Debug, PartialEq, Eq)]
pub enum ServerExit {
    Help,
    Version,
    Fail { message: String, usage: bool },
}

/// What the settings say, as text and numbers.
pub struct SettingsState {
    pub shell: Seq<char>,
    pub flags: Seq<char>,
    pub scrollback: usize,
    pub ipc: Option<Seq<char>>,
    pub vaapi: Seq<char>,
    pub fd: Option<i32>,
    pub verbose: bool,
}

/// Why the server stops, as text.
pub enum ExitView {
    Help,
    Version,
    Fail(Seq<char>, bool),
}

pub open spec fn opt_chars(o: Option<String>) -> Option<Seq<char>> {
    match o {
        Some(s) => Some(s@),
        None => None,
    }
}

/// The settings that the environment gives, before the arguments: a
/// `BLIT_FD_CHANNEL` that is not a number is a mistake, and so is an
/// encoder preference the server does not know (`encoder_ok` false).
pub open spec fn env_settings(env: ServerEnv, encoder_ok: bool) -> Result<SettingsState, ExitView> {
    let fd = match env.fd_channel {
        Some(s) => match parse_i32_spec(s@) {
            Some(v) => Ok(Some(v)),
            None => Err(ExitView::Fail("invalid fd number for BLIT_FD_CHANNEL: "@ + s@, false)),
        },
        None => Ok(None),
    };
    match fd {
        Err(e) => Err(e),
        Ok(fd) => if !encoder_ok {
            Err(ExitView::Fail(encoder_error(match env.surface_encoder {
                Some(v) => v@,
                None => seq![],
            }), false))
        } else {
            Ok(
                SettingsState {
                    shell: match env.shell {
                        Some(s) => s@,
                        None => "/bin/sh"@,
                    },
                    flags: match env.shell_flags {
                        Some(s) => s@,
                        None => "li"@,
                    },
                    scrollback: match env.scrollback {
                        Some(s) => match parse_usize_spec(s@) {
                            Some(v) => v,
                            None => 10000,
                        },
                        None => 10000,
                    },
                    ipc: opt_chars(env.sock),
                    vaapi: match env.vaapi_device {
                        Some(s) => s@,
                        None => "/dev/dri/renderD128"@,
                    },
                    fd,
                    verbose: match env.verbose {
                        Some(v) => v@ == "1"@,
                        None => false,
                    },
                },
            )
        },
    }
}

/// The message of an unknown encoder preference.
pub open spec fn encoder_error(value: Seq<char>) -> Seq<char> {
    "invalid BLIT_SURFACE_H264_ENCODER value: "@ + value + "\nexpected one of: auto, software, vaapi"@
}

/// The settings after the arguments from `i` on: `--help`/`-h` and
/// `--version`/`-V` stop; `--socket`, `--fd-channel` and `--shell-flags`
/// take a value (`=value` or the next argument); `--verbose`/`-v` turns
/// verbose on; another argument starting with `-` is a mistake; any other
/// is the socket path, which may be given once.
pub open spec fn args_fold(st: SettingsState, args: Seq<Seq<char>>, i: int) -> Result<SettingsState, ExitView>
    decreases args.len() - i,
{
    if i < 0 || i >= args.len() {
        Ok(st)
    } else {
        let a = args[i];
        let has_next = i + 1 < args.len();
        if a == "--help"@ || a == "-h"@ {
            Err(ExitView::Help)
        } else if a == "--version"@ || a == "-V"@ {
            Err(ExitView::Version)
        } else if starts_with(a, "--socket="@) {
            args_fold(SettingsState { ipc: Some(a.skip(9)), ..st }, args, i + 1)
        } else if a == "--socket"@ {
            if has_next {
                args_fold(SettingsState { ipc: Some(args[i + 1]), ..st }, args, i + 2)
            } else {
                Err(ExitView::Fail("missing value for --socket"@, true))
            }
        } else if starts_with(a, "--fd-channel="@) {
            match parse_i32_spec(a.skip(13)) {
                Some(v) => args_fold(SettingsState { fd: Some(v), ..st }, args, i + 1),
                None => Err(ExitView::Fail("invalid fd number for --fd-channel: "@ + a.skip(13), false)),
            }
        } else if a == "--fd-channel"@ {
            if has_next {
                match parse_i32_spec(args[i + 1]) {
                    Some(v) => args_fold(SettingsState { fd: Some(v), ..st }, args, i + 2),
                    None => Err(
                        ExitView::Fail("invalid fd number for --fd-channel: "@ + args[i + 1], false),
                    ),
                }
            } else {
                Err(ExitView::Fail("missing value for --fd-channel"@, true))
            }
        } else if starts_with(a, "--shell-flags="@) {
            args_fold(SettingsState { flags: a.skip(14), ..st }, args, i + 1)
        } else if a == "--shell-flags"@ {
            if has_next {
                args_fold(SettingsState { flags: args[i + 1], ..st }, args, i + 2)
            } else {
                Err(ExitView::Fail("missing value for --shell-flags"@, true))
            }
        } else if a == "--verbose"@ || a == "-v"@ {
            args_fold(SettingsState { verbose: true, ..st }, args, i + 1)
        } else if a.len() > 0 && a[0] == '-' {
            Err(ExitView::Fail("unrecognized argument: "@ + a, true))
        } else if st.ipc is Some {
            Err(ExitView::Fail("multiple socket paths provided"@, true))
        } else {
            args_fold(SettingsState { ipc: Some(a), ..st }, args, i + 1)
        }
    }
}

/// The server's settings from its environment and arguments.
pub open spec fn server_settings(env: ServerEnv, encoder_ok: bool, args: Seq<Seq<char>>) -> Result<SettingsState, ExitView> {
    match env_settings(env, encoder_ok) {
        Err(e) => Err(e),
        Ok(st) => args_fold(st, args, 0),
    }
}

/// The view of settings.
pub open spec fn settings_view(s: ServerSettings) -> SettingsState {
    SettingsState {
        shell: s.shell@,
        flags: s.shell_flags@,
        scrollback: s.scrollback,
        ipc: opt_chars(s.ipc_path),
        vaapi: s.vaapi_device@,
        fd: s.fd_channel,
        verbose: s.verbose,
    }
}

/// The view of an exit.
pub open spec fn exit_view(e: ServerExit) -> ExitView {
    match e {
        ServerExit::Help => ExitView::Help,
        ServerExit::Version => ExitView::Version,
        ServerExit::Fail { message, usage } => ExitView::Fail(message@, usage),
    }
}

fn text(lit: &str) -> (r: String)
    ensures
        r@ == lit@,
{
    string_of(chars_of(lit).as_slice())
}

fn joined(lit: &str, rest: &[char]) -> (r: String)
    ensures
        r@ == lit@ + rest@,
{
    let mut v = chars_of(lit);
    append_chars(&mut v, rest);
    string_of(v.as_slice())
}

fn fail(message: String, usage: bool) -> (r: Result<ServerSettings, ServerExit>)
    ensures
        r matches Err(e) && exit_view(e) == ExitView::Fail(message@, usage),
{
    Err(ServerExit::Fail { message, usage })
}

fn copy_opt(o: &Option<String>) -> (r: Option<String>)
    ensures
        opt_chars(r) == opt_chars(*o),
{
    match o {
        Some(s) => Some(s.clone()),
        None => None,
    }
}

/// The server's settings from its environment and its arguments (without
/// the program name). `encoder_ok` says whether `BLIT_SURFACE_H264_ENCODER`
/// is unset or names an encoder the server knows (the server's own parser
/// decides).
pub fn parse_server_args(env: &ServerEnv, encoder_ok: bool, args: &[String]) -> (r: Result<ServerSettings, ServerExit>)
    ensures
        match server_settings(*env, encoder_ok, Seq::new(args@.len(), |i: int| args@[i]@)) {
            Ok(st) => r matches Ok(s) && settings_view(s) == st,
            Err(e) => r matches Err(x) && exit_view(x) == e,
        },
{
    let ghost av = Seq::new(args@.len(), |i: int| args@[i]@);
    let fd: Option<i32> = match &env.fd_channel {
        Some(s) => {
            let c = chars_of(s.as_str());
            match parse_i32(c.as_slice()) {
                Some(v) => Some(v),
                None => {
                    return fail(joined("invalid fd number for BLIT_FD_CHANNEL: ", c.as_slice()), false);
                },
            }
        },
        None => None,
    };
    if !encoder_ok {
        let mut m = chars_of("invalid BLIT_SURFACE_H264_ENCODER value: ");
        match &env.surface_encoder {
            Some(v) => append_chars(&mut m, chars_of(v.as_str()).as_slice()),
            None => {},
        }
        append_str(&mut m, "\nexpected one of: auto, software, vaapi");
        return fail(string_of(m.as_slice()), false);
    }
    let mut st = ServerSettings {
        shell: match &env.shell {
            Some(s) => s.clone(),
            None => text("/bin/sh"),
        },
        shell_flags: match &env.shell_flags {
            Some(s) => s.clone(),
            None => text("li"),
        },
        scrollback: match &env.scrollback {
            Some(s) => match parse_usize(chars_of(s.as_str()).as_slice()) {
                Some(v) => v,
                None => 10000,
            },
            None => 10000,
        },
        ipc_path: copy_opt(&env.sock),
        vaapi_device: match &env.vaapi_device {
            Some(s) => s.clone(),
            None => text("/dev/dri/renderD128"),
        },
        fd_channel: fd,
        verbose: match &env.verbose {
            Some(v) => chars_eq_str(chars_of(v.as_str()).as_slice(), "1"),
            None => false,
        },
    };
    assert(env_settings(*env, encoder_ok) == Ok::<SettingsState, ExitView>(settings_view(st)));
    let n = args.len();
    let mut i: usize = 0;
    while i < n
        invariant
            n == args@.len(),
            av == Seq::new(args@.len(), |k: int| args@[k]@),
            i <= n,
            server_settings(*env, encoder_ok, av) == args_fold(settings_view(st), av, i as int),
        decreases n - i,
    {
        let a = chars_of(args[i].as_str());
        assert(a@ == av[i as int]);
        let has_next = i + 1 < n;
        if chars_eq_str(a.as_slice(), "--help") || chars_eq_str(a.as_slice(), "-h") {
            return Err(ServerExit::Help);
        }
        if chars_eq_str(a.as_slice(), "--version") || chars_eq_str(a.as_slice(), "-V") {
            return Err(ServerExit::Version);
        }
        proof {
            reveal_strlit("--socket=");
            reveal_strlit("--fd-channel=");
            reveal_strlit("--shell-flags=");
        }
        if starts_with_str(a.as_slice(), "--socket=") {
            let v = sub_vec(a.as_slice(), 9, a.len());
            assert(v@ =~= a@.skip(9));
            st.ipc_path = Some(string_of(v.as_slice()));
            i += 1;
        } else if chars_eq_str(a.as_slice(), "--socket") {
            if !has_next {
                return fail(text("missing value for --socket"), true);
            }
            st.ipc_path = Some(args[i + 1].clone());
            i += 2;
        } else if starts_with_str(a.as_slice(), "--fd-channel=") {
            let v = sub_vec(a.as_slice(), 13, a.len());
            assert(v@ =~= a@.skip(13));
            match parse_i32(v.as_slice()) {
                Some(x) => {
                    st.fd_channel = Some(x);
                },
                None => {
                    return fail(joined("invalid fd number for --fd-channel: ", v.as_slice()), false);
                },
            }
            i += 1;
        } else if chars_eq_str(a.as_slice(), "--fd-channel") {
            if !has_next {
                return fail(text("missing value for --fd-channel"), true);
            }
            let v = chars_of(args[i + 1].as_str());
            match parse_i32(v.as_slice()) {
                Some(x) => {
                    st.fd_channel = Some(x);
                },
                None => {
                    return fail(joined("invalid fd number for --fd-channel: ", v.as_slice()), false);
                },
            }
            i += 2;
        } else if starts_with_str(a.as_slice(), "--shell-flags=") {
            let v = sub_vec(a.as_slice(), 14, a.len());
            assert(v@ =~= a@.skip(14));
            st.shell_flags = string_of(v.as_slice());
            i += 1;
        } else if chars_eq_str(a.as_slice(), "--shell-flags") {
            if !has_next {
                return fail(text("missing value for --shell-flags"), true);
            }
            st.shell_flags = args[i + 1].clone();
            i += 2;
        } else if chars_eq_str(a.as_slice(), "--verbose") || chars_eq_str(a.as_slice(), "-v") {
            st.verbose = true;
            i += 1;
        } else if a.len() > 0 && a[0] == '-' {
            return fail(joined("unrecognized argument: ", a.as_slice()), true);
        } else if st.ipc_path.is_some() {
            return fail(text("multiple socket paths provided"), true);
        } else {
            st.ipc_path = Some(args[i].clone());
            i += 1;
        }
    }
    Ok(st)
}


/// The server's usage line, printed with `--help` and after a mistake
/// that calls for it.
pub const USAGE: &'static str = "usage: blit-server [--socket PATH] [--fd-channel FD] [--shell-flags FLAGS] [PATH]";

/// The server's usage line.
pub fn usage() -> (r: &'static str)
    ensures
        r@ == USAGE@,
{
    USAGE
}
} // verus!
