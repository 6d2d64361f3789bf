use blit::server_args::{parse_server_args, parse_usize, ServerEnv, ServerExit};

fn no_env() -> ServerEnv {
    ServerEnv {
        shell: None,
        shell_flags: None,
        scrollback: None,
        sock: None,
        fd_channel: None,
        verbose: None,
        vaapi_device: None,
        surface_encoder: None,
    }
}

fn args(a: &[&str]) -> Vec<String> {
    a.iter().map(|s| s.to_string()).collect()
}

fn fail(message: &str, usage: bool) -> ServerExit {
    ServerExit::Fail { message: message.to_string(), usage }
}

#[test]
fn usize_parsing() {
    let p = |s: &str| parse_usize(&s.chars().collect::<Vec<char>>());
    assert_eq!(p("10000"), Some(10000));
    assert_eq!(p("+7"), Some(7));
    assert_eq!(p(""), None);
    assert_eq!(p("+"), None);
    assert_eq!(p("-1"), None);
    assert_eq!(p("1 "), None);
    assert_eq!(p("18446744073709551615"), Some(usize::MAX));
    assert_eq!(p("18446744073709551616"), None);
}

#[test]
fn defaults_and_environment() {
    let s = parse_server_args(&no_env(), true, &[]).unwrap();
    assert_eq!(s.shell, "/bin/sh");
    assert_eq!(s.shell_flags, "li");
    assert_eq!(s.scrollback, 10000);
    assert_eq!(s.ipc_path, None);
    assert_eq!(s.vaapi_device, "/dev/dri/renderD128");
    assert_eq!(s.fd_channel, None);
    assert!(!s.verbose);
    let env = ServerEnv {
        shell: Some("/bin/zsh".into()),
        shell_flags: Some("l".into()),
        scrollback: Some("nope".into()),
        sock: Some("/run/b.sock".into()),
        fd_channel: Some("5".into()),
        verbose: Some("1".into()),
        vaapi_device: Some("/dev/dri/card1".into()),
        surface_encoder: Some("vaapi".into()),
    };
    let s = parse_server_args(&env, true, &[]).unwrap();
    assert_eq!(s.shell, "/bin/zsh");
    assert_eq!(s.shell_flags, "l");
    assert_eq!(s.scrollback, 10000);
    assert_eq!(s.ipc_path.as_deref(), Some("/run/b.sock"));
    assert_eq!(s.fd_channel, Some(5));
    assert!(s.verbose);
}

#[test]
fn environment_mistakes() {
    let mut env = no_env();
    env.fd_channel = Some("x".into());
    assert_eq!(
        parse_server_args(&env, false, &args(&["--help"])).unwrap_err(),
        fail("invalid fd number for BLIT_FD_CHANNEL: x", false)
    );
    let mut env = no_env();
    env.surface_encoder = Some("turbo".into());
    assert_eq!(
        parse_server_args(&env, false, &args(&["--help"])).unwrap_err(),
        fail("invalid BLIT_SURFACE_H264_ENCODER value: turbo\nexpected one of: auto, software, vaapi", false)
    );
}

#[test]
fn argument_forms() {
    let s = parse_server_args(&no_env(), true, &args(&["--socket=/a", "--fd-channel", "3", "--shell-flags=x", "-v"])).unwrap();
    assert_eq!(s.ipc_path.as_deref(), Some("/a"));
    assert_eq!(s.fd_channel, Some(3));
    assert_eq!(s.shell_flags, "x");
    assert!(s.verbose);
    let s = parse_server_args(&no_env(), true, &args(&["/p.sock", "--shell-flags", "c"])).unwrap();
    assert_eq!(s.ipc_path.as_deref(), Some("/p.sock"));
    assert_eq!(s.shell_flags, "c");
    assert_eq!(parse_server_args(&no_env(), true, &args(&["-V"])).unwrap_err(), ServerExit::Version);
    assert_eq!(parse_server_args(&no_env(), true, &args(&["x", "-h"])).unwrap_err(), ServerExit::Help);
}

#[test]
fn argument_mistakes() {
    let e = |a: &[&str]| parse_server_args(&no_env(), true, &args(a)).unwrap_err();
    assert_eq!(e(&["--socket"]), fail("missing value for --socket", true));
    assert_eq!(e(&["--fd-channel"]), fail("missing value for --fd-channel", true));
    assert_eq!(e(&["--shell-flags"]), fail("missing value for --shell-flags", true));
    assert_eq!(e(&["--fd-channel=z"]), fail("invalid fd number for --fd-channel: z", false));
    assert_eq!(e(&["--frobnicate"]), fail("unrecognized argument: --frobnicate", true));
    assert_eq!(e(&["/a", "/b"]), fail("multiple socket paths provided", true));
    let mut env = no_env();
    env.sock = Some("/env".into());
    assert_eq!(
        parse_server_args(&env, true, &args(&["/b"])).unwrap_err(),
        fail("multiple socket paths provided", true)
    );
}
