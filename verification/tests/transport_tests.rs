use blit::transport::{socket_plan, ssh_bridge_script, SocketEnv, SSH_AUTOSTART, SSH_SOCK_SEARCH};

#[test]
fn bridge_with_known_socket() {
    let s = ssh_bridge_script(Some("/run/me/blit.sock"));
    assert_eq!(
        s,
        format!(
            "sh -c 'S='/run/me/blit.sock'; {SSH_AUTOSTART}; exec nc -U \"$S\" 2>/dev/null || socat - \"UNIX-CONNECT:$S\"'"
        )
    );
}

#[test]
fn bridge_searching_the_socket() {
    let s = ssh_bridge_script(None);
    assert!(s.starts_with("sh -c 'if [ -n \"$BLIT_SOCK\" ]"));
    assert_eq!(
        s,
        format!(
            "sh -c '{SSH_SOCK_SEARCH}; {SSH_AUTOSTART}; exec nc -U \"$S\" 2>/dev/null || socat - \"UNIX-CONNECT:$S\"'"
        )
    );
    assert!(SSH_SOCK_SEARCH.ends_with("else S=/tmp/blit.sock; fi"));
}

fn env(sock: Option<&str>, tmp: Option<&str>, user: Option<&str>, xdg: Option<&str>) -> SocketEnv {
    SocketEnv {
        blit_sock: sock.map(String::from),
        tmpdir: tmp.map(String::from),
        user: user.map(String::from),
        xdg_runtime_dir: xdg.map(String::from),
    }
}

#[test]
fn local_socket_places() {
    assert_eq!(socket_plan(&env(Some("/s"), Some("/t"), Some("u"), None)), (vec![], "/s".to_string()));
    assert_eq!(
        socket_plan(&env(None, Some("/t"), Some("ann"), Some("/run/user/1"))),
        (
            vec!["/t/blit.sock".to_string(), "/tmp/blit-ann.sock".to_string(), "/run/blit/ann.sock".to_string()],
            "/run/user/1/blit.sock".to_string()
        )
    );
    assert_eq!(socket_plan(&env(None, None, None, None)), (vec![], "/tmp/blit.sock".to_string()));
}
