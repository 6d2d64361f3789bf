use blit::interactive::{
    browser_url, connect_retry, destination_label, json_escape, resolve_destination_name, ssh_target, Destination,
    RetryAction,
};
use blit::server_args::usage;

#[test]
fn json_escape_specials() {
    assert_eq!(json_escape("plain"), "plain");
    assert_eq!(json_escape("a\"b"), "a\\\"b");
    assert_eq!(json_escape("back\\slash"), "back\\\\slash");
    assert_eq!(json_escape("two\nlines"), "two\\nlines");
    assert_eq!(json_escape("tab\tstays"), "tab\tstays");
    assert_eq!(json_escape(""), "");
}

#[test]
fn destination_from_path() {
    assert_eq!(resolve_destination_name("/d/work"), Some("work".to_string()));
    assert_eq!(resolve_destination_name("/d/work/ws"), Some("work".to_string()));
    assert_eq!(resolve_destination_name("/d/"), None);
    assert_eq!(resolve_destination_name("/d//x"), None);
    assert_eq!(resolve_destination_name("/"), None);
    assert_eq!(resolve_destination_name("/x/work"), None);
}

#[test]
fn server_usage_line() {
    assert_eq!(
        usage(),
        "usage: blit-server [--socket PATH] [--fd-channel FD] [--shell-flags FLAGS] [PATH]"
    );
}

#[test]
fn destination_labels_and_targets() {
    let ssh = Destination::Ssh { user: Some("me".to_string()), host: "box".to_string(), socket: None };
    assert_eq!(destination_label("work", &ssh), "box");
    assert_eq!(destination_label("t", &Destination::Tcp("10.0.0.2:3264".to_string())), "10.0.0.2");
    assert_eq!(destination_label("t", &Destination::Tcp("host".to_string())), "host");
    assert_eq!(destination_label("sock", &Destination::Socket("/run/x.sock".to_string())), "sock");
    assert_eq!(destination_label("here", &Destination::Local), "local");
    assert_eq!(ssh_target(Some("me"), "box"), "me@box");
    assert_eq!(ssh_target(None, "box"), "box");
    assert_eq!(browser_url("127.0.0.1:8080", "tok"), "http://127.0.0.1:8080/#tok");
}

#[test]
fn connection_attempts_give_up_after_thirty() {
    assert_eq!(connect_retry(5, true), (RetryAction::Ready, 5));
    let mut attempts = 0;
    let mut actions = Vec::new();
    loop {
        let (a, n) = connect_retry(attempts, false);
        attempts = n;
        actions.push(a);
        if a != RetryAction::WaitAndRetry {
            break;
        }
    }
    assert_eq!(attempts, 30);
    assert_eq!(actions.len(), 30);
    assert_eq!(actions[29], RetryAction::WaitAndGiveUp);
    assert_eq!(connect_retry(30, false), (RetryAction::GiveUp, 30));
}
