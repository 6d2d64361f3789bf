use blit::remotes::{
    default_local, parse_ini, parse_layouts_json, remotes_from_text, remotes_text, section_to_remote,
    user_settings_from_text, RemoteConfig, RemoteKind,
};

fn kind_text(k: &RemoteKind) -> String {
    match k {
        RemoteKind::Unix { socket } => format!("unix {:?}", socket),
        RemoteKind::Tcp { address } => format!("tcp {address}"),
        RemoteKind::Ssh { host } => format!("ssh {host}"),
        RemoteKind::Share { passphrase, hub } => format!("share {passphrase} {:?}", hub),
    }
}

#[test]
fn ini_sections_and_properties() {
    let text = "# remotes\nstray = 1\n[ home ]\nType = SSH\nhost = h1\n; note\n[box]\n\nhost=x\nhost = y\n";
    let s = parse_ini(text);
    assert_eq!(s.len(), 2);
    assert_eq!(s[0].0, "home");
    assert_eq!(s[0].1.get("stray").unwrap(), "1");
    assert_eq!(s[0].1.get("type").unwrap(), "SSH");
    assert_eq!(s[0].1.get("host").unwrap(), "h1");
    assert_eq!(s[1].0, "box");
    assert_eq!(s[1].1.len(), 1);
    assert_eq!(s[1].1.get("host").unwrap(), "y");
}

#[test]
fn sections_become_remotes() {
    let text = "[a]\ntype = tcp\naddress = 10.0.0.1:3264\nautoconnect = yes\n\
                [b]\ntype = tcp\n\
                [c]\n\
                [d]\ntype = share\npassphrase = pw\nhub = hub.example\n\
                [e]\ntype = carrier-pigeon\n\
                [f]\ntype = ssh\nhost = me@h\nautoconnect = no\n";
    let rs = remotes_from_text(text);
    let got: Vec<(String, String, bool)> =
        rs.iter().map(|r| (r.name.clone(), kind_text(&r.kind), r.autoconnect)).collect();
    assert_eq!(
        got,
        vec![
            ("a".to_string(), "tcp 10.0.0.1:3264".to_string(), true),
            ("c".to_string(), "unix None".to_string(), false),
            ("d".to_string(), "share pw Some(\"hub.example\")".to_string(), false),
            ("f".to_string(), "ssh me@h".to_string(), false),
        ]
    );
}

#[test]
fn empty_file_gives_local_remote() {
    let rs = remotes_from_text("# nothing here\n");
    assert_eq!(rs.len(), 1);
    assert_eq!(rs[0].name, "local");
    assert!(rs[0].autoconnect);
    assert_eq!(kind_text(&rs[0].kind), "unix None");
    let d = default_local();
    assert_eq!(d.name, "local");
}

#[test]
fn unix_remote_and_autoconnect_values() {
    let s = parse_ini("[x]\nsocket = /tmp/s\nautoconnect = 1\n");
    let r = section_to_remote(&s[0].0, &s[0].1).unwrap();
    assert_eq!(kind_text(&r.kind), "unix Some(\"/tmp/s\")");
    assert!(r.autoconnect);
}

#[test]
fn saved_text_of_remotes() {
    let rs = vec![
        RemoteConfig { name: "local".into(), kind: RemoteKind::Unix { socket: None }, autoconnect: true },
        RemoteConfig {
            name: "s".into(),
            kind: RemoteKind::Share { passphrase: "pw".into(), hub: Some("h".into()) },
            autoconnect: false,
        },
        RemoteConfig { name: "t".into(), kind: RemoteKind::Tcp { address: "a:1".into() }, autoconnect: false },
    ];
    let text = remotes_text(&rs);
    assert_eq!(
        text,
        "[local]\ntype = unix\nautoconnect = true\n\n[s]\ntype = share\npassphrase = pw\nhub = h\n\n[t]\ntype = tcp\naddress = a:1\n"
    );
    let back = remotes_from_text(&text);
    assert_eq!(back.len(), 3);
    for (a, b) in rs.iter().zip(back.iter()) {
        assert_eq!(a.name, b.name);
        assert_eq!(kind_text(&a.kind), kind_text(&b.kind));
        assert_eq!(a.autoconnect, b.autoconnect);
    }
    assert_eq!(remotes_text(&[]), "");
}

#[test]
fn layout_list_objects() {
    // Objects are taken one brace level down: the list's `[` does not count.
    let flat = r#" [{"name":"two","dsl":"v(a,b)"}] "#;
    assert!(parse_layouts_json(flat).is_empty());
    let v = r#" [{ {"name":"two","dsl":"v(a,b)"}, {"name" : "one", "dsl" : "a"}, {"name":"x"}, {"dsl":"y"} }] "#;
    let ls = parse_layouts_json(v);
    assert_eq!(ls.len(), 2);
    assert_eq!(ls[0].name, "two");
    assert_eq!(ls[0].dsl, "v(a,b)");
    assert_eq!(ls[1].name, "one");
    assert_eq!(ls[1].dsl, "a");
    assert!(parse_layouts_json("{{\"name\":\"a\",\"dsl\":\"b\"}}").is_empty());
}

#[test]
fn user_settings_lines() {
    let text = "blit.fontFamily = Fira Code\nblit.fontSize = big\nblit.fontSize=13.5\n; c\nblit.palette = nord\nother = 1\nblit.layouts = [{{\"name\":\"n\",\"dsl\":\"d\"}}]\n";
    let s = user_settings_from_text(text);
    assert_eq!(s.font_family, "Fira Code");
    assert_eq!(s.font_sizes, vec!["big".to_string(), "13.5".to_string()]);
    assert_eq!(s.palette, "nord");
    assert_eq!(s.layouts.len(), 1);
    assert_eq!(s.layouts[0].dsl, "d");
    let d = user_settings_from_text("");
    assert_eq!(d.font_family, "monospace");
    assert_eq!(d.palette, "default");
    assert!(d.font_sizes.is_empty());
}

#[test]
fn saved_remotes_read_back() {
    let rs = vec![
        RemoteConfig { name: "local".to_string(), kind: RemoteKind::Unix { socket: None }, autoconnect: true },
        RemoteConfig { name: "box".to_string(), kind: RemoteKind::Ssh { host: "me@box".to_string() }, autoconnect: false },
        RemoteConfig {
            name: "friend".to_string(),
            kind: RemoteKind::Share { passphrase: "a b=c".to_string(), hub: Some("hub.example".to_string()) },
            autoconnect: true,
        },
        RemoteConfig { name: "t".to_string(), kind: RemoteKind::Tcp { address: "10.0.0.1:9".to_string() }, autoconnect: false },
        RemoteConfig { name: "s".to_string(), kind: RemoteKind::Unix { socket: Some("/tmp/x.sock".to_string()) }, autoconnect: false },
    ];
    let text = remotes_text(&rs);
    let back = remotes_from_text(&text);
    assert_eq!(back.len(), rs.len());
    for (a, b) in rs.iter().zip(back.iter()) {
        assert_eq!(a.name, b.name);
        assert_eq!(a.autoconnect, b.autoconnect);
        assert_eq!(format!("{:?}", a.kind), format!("{:?}", b.kind));
    }
}
