use blit::config::{parse_config_command, parse_config_str, serialize_config_str, ConfigEdit, ConfigMap};

#[test]
fn parse_empty_string() {
    let map = parse_config_str("");
    assert!(map.is_empty());
}

#[test]
fn parse_comments_and_blanks() {
    let map = parse_config_str("# comment\n\n  # another\n");
    assert!(map.is_empty());
}

#[test]
fn parse_key_value() {
    let map = parse_config_str("font = Menlo\ntheme = dark\n");
    assert_eq!(map.get("font").unwrap(), "Menlo");
    assert_eq!(map.get("theme").unwrap(), "dark");
}

#[test]
fn parse_trims_whitespace() {
    let map = parse_config_str("  key  =  value  ");
    assert_eq!(map.get("key").unwrap(), "value");
}

#[test]
fn parse_line_without_equals() {
    let map = parse_config_str("no-equals-here\nkey=val");
    assert_eq!(map.len(), 1);
    assert_eq!(map.get("key").unwrap(), "val");
}

#[test]
fn parse_equals_in_value() {
    let map = parse_config_str("cmd = a=b=c");
    assert_eq!(map.get("cmd").unwrap(), "a=b=c");
}

#[test]
fn parse_duplicate_keys_last_wins() {
    let map = parse_config_str("key = first\nkey = second");
    assert_eq!(map.get("key").unwrap(), "second");
}

#[test]
fn parse_mixed_content() {
    let input = "# header\nfont = FiraCode\n\n# size\nsize = 14\ntheme=light";
    let map = parse_config_str(input);
    assert_eq!(map.len(), 3);
    assert_eq!(map.get("font").unwrap(), "FiraCode");
    assert_eq!(map.get("size").unwrap(), "14");
    assert_eq!(map.get("theme").unwrap(), "light");
}

#[test]
fn serialize_config_produces_sorted_output() {
    let mut map = ConfigMap::new();
    map.insert("z".into(), "last".into());
    map.insert("a".into(), "first".into());
    let output = serialize_config_str(&map);
    assert!(output.starts_with("a = first"));
    assert!(output.contains("z = last"));
}

#[test]
fn round_trip_parse_serialize() {
    let input = "alpha = 1\nbeta = 2\ngamma = 3";
    let map = parse_config_str(input);
    let serialized = serialize_config_str(&map);
    let reparsed = parse_config_str(&serialized);
    assert_eq!(map, reparsed);
}

#[test]
fn serialize_exact_text() {
    let mut map = ConfigMap::new();
    map.insert("theme".into(), "dark".into());
    map.insert("font".into(), "Menlo".into());
    map.insert("b".into(), "".into());
    assert_eq!(serialize_config_str(&map), "b = \nfont = Menlo\ntheme = dark\n");
    assert_eq!(serialize_config_str(&ConfigMap::new()), "");
}

#[test]
fn round_trip_of_built_map() {
    let mut map = ConfigMap::new();
    map.insert("size".into(), "14".into());
    map.insert("empty".into(), "".into());
    map.insert("cmd".into(), "a = b".into());
    let reparsed = parse_config_str(&serialize_config_str(&map));
    assert_eq!(map, reparsed);
    assert_eq!(reparsed.len(), 3);
}

#[test]
fn crlf_lines_and_hash_inside_value() {
    let map = parse_config_str("a = 1\r\nb = x # not a comment\r\n#c = 3");
    assert_eq!(map.len(), 2);
    assert_eq!(map.get("a").unwrap(), "1");
    assert_eq!(map.get("b").unwrap(), "x # not a comment");
    assert!(map.get("c").is_none());
}

#[test]
fn insert_replaces_and_remove_drops() {
    let mut map = ConfigMap::new();
    map.insert("k".into(), "1".into());
    map.insert("k".into(), "2".into());
    assert_eq!(map.len(), 1);
    assert_eq!(map.get("k").unwrap(), "2");
    map.remove("k");
    assert!(map.is_empty());
    map.remove("absent");
    assert!(map.is_empty());
}

#[test]
fn maps_compare_by_contents() {
    let mut a = ConfigMap::new();
    a.insert("x".into(), "1".into());
    a.insert("y".into(), "2".into());
    let mut b = ConfigMap::new();
    b.insert("y".into(), "2".into());
    b.insert("x".into(), "1".into());
    assert_eq!(a, b);
    b.insert("x".into(), "3".into());
    assert_ne!(a, b);
}

#[test]
fn set_command_edits() {
    match parse_config_command("  set font Fira Code \n") {
        Some(ConfigEdit::Put(k, v)) => {
            assert_eq!(k, "font");
            assert_eq!(v, "Fira Code");
        }
        other => panic!("unexpected {:?}", other),
    }
    assert!(parse_config_command("set font ").is_none());
    assert!(parse_config_command("set  value").is_none());
    assert!(parse_config_command("get font").is_none());
    assert!(parse_config_command("set font").is_none());
}

#[test]
fn apply_and_update_messages() {
    let mut map = ConfigMap::new();
    map.apply(ConfigEdit::Put("a".into(), "1".into()));
    map.apply(ConfigEdit::Put("b".into(), "2".into()));
    map.apply(ConfigEdit::Remove("a".into()));
    assert_eq!(map.update_messages(), vec!["b=2".to_string()]);
}
