use blit::bsp::{enumerate_panes, quote_if_needed, serialize_dsl, BspChild, BspNode, Direction};
use blit::dsl::parse_dsl;

fn leaf(tag: &str) -> BspNode {
    BspNode::Leaf { tag: tag.to_string(), command: None }
}

fn child(node: BspNode) -> BspChild {
    BspChild { node, weight: None, label: None }
}

fn ids(node: &BspNode) -> Vec<String> {
    enumerate_panes(node).into_iter().map(|p| p.id).collect()
}

fn tags(node: &BspNode) -> Vec<String> {
    enumerate_panes(node).into_iter().map(|p| p.tag).collect()
}

#[test]
fn parse_side_by_side() {
    let (node, w) = parse_dsl("line(left, right)").unwrap();
    assert_eq!(w, None);
    match &node {
        BspNode::Split { direction, children } => {
            assert_eq!(*direction, Direction::Horizontal);
            assert_eq!(children.len(), 2);
        }
        _ => panic!("expected a split"),
    }
    assert_eq!(ids(&node), vec!["0", "1"]);
    assert_eq!(tags(&node), vec!["left", "right"]);
    assert_eq!(serialize_dsl(&node), "line(left, right)");
}

#[test]
fn parse_presets() {
    let presets = [
        ("line(left, right)", vec!["0", "1"]),
        ("tabs(a, b, c)", vec!["0", "1", "2"]),
        ("line(main 2, side)", vec!["0", "1"]),
        ("col(line(a, b), line(c, d))", vec!["0.0", "0.1", "1.0", "1.1"]),
        ("line(editor 2, col(shell, logs))", vec!["0", "1.0", "1.1"]),
        ("line(editor 2, tabs(shell, logs, build))", vec!["0", "1.0", "1.1", "1.2"]),
        ("line(tabs(a, b) 2, tabs(c, d))", vec!["0.0", "0.1", "1.0", "1.1"]),
    ];
    for (text, want) in presets.iter() {
        let (node, _) = parse_dsl(text).unwrap();
        assert_eq!(ids(&node), *want, "{text}");
        assert_eq!(serialize_dsl(&node), *text);
    }
}

#[test]
fn weights_keep_their_text() {
    let (node, _) = parse_dsl("line(main 2.5, side 1.)").unwrap();
    match node {
        BspNode::Split { children, .. } => {
            assert_eq!(children[0].weight.as_deref(), Some("2.5"));
            assert_eq!(children[1].weight.as_deref(), Some("1."));
        }
        _ => panic!("expected a split"),
    }
    // Two dots are no number: the default weight.
    let (node, _) = parse_dsl("line(a 1.2.3, b)").unwrap();
    match node {
        BspNode::Split { children, .. } => assert_eq!(children[0].weight, None),
        _ => panic!("expected a split"),
    }
    let (_, w) = parse_dsl("x 3").unwrap();
    assert_eq!(w.as_deref(), Some("3"));
}

#[test]
fn labels_commands_and_quotes() {
    let (node, _) = parse_dsl("tabs(\"my shell\": sh=\"bash -l\", logs: 'tail -f x')").unwrap();
    match &node {
        BspNode::Split { direction, children } => {
            assert_eq!(*direction, Direction::Tabs);
            assert_eq!(children[0].label.as_deref(), Some("my shell"));
            match &children[0].node {
                BspNode::Leaf { tag, command } => {
                    assert_eq!(tag, "sh");
                    assert_eq!(command.as_deref(), Some("bash -l"));
                }
                _ => panic!("expected a pane"),
            }
            match &children[1].node {
                BspNode::Leaf { tag, command } => {
                    assert_eq!(tag, "tail -f x");
                    assert_eq!(command, &None);
                }
                _ => panic!("expected a pane"),
            }
            assert_eq!(children[1].label.as_deref(), Some("logs"));
        }
        _ => panic!("expected a split"),
    }
    assert_eq!(
        serialize_dsl(&node),
        "tabs(\"my shell\": sh=\"bash -l\", logs: \"tail -f x\")"
    );
}

#[test]
fn labelled_split() {
    let (node, _) = parse_dsl("line(work: col(a, b) 3, c)").unwrap();
    match &node {
        BspNode::Split { children, .. } => {
            assert_eq!(children[0].label.as_deref(), Some("work"));
            assert_eq!(children[0].weight.as_deref(), Some("3"));
        }
        _ => panic!("expected a split"),
    }
    assert_eq!(serialize_dsl(&node), "line(work: col(a, b) 3, c)");
}

#[test]
fn escapes_in_quotes() {
    let (node, _) = parse_dsl("\"a\\\"b\\\\c\"").unwrap();
    match &node {
        BspNode::Leaf { tag, .. } => assert_eq!(tag, "a\"b\\c"),
        _ => panic!("expected a pane"),
    }
    assert_eq!(serialize_dsl(&node), "\"a\\\"b\\\\c\"");
    // Inside quotes each byte of a non-ASCII character becomes a char.
    let (node, _) = parse_dsl("\"é\"").unwrap();
    match &node {
        BspNode::Leaf { tag, .. } => assert_eq!(tag, "\u{c3}\u{a9}"),
        _ => panic!("expected a pane"),
    }
    // Bare names keep them.
    let (node, _) = parse_dsl("line(é, b)").unwrap();
    assert_eq!(tags(&node), vec!["é", "b"]);
}

#[test]
fn parse_errors() {
    assert_eq!(parse_dsl("").unwrap_err(), "expected identifier at pos 0");
    assert_eq!(parse_dsl("line(a)").unwrap_err(), "split must have at least 2 children");
    assert_eq!(parse_dsl("line a").unwrap_err(), "expected '(' at pos 5");
    assert_eq!(parse_dsl("line(a b)").unwrap_err(), "expected ',' at pos 7");
    assert_eq!(parse_dsl("line(a, )").unwrap_err(), "expected identifier at pos 8");
    assert_eq!(parse_dsl("\"abc").unwrap_err(), "unterminated string");
    assert_eq!(parse_dsl("line(é,").unwrap_err(), "expected identifier at pos 8");
    assert!(parse_dsl("tabs(a)").is_ok());
    assert!(parse_dsl("tabs()").is_ok());
}

#[test]
fn trailing_text_is_ignored() {
    let (node, _) = parse_dsl("a )) junk").unwrap();
    assert_eq!(tags(&node), vec!["a"]);
    assert_eq!(ids(&node), vec!["0"]);
}

#[test]
fn quoting_rules() {
    assert_eq!(quote_if_needed("plain"), "plain");
    assert_eq!(quote_if_needed("two words"), "\"two words\"");
    assert_eq!(quote_if_needed("a=b"), "\"a=b\"");
    assert_eq!(quote_if_needed("back\\slash"), "\"back\\\\slash\"");
    assert_eq!(quote_if_needed("nbsp\u{a0}"), "\"nbsp\u{a0}\"");
    assert_eq!(quote_if_needed(""), "");
}

#[test]
fn serialize_built_tree() {
    let node = BspNode::Split {
        direction: Direction::Vertical,
        children: vec![
            BspChild { node: leaf("top"), weight: Some("2".to_string()), label: None },
            child(BspNode::Leaf { tag: "bottom".to_string(), command: Some("htop".to_string()) }),
        ],
    };
    assert_eq!(serialize_dsl(&node), "col(top 2, bottom=htop)");
    assert_eq!(ids(&node), vec!["0", "1"]);
    let panes = enumerate_panes(&node);
    assert_eq!(panes[1].command.as_deref(), Some("htop"));
    assert_eq!(ids(&leaf("solo")), vec!["0"]);
}

fn same_tree(a: &BspNode, b: &BspNode) -> bool {
    match (a, b) {
        (BspNode::Leaf { tag: t1, command: c1 }, BspNode::Leaf { tag: t2, command: c2 }) => t1 == t2 && c1 == c2,
        (
            BspNode::Split { direction: d1, children: k1 },
            BspNode::Split { direction: d2, children: k2 },
        ) => {
            d1 == d2
                && k1.len() == k2.len()
                && k1.iter().zip(k2.iter()).all(|(x, y)| {
                    x.weight == y.weight && x.label == y.label && same_tree(&x.node, &y.node)
                })
        }
        _ => false,
    }
}

#[test]
fn written_layout_reads_back() {
    let tree = BspNode::Split {
        direction: Direction::Horizontal,
        children: vec![
            BspChild {
                node: BspNode::Leaf { tag: "edit or".to_string(), command: Some("vim \"x\"".to_string()) },
                weight: None,
                label: Some("main: pane".to_string()),
            },
            BspChild {
                node: BspNode::Split {
                    direction: Direction::Tabs,
                    children: vec![child(leaf("shell")), child(leaf("logs"))],
                },
                weight: Some("1.5".to_string()),
                label: None,
            },
            BspChild { node: leaf("é"), weight: Some("2".to_string()), label: Some("x".to_string()) },
        ],
    };
    let text = serialize_dsl(&tree);
    assert_eq!(
        text,
        "line(\"main: pane\": \"edit or\"=\"vim \\\"x\\\"\", tabs(shell, logs) 1.5, x: é 2)"
    );
    let (back, w) = parse_dsl(&text).unwrap();
    assert_eq!(w, None);
    assert!(same_tree(&tree, &back));
}

#[test]
fn pane_with_command_and_weight_does_not_read_back() {
    let tree = BspNode::Split {
        direction: Direction::Vertical,
        children: vec![
            BspChild {
                node: BspNode::Leaf { tag: "a".to_string(), command: Some("top".to_string()) },
                weight: Some("2".to_string()),
                label: None,
            },
            child(leaf("b")),
        ],
    };
    let text = serialize_dsl(&tree);
    assert_eq!(text, "col(a=top 2, b)");
    assert_eq!(parse_dsl(&text).unwrap_err(), "expected ',' at pos 10");
}
