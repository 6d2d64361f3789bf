use blit::input::{Key, NamedKey};
use blit::overlay::{
    filtered_families, PaletteInfo, PaletteOverlay, SwitcherAction, SwitcherItem, SwitcherOutcome, SwitcherOverlay,
};
use blit::session::SessionKey;

fn key(remote: &str, id: u16) -> SessionKey {
    SessionKey { remote: remote.to_string(), pty_id: id }
}

fn sessions() -> Vec<(SessionKey, String, String)> {
    vec![
        (key("local", 1), "bash".to_string(), "local".to_string()),
        (key("box", 2), "htop".to_string(), "box".to_string()),
        (key("box", 3), "Build".to_string(), "box".to_string()),
    ]
}

fn titles(sw: &SwitcherOverlay) -> Vec<String> {
    sw.items
        .iter()
        .map(|i| match i {
            SwitcherItem::Session { title, .. } => title.clone(),
            SwitcherItem::Action { label, .. } => label.clone(),
        })
        .collect()
}

#[test]
fn palettes_filter_by_search_and_darkness() {
    let palettes = vec![
        PaletteInfo { name: "Solarized Dark".to_string(), dark: true },
        PaletteInfo { name: "Solarized Light".to_string(), dark: false },
        PaletteInfo { name: "Nord".to_string(), dark: true },
    ];
    let mut p = PaletteOverlay::new();
    assert_eq!(p.filtered_palettes(&palettes), vec![0, 1, 2]);
    p.search = "SOLAR".to_string();
    assert_eq!(p.filtered_palettes(&palettes), vec![0, 1]);
    p.dark_filter = Some(true);
    assert_eq!(p.filtered_palettes(&palettes), vec![0]);
    p.search.clear();
    assert_eq!(p.filtered_palettes(&palettes), vec![0, 2]);
}

#[test]
fn families_filter_ignoring_case() {
    let fams = vec!["Fira Code".to_string(), "JetBrains Mono".to_string(), "Hack".to_string()];
    assert_eq!(filtered_families(&fams, ""), vec![0, 1, 2]);
    assert_eq!(filtered_families(&fams, "mono"), vec![1]);
    assert_eq!(filtered_families(&fams, "A"), vec![0, 1, 2]);
    assert_eq!(filtered_families(&fams, "zzz"), Vec::<usize>::new());
}

#[test]
fn switcher_lists_sessions_and_commands() {
    let mut sw = SwitcherOverlay::new();
    sw.rebuild_items(&sessions(), &["box".to_string()], &["far".to_string()]);
    assert_eq!(titles(&sw), vec!["local: bash", "box: htop", "box: Build"]);
    sw.input = "BOX: b".to_string();
    sw.rebuild_items(&sessions(), &["box".to_string()], &["far".to_string()]);
    assert_eq!(titles(&sw), vec!["box: Build"]);
    sw.input = ">".to_string();
    sw.rebuild_items(&sessions(), &["box".to_string()], &["far".to_string()]);
    assert_eq!(
        titles(&sw),
        vec!["New terminal", "Change palette", "Change font", "Change layout", "Clear layout", "Connect: far", "Disconnect: box"]
    );
    assert!(matches!(&sw.items[5], SwitcherItem::Action { action: SwitcherAction::ConnectRemote(r), .. } if r == "far"));
}

#[test]
fn switcher_keys_move_type_and_choose() {
    let s = sessions();
    let conn = vec!["box".to_string()];
    let mut sw = SwitcherOverlay::new();
    sw.rebuild_items(&s, &conn, &[]);
    assert_eq!(sw.handle_key(&Key::Named(NamedKey::ArrowUp), &s, &conn), SwitcherOutcome::Stay);
    assert_eq!(sw.selected, 2);
    sw.handle_key(&Key::Named(NamedKey::ArrowDown), &s, &conn);
    assert_eq!(sw.selected, 0);
    sw.handle_key(&Key::Named(NamedKey::ArrowDown), &s, &conn);
    assert_eq!(sw.handle_key(&Key::Named(NamedKey::Enter), &s, &conn), SwitcherOutcome::FocusSession(key("box", 2)));

    sw.handle_key(&Key::Character("bu".to_string()), &s, &conn);
    assert_eq!(sw.input, "bu");
    assert_eq!(sw.selected, 0);
    assert_eq!(titles(&sw), vec!["box: Build"]);
    sw.handle_key(&Key::Named(NamedKey::Backspace), &s, &conn);
    assert_eq!(sw.input, "b");
    assert_eq!(titles(&sw), vec!["local: bash", "box: htop", "box: Build"]);
    assert_eq!(sw.handle_key(&Key::Named(NamedKey::Tab), &s, &conn), SwitcherOutcome::Stay);

    let mut cmd = SwitcherOverlay::new();
    cmd.handle_key(&Key::Character(">".to_string()), &s, &conn);
    assert_eq!(cmd.items.len(), 6);
    assert_eq!(cmd.handle_key(&Key::Named(NamedKey::Enter), &s, &conn), SwitcherOutcome::NewTerminal);
    cmd.selected = 5;
    assert_eq!(cmd.handle_key(&Key::Named(NamedKey::Enter), &s, &conn), SwitcherOutcome::Close);
    cmd.handle_key(&Key::Named(NamedKey::Backspace), &s, &conn);
    assert_eq!(cmd.input, "");
    assert_eq!(cmd.selected, 2);

    let mut empty = SwitcherOverlay::new();
    assert_eq!(empty.handle_key(&Key::Named(NamedKey::Enter), &[], &[]), SwitcherOutcome::Stay);
    empty.handle_key(&Key::Named(NamedKey::Backspace), &[], &[]);
    assert_eq!(empty.selected, 0);
}
