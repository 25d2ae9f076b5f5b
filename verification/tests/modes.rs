use browsr::mode::{DetailMode, InputMode, Key, MenuMode, Mode, ModeReturns};

#[test]
fn menu_starts_on_first_entry() {
    let m = MenuMode::new();
    assert_eq!(m.tree.items.len(), 2);
    assert_eq!(m.tree.items[0].label, "Open File");
    assert_eq!(m.tree.items[1].label, "Exit");
    assert_eq!(m.tree.selected, vec![0]);
}

#[test]
fn menu_enter_on_open_file() {
    let mut m = MenuMode::new();
    let r = m.handle_key(Key::Enter);
    match r {
        Some(ModeReturns::GoToInput(next)) => match *next {
            ModeReturns::GoToDetails(None) => {}
            _ => panic!("wrong continuation"),
        },
        _ => panic!("expected the input-screen transition"),
    }
}

#[test]
fn menu_exit_yields_quit() {
    // Choosing `Exit` yields the quit transition, whatever navigation
    // happened before.
    let mut m = MenuMode::new();
    m.handle_key(Key::Down);
    m.handle_key(Key::Up);
    m.handle_key(Key::End);
    assert_eq!(m.tree.selected, vec![1]);
    let r = m.handle_key(Key::Enter);
    assert!(matches!(r, Some(ModeReturns::Quit)));
}

#[test]
fn menu_q_quits() {
    let mut m = MenuMode::new();
    let r = m.handle_key(Key::Char('q'));
    assert!(matches!(r, Some(ModeReturns::Quit)));
}

#[test]
fn menu_other_key_ignored() {
    let mut m = MenuMode::new();
    let r = m.handle_key(Key::Char('x'));
    assert!(r.is_none());
    assert_eq!(m.tree.selected, vec![0]);
}

#[test]
fn input_editing_enter_carries_buffer() {
    // In the editing sub-mode, `Enter` resolves the continuation with
    // exactly the entered text.
    let mut m = InputMode::new(Box::new(ModeReturns::GoToDetails(None)));
    assert!(m.handle_key(Key::Char('e')).is_none());
    for c in "foo.xml".chars() {
        assert!(m.handle_key(Key::Char(c)).is_none());
    }
    let r = m.handle_key(Key::Enter);
    match r {
        Some(ModeReturns::GoToDetails(Some(name))) => assert_eq!(name, "foo.xml"),
        _ => panic!("expected the detail-screen transition"),
    }
}

#[test]
fn input_backspace_and_esc() {
    let mut m = InputMode::new(Box::new(ModeReturns::GoToDetails(None)));
    m.handle_key(Key::Char('e'));
    m.handle_key(Key::Char('a'));
    m.handle_key(Key::Char('b'));
    m.handle_key(Key::Backspace);
    assert_eq!(m.input, "a");
    assert!(m.handle_key(Key::Esc).is_none());
    // Back in the normal sub-mode, `q` quits.
    let r = m.handle_key(Key::Char('q'));
    assert!(matches!(r, Some(ModeReturns::Quit)));
}

#[test]
fn input_normal_ignores_text() {
    let mut m = InputMode::new(Box::new(ModeReturns::GoToDetails(None)));
    m.handle_key(Key::Char('a'));
    assert_eq!(m.input, "");
}

#[test]
fn detail_builds_tree_from_content() {
    let name = "f.xml".to_string();
    let d = DetailMode::new(&name, "Foo {a, b}".to_string());
    assert_eq!(d.filename, "f.xml");
    assert_eq!(d.tree.items.len(), 1);
    let root = &d.tree.items[0];
    assert_eq!(root.label, "Foo {");
    assert_eq!(root.children.len(), 2);
    assert_eq!(root.children[0].label, "a");
    assert_eq!(root.children[1].label, "b");
}

#[test]
fn detail_keys_drive_navigation() {
    let name = "f.xml".to_string();
    let mut d = DetailMode::new(&name, "Foo {a, b}".to_string());
    assert_eq!(d.tree.selected, vec![0]);
    assert!(d.handle_key(Key::Char(' ')).is_none());
    assert!(d.tree.expanded.contains(&vec![0]));
    assert!(d.handle_key(Key::Down).is_none());
    assert_eq!(d.tree.selected, vec![0, 0]);
    assert!(d.handle_key(Key::End).is_none());
    assert_eq!(d.tree.selected, vec![0, 1]);
    assert!(d.handle_key(Key::Home).is_none());
    assert_eq!(d.tree.selected, vec![0]);
    let r = d.handle_key(Key::Char('q'));
    assert!(matches!(r, Some(ModeReturns::Quit)));
}

#[test]
fn detail_enter_toggles() {
    let name = "f.xml".to_string();
    let mut d = DetailMode::new(&name, "Foo {a}".to_string());
    d.handle_key(Key::Enter);
    assert!(d.tree.expanded.contains(&vec![0]));
    d.handle_key(Key::Enter);
    assert!(d.tree.expanded.is_empty());
}

#[test]
fn mode_dispatch_runs_a_session() {
    // Menu -> Input -> Detail, driven only through the dispatching enum, as
    // the runtime loop drives it.
    let mut mode = Mode::Menu(MenuMode::new());
    let r = mode.handle_key(Key::Enter);
    let next = match r {
        Some(ModeReturns::GoToInput(next)) => next,
        _ => panic!("expected the input-screen transition"),
    };
    mode = Mode::Input(InputMode::new(next));
    mode.handle_key(Key::Char('e'));
    mode.handle_key(Key::Char('x'));
    let r = mode.handle_key(Key::Enter);
    let filename = match r {
        Some(ModeReturns::GoToDetails(Some(name))) => name,
        _ => panic!("expected the detail-screen transition"),
    };
    assert_eq!(filename, "x");
    mode = Mode::Detail(DetailMode::new(&filename, "A {b}".to_string()));
    let r = mode.handle_key(Key::Char('q'));
    assert!(matches!(r, Some(ModeReturns::Quit)));
}
