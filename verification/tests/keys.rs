use lazyinstall::ui::keys::{help, Action, Key, KeyInput, KeyMap, HELP_LEN};

fn key(code: Key) -> KeyInput {
    KeyInput { code, ctrl: false, release: false }
}

#[test]
fn keys_map_to_their_actions() {
    assert_eq!(KeyMap::map(key(Key::Char('q'))), Some(Action::Quit));
    assert_eq!(
        KeyMap::map(KeyInput { code: Key::Char('c'), ctrl: true, release: false }),
        Some(Action::Quit)
    );
    assert_eq!(KeyMap::map(key(Key::Char('c'))), None);
    assert_eq!(KeyMap::map(key(Key::Char('?'))), Some(Action::Help));
    assert_eq!(KeyMap::map(key(Key::Esc)), Some(Action::CloseOverlay));
    assert_eq!(KeyMap::map(key(Key::Char('j'))), Some(Action::Down));
    assert_eq!(KeyMap::map(key(Key::Down)), Some(Action::Down));
    assert_eq!(KeyMap::map(key(Key::Char('k'))), Some(Action::Up));
    assert_eq!(KeyMap::map(key(Key::Up)), Some(Action::Up));
    assert_eq!(KeyMap::map(key(Key::Char('u'))), Some(Action::Update));
    assert_eq!(KeyMap::map(key(Key::Enter)), Some(Action::Update));
    assert_eq!(KeyMap::map(key(Key::Char('U'))), Some(Action::UpdateAll));
    assert_eq!(KeyMap::map(key(Key::Char('a'))), Some(Action::Add));
    assert_eq!(KeyMap::map(key(Key::Char('d'))), Some(Action::Remove));
    assert_eq!(KeyMap::map(key(Key::Backspace)), None);
    assert_eq!(KeyMap::map(key(Key::Other)), None);
}

#[test]
fn the_help_lists_every_binding() {
    let h = help();
    assert_eq!(h.len(), HELP_LEN);
    assert_eq!(h[0].keys, "j/k, ↓/↑");
    assert_eq!(h[6].desc, "quit");
    assert_eq!(h[8].keys, "Esc");
}
