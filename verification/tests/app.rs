use lazyinstall::install::target::{InstallTarget, UpdateMessage};
use lazyinstall::install::tracking::UpdateState;
use lazyinstall::ui::app::{expand_tilde, App, Command, TOAST_TTL_MS};
use lazyinstall::ui::keys::{Action, Key, KeyInput};

fn press(code: Key) -> KeyInput {
    KeyInput { code, ctrl: false, release: false }
}

fn ch(c: char) -> KeyInput {
    press(Key::Char(c))
}

fn target(folder: &str, name: &str) -> InstallTarget {
    InstallTarget::new(
        name.to_string(),
        folder.to_string(),
        format!("{folder}/update-{name}.sh"),
    )
}

fn app_with(targets: Vec<InstallTarget>) -> App {
    let mut app = App::new(Some("/home/u".to_string()));
    let cmd = app.load_targets(vec![Some(targets)], 0);
    assert_eq!(cmd, Command::Nothing);
    app
}

#[test]
fn q_and_control_c_quit_but_c_alone_does_not() {
    let mut app = App::new(None);
    assert_eq!(app.handle_key(ch('c'), 0), Command::Nothing);
    assert!(!app.should_quit());
    app.handle_key(KeyInput { code: Key::Char('c'), ctrl: true, release: false }, 0);
    assert!(app.should_quit());
    let mut other = App::new(None);
    other.handle_key(ch('q'), 0);
    assert!(other.should_quit());
}

#[test]
fn key_releases_are_ignored() {
    let mut app = App::new(None);
    app.handle_key(KeyInput { code: Key::Char('q'), ctrl: false, release: true }, 0);
    assert!(!app.should_quit());
}

#[test]
fn the_cursor_stays_on_the_list() {
    let mut app = app_with(vec![target("/t/a", "a"), target("/t/b", "b")]);
    assert_eq!(app.cursor(), 0);
    app.handle_key(ch('k'), 0);
    assert_eq!(app.cursor(), 0);
    app.handle_key(ch('j'), 0);
    assert_eq!(app.cursor(), 1);
    app.handle_key(press(Key::Down), 0);
    assert_eq!(app.cursor(), 1);
    app.handle_key(press(Key::Up), 0);
    assert_eq!(app.cursor(), 0);
    assert_eq!(app.selected().unwrap().name(), "a");
}

#[test]
fn help_toggles_and_esc_closes_it() {
    let mut app = App::new(None);
    app.handle_key(ch('?'), 0);
    assert!(app.show_help());
    app.handle_key(ch('?'), 0);
    assert!(!app.show_help());
    app.handle_action(Action::Help, 0);
    app.handle_key(press(Key::Esc), 0);
    assert!(!app.show_help());
}

#[test]
fn adding_a_folder_expands_the_tilde_and_asks_to_look_into_it() {
    let mut app = App::new(Some("/home/u".to_string()));
    app.handle_key(ch('a'), 0);
    assert_eq!(app.add_input(), Some(""));
    for c in " ~/toolx".chars() {
        app.handle_key(ch(c), 0);
    }
    app.handle_key(press(Key::Backspace), 0);
    assert_eq!(app.add_input(), Some(" ~/tool"));
    let cmd = app.handle_key(press(Key::Enter), 0);
    assert_eq!(cmd, Command::Discover("/home/u/tool".to_string()));
    assert_eq!(app.add_input(), None);
}

#[test]
fn an_empty_path_asks_for_nothing_and_esc_cancels() {
    let mut app = App::new(None);
    app.handle_key(ch('a'), 0);
    app.handle_key(ch(' '), 0);
    assert_eq!(app.handle_key(press(Key::Enter), 0), Command::Nothing);
    app.handle_key(ch('a'), 0);
    app.handle_key(ch('x'), 0);
    app.handle_key(press(Key::Esc), 0);
    assert_eq!(app.add_input(), None);
    // while the prompt was open, 'q' was typed text, not a quit
    app.handle_key(ch('a'), 0);
    app.handle_key(ch('q'), 0);
    assert!(!app.should_quit());
}

#[test]
fn tilde_expansion_follows_the_home_folder() {
    assert_eq!(expand_tilde("~/x", Some("/home/u")), "/home/u/x");
    assert_eq!(expand_tilde("~", Some("/home/u")), "/home/u");
    assert_eq!(expand_tilde("~x", Some("/home/u")), "~x");
    assert_eq!(expand_tilde("~/x", None), "~/x");
    assert_eq!(expand_tilde("/abs", Some("/home/u")), "/abs");
}

#[test]
fn discovered_targets_are_tracked_once_and_saved() {
    let mut app = App::new(None);
    let cmd = app.discovered(Ok(vec![target("/t/a", "a")]), 10);
    assert_eq!(cmd, Command::Persist(vec!["/t/a".to_string()]));
    assert_eq!(app.visible_toast(10), Some("a now tracked"));
    let cmd = app.discovered(Ok(vec![target("/t/a", "a"), target("/t/b", "b"), target("/t/b", "c")]), 20);
    assert_eq!(cmd, Command::Persist(vec!["/t/a".to_string(), "/t/b".to_string()]));
    assert_eq!(app.visible_toast(20), Some("2 targets now tracked"));
    assert_eq!(app.targets().len(), 3);
    assert_eq!(app.cursor(), 2);
    let cmd = app.discovered(Ok(vec![target("/t/a", "a")]), 30);
    assert_eq!(cmd, Command::Nothing);
    assert_eq!(app.visible_toast(30), Some("already tracked"));
    let cmd = app.discovered(Err("no *.sh script found in /x".to_string()), 40);
    assert_eq!(cmd, Command::Nothing);
    assert_eq!(app.visible_toast(40), Some("cannot add: no *.sh script found in /x"));
}

#[test]
fn toasts_expire_after_their_time() {
    let mut app = App::new(None);
    app.discovered(Err("e".to_string()), 1000);
    assert!(app.visible_toast(1000 + TOAST_TTL_MS - 1).is_some());
    assert!(app.visible_toast(1000 + TOAST_TTL_MS).is_none());
    app.expire_toast(1000 + TOAST_TTL_MS - 1);
    assert!(app.visible_toast(1000).is_some());
    app.expire_toast(1000 + TOAST_TTL_MS);
    assert!(app.visible_toast(1000).is_none());
}

#[test]
fn updating_asks_to_launch_and_reports_errors() {
    let mut app = app_with(vec![target("/t/a", "a")]);
    assert_eq!(app.handle_key(ch('u'), 0), Command::Launch(0));
    app.launch_result(0, Err("no bash".to_string()), 5);
    assert_eq!(app.visible_toast(5), Some("cannot launch a: no bash"));
    assert_eq!(app.targets()[0].state(), &UpdateState::Idle);
    app.launch_result(0, Ok(()), 6);
    assert!(app.targets()[0].is_updating());
    assert_eq!(app.handle_key(press(Key::Enter), 7), Command::Nothing);
    assert_eq!(app.visible_toast(7), Some("update already running"));
}

#[test]
fn updating_everything_launches_the_idle_targets() {
    let mut app = app_with(vec![target("/t/a", "a"), target("/t/b", "b"), target("/t/c", "c")]);
    app.launch_result(1, Ok(()), 0);
    assert_eq!(app.handle_key(ch('U'), 0), Command::LaunchEach(vec![0, 2]));
    app.launch_each_result(vec![0], 3);
    assert_eq!(app.visible_toast(3), Some("1 update(s) launched"));
    assert!(app.targets()[0].is_updating());
    assert!(!app.targets()[2].is_updating());
}

#[test]
fn removing_keeps_the_cursor_on_the_list_and_saves() {
    let mut app = app_with(vec![target("/t/a", "a"), target("/t/b", "b")]);
    app.handle_key(ch('j'), 0);
    let cmd = app.handle_key(ch('d'), 0);
    assert_eq!(cmd, Command::Untrack(1, vec!["/t/a".to_string()]));
    assert_eq!(app.cursor(), 0);
    assert_eq!(app.visible_toast(0), Some("b no longer tracked"));
    let cmd = app.handle_key(ch('d'), 0);
    assert_eq!(cmd, Command::Untrack(0, vec![]));
    assert_eq!(app.cursor(), 0);
    assert_eq!(app.handle_key(ch('d'), 0), Command::Nothing);
    assert!(app.selected().is_none());
}

#[test]
fn a_password_is_asked_once_then_reused_for_first_requests() {
    let mut app = app_with(vec![target("/t/a", "a"), target("/t/b", "b")]);
    app.launch_result(0, Ok(()), 0);
    app.launch_result(1, Ok(()), 0);
    let prompt = || vec![UpdateMessage::PasswordPrompt("[sudo] password for u:".to_string())];
    assert!(!app.pump_target(0, prompt(), false));
    assert_eq!(app.handle_password_requests(), Command::Nothing);
    let (t, typed) = app.password_prompt().unwrap();
    assert_eq!(t.name(), "a");
    assert_eq!(typed, "");
    for c in "pw".chars() {
        app.handle_key(ch(c), 0);
    }
    assert_eq!(app.handle_key(press(Key::Enter), 0), Command::SendPassword(0, "pw".to_string()));
    assert!(app.password_prompt().is_none());
    app.pump_target(1, prompt(), false);
    assert_eq!(app.handle_password_requests(), Command::SendPassword(1, "pw".to_string()));
    // a second request from the same target means the password was refused
    app.pump_target(1, prompt(), false);
    assert_eq!(app.handle_password_requests(), Command::Nothing);
    assert_eq!(app.password_prompt().unwrap().0.name(), "b");
    assert_eq!(app.handle_key(press(Key::Esc), 9), Command::Stop(1));
    assert_eq!(app.visible_toast(9), Some("password prompt cancelled"));
    assert!(app.pump_target(1, vec![], true));
    assert!(matches!(app.targets()[1].state(), UpdateState::Failed(_)));
    app.clear_sudo_password();
    app.pump_target(0, prompt(), false);
    app.pump_target(0, vec![UpdateMessage::Finished(true)], false);
    assert_eq!(app.handle_password_requests(), Command::Nothing);
    assert!(app.password_prompt().is_some());
}

#[test]
fn missing_folders_are_dropped_at_load() {
    let mut app = App::new(None);
    let cmd = app.load_targets(vec![Some(vec![target("/t/a", "a")]), None, None], 50);
    assert_eq!(cmd, Command::Persist(vec!["/t/a".to_string()]));
    assert_eq!(app.visible_toast(50), Some("2 missing folder(s) dropped"));
    assert_eq!(app.targets().len(), 1);
}

#[test]
fn password_counts_are_in_range_on_a_new_state() {
    let app = app_with(vec![target("/t/a", "a")]);
    assert!(app.password_counts_in_range());
}
