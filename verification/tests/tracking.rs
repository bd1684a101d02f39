use lazyinstall::install::target::{password_line, InstallTarget, LineReader, UpdateMessage};
use lazyinstall::install::tracking::{TrackedTarget, UpdateState, MAX_LOG_LINES};

fn target() -> InstallTarget {
    InstallTarget::new(
        "demo".to_string(),
        "/tmp/demo".to_string(),
        "/tmp/demo/update-demo.sh".to_string(),
    )
}

fn line(s: &str) -> UpdateMessage {
    UpdateMessage::Line(s.to_string())
}

#[test]
fn labels_name_each_state() {
    assert_eq!(UpdateState::Idle.label(), "au repos");
    assert_eq!(UpdateState::Updating.label(), "updating…");
    assert_eq!(UpdateState::Succeeded.label(), "à jour");
    assert_eq!(UpdateState::Failed("x".to_string()).label(), "ÉCHEC");
}

#[test]
fn a_new_target_is_idle_and_empty() {
    let t = TrackedTarget::new(target());
    assert_eq!(t.state(), &UpdateState::Idle);
    assert!(!t.is_updating());
    assert!(t.logs().is_empty());
    assert!(!t.is_awaiting_password());
    assert_eq!(t.password_sends(), 0);
    assert_eq!(t.name(), "demo");
    assert_eq!(t.target().script(), "/tmp/demo/update-demo.sh");
}

#[test]
fn a_run_streams_lines_and_succeeds() {
    let mut t = TrackedTarget::new(target());
    assert!(t.launch());
    assert!(t.is_updating());
    assert!(!t.launch());
    assert!(!t.pump(vec![line("première ligne")], false));
    assert!(t.pump(vec![line("mis à jour"), UpdateMessage::Finished(true)], false));
    assert_eq!(t.state(), &UpdateState::Succeeded);
    let logs: Vec<String> = t.logs().iter().cloned().collect();
    assert_eq!(logs, vec!["première ligne", "mis à jour"]);
}

#[test]
fn a_run_fails_on_error_or_on_a_broken_stream() {
    let mut t = TrackedTarget::new(target());
    t.launch();
    assert!(t.pump(vec![line("boom"), UpdateMessage::Finished(false)], false));
    assert_eq!(
        t.state(),
        &UpdateState::Failed("script exited with an error".to_string())
    );
    let mut u = TrackedTarget::new(target());
    u.launch();
    assert!(u.pump(vec![], true));
    assert!(matches!(u.state(), UpdateState::Failed(_)));
    let mut w = TrackedTarget::new(target());
    w.launch();
    assert!(w.pump(vec![UpdateMessage::Finished(true)], true));
    assert_eq!(w.state(), &UpdateState::Succeeded);
}

#[test]
fn an_idle_target_ignores_messages() {
    let mut t = TrackedTarget::new(target());
    assert!(!t.pump(vec![line("x"), UpdateMessage::Finished(true)], true));
    assert_eq!(t.state(), &UpdateState::Idle);
    assert!(t.logs().is_empty());
}

#[test]
fn prompts_are_awaited_then_answered() {
    let mut t = TrackedTarget::new(target());
    t.launch();
    t.pump(vec![UpdateMessage::PasswordPrompt("Password:".to_string())], false);
    assert!(t.is_awaiting_password());
    assert_eq!(t.awaiting_prompt(), Some("Password:"));
    assert!(t.provide_password());
    assert!(!t.is_awaiting_password());
    assert_eq!(t.password_sends(), 1);
    t.pump(vec![UpdateMessage::PasswordPrompt("Password:".to_string())], false);
    assert!(t.cancel());
    assert!(!t.is_awaiting_password());
    assert_eq!(t.password_sends(), 1);
}

#[test]
fn the_log_keeps_the_last_thousand_lines() {
    let mut t = TrackedTarget::new(target());
    t.launch();
    let batch: Vec<UpdateMessage> = (0..MAX_LOG_LINES + 5).map(|i| line(&i.to_string())).collect();
    t.pump(batch, false);
    assert_eq!(t.logs().len(), MAX_LOG_LINES);
    assert_eq!(t.logs().front().unwrap(), "5");
    assert_eq!(t.logs().back().unwrap(), &(MAX_LOG_LINES + 4).to_string());
}

#[test]
fn a_new_launch_clears_the_previous_run() {
    let mut t = TrackedTarget::new(target());
    t.launch();
    t.pump(vec![line("old"), UpdateMessage::PasswordPrompt("Password:".to_string())], false);
    t.provide_password();
    t.pump(vec![UpdateMessage::Finished(true)], false);
    assert!(t.launch());
    assert!(t.logs().is_empty());
    assert_eq!(t.password_sends(), 0);
    assert!(!t.is_awaiting_password());
}

/// Feeds the raw terminal output of a script through a reader, as the
/// program does, and hands each batch to the target.
fn run_output(t: &mut TrackedTarget, reader: &mut LineReader, chunks: &[&[u8]]) {
    for chunk in chunks {
        let batch = reader.feed(chunk);
        t.pump(batch, false);
    }
}

fn joined_logs(t: &TrackedTarget) -> String {
    t.logs().iter().cloned().collect::<Vec<_>>().join("\n")
}

#[test]
fn it_should_stream_output_and_succeed_on_a_zero_exit_script() {
    let mut target_run = TrackedTarget::new(target());
    let mut reader = LineReader::new();
    assert!(target_run.launch());
    run_output(
        &mut target_run,
        &mut reader,
        &["première ligne\r\nmis ".as_bytes(), "à jour\r\n".as_bytes()],
    );
    assert!(reader.finish().is_none());
    assert!(target_run.pump(vec![UpdateMessage::Finished(true)], true));

    assert_eq!(target_run.state(), &UpdateState::Succeeded);
    let joined = joined_logs(&target_run);
    assert!(joined.contains("première ligne"), "logs = {joined:?}");
    assert!(joined.contains("mis à jour"), "logs = {joined:?}");
}

#[test]
fn it_should_mark_the_target_as_failed_on_a_non_zero_exit_script() {
    let mut target_run = TrackedTarget::new(target());
    let mut reader = LineReader::new();
    assert!(target_run.launch());
    run_output(&mut target_run, &mut reader, &[b"boom\r\n"]);
    assert!(target_run.pump(vec![UpdateMessage::Finished(false)], true));

    assert!(matches!(target_run.state(), UpdateState::Failed(_)));
    let joined = joined_logs(&target_run);
    assert!(joined.contains("boom"), "logs = {joined:?}");
}

#[test]
fn it_should_detect_a_password_prompt_and_inject_the_answer() {
    let mut target_run = TrackedTarget::new(target());
    let mut reader = LineReader::new();
    assert!(target_run.launch());
    run_output(&mut target_run, &mut reader, &[b"Pass", b"word: "]);
    assert!(target_run.is_awaiting_password(), "no prompt detected");
    assert_eq!(target_run.awaiting_prompt(), Some("Password:"));

    assert!(target_run.provide_password());
    assert_eq!(password_line("secret".to_string()), b"secret\n".to_vec());
    run_output(&mut target_run, &mut reader, &[b"\r\n", b"recu:secret\r\n"]);
    assert!(target_run.pump(vec![UpdateMessage::Finished(true)], true));

    assert_eq!(target_run.state(), &UpdateState::Succeeded);
    let joined = joined_logs(&target_run);
    assert!(joined.contains("recu:secret"), "logs = {joined:?}");
}
