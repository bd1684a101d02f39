use lazyinstall::install::target::{
    decode_output, looks_like_password_prompt, password_line, strip_line_endings, wipe, InstallTarget, LineReader,
    UpdateMessage,
};

#[test]
fn it_recognizes_sudo_and_generic_password_prompts() {
    assert!(looks_like_password_prompt("[sudo] password for bob: "));
    assert!(looks_like_password_prompt("Password:"));
    assert!(looks_like_password_prompt(
        "première ligne\n[sudo] password for bob: "
    ));
    assert!(looks_like_password_prompt("Mot de passe : "));
}

#[test]
fn it_ignores_regular_output() {
    assert!(!looks_like_password_prompt("téléchargement... 50%"));
    assert!(!looks_like_password_prompt(""));
    assert!(!looks_like_password_prompt(
        "password mis à jour avec succès"
    ));
    assert!(!looks_like_password_prompt(
        "Étapes restantes :\nclonage en cours"
    ));
}

#[test]
fn prompt_detection_looks_only_at_the_last_line() {
    assert!(!looks_like_password_prompt("Password:\nnext"));
    assert!(!looks_like_password_prompt("Password:\n"));
    assert!(looks_like_password_prompt("PASSWORD FOR ROOT:\t "));
    assert!(looks_like_password_prompt("Enter [SUDO] :"));
    assert!(!looks_like_password_prompt("Username:"));
}

#[test]
fn line_endings_are_stripped_at_the_end_only() {
    assert_eq!(strip_line_endings("abc\r\n"), "abc");
    assert_eq!(strip_line_endings("a\rb\n\n\r"), "a\rb");
    assert_eq!(strip_line_endings("\n"), "");
    assert_eq!(strip_line_endings("plain"), "plain");
}

#[test]
fn a_target_keeps_what_it_was_made_with() {
    let t = InstallTarget::new(
        "lazygit".to_string(),
        "/home/u/lazygitinstall".to_string(),
        "/home/u/lazygitinstall/update-lazygit.sh".to_string(),
    );
    assert_eq!(t.name(), "lazygit");
    assert_eq!(t.folder(), "/home/u/lazygitinstall");
    assert_eq!(t.script(), "/home/u/lazygitinstall/update-lazygit.sh");
}

#[test]
fn the_reader_emits_complete_lines_and_keeps_the_rest() {
    let mut r = LineReader::new();
    let out = r.feed(b"first\r\nsecond\nthi");
    assert_eq!(
        out,
        vec![
            UpdateMessage::Line("first".to_string()),
            UpdateMessage::Line("second".to_string())
        ]
    );
    let out = r.feed(b"rd\n");
    assert_eq!(out, vec![UpdateMessage::Line("third".to_string())]);
    assert_eq!(r.finish(), None);
}

#[test]
fn chunk_boundaries_do_not_change_the_lines() {
    let text = "alpha\nbeta\r\ngamma\ndelta";
    let mut whole = LineReader::new();
    let all = whole.feed(text.as_bytes());
    for cut in 0..text.len() {
        let mut split = LineReader::new();
        let mut got = split.feed(&text.as_bytes()[..cut]);
        got.extend(split.feed(&text.as_bytes()[cut..]));
        assert_eq!(got, all, "cut at {cut}");
        assert_eq!(split.finish(), whole.finish());
    }
    assert_eq!(whole.finish(), Some(UpdateMessage::Line("delta".to_string())));
}

#[test]
fn a_prompt_is_reported_once_until_a_new_line() {
    let mut r = LineReader::new();
    let out = r.feed(b"hello\n[sudo] password for bob: ");
    assert_eq!(
        out,
        vec![
            UpdateMessage::Line("hello".to_string()),
            UpdateMessage::PasswordPrompt("[sudo] password for bob:".to_string())
        ]
    );
    assert_eq!(r.feed(b" "), vec![]);
    let out = r.feed(b"\nSorry, try again.\n[sudo] password for bob: ");
    assert_eq!(
        out,
        vec![
            UpdateMessage::Line("[sudo] password for bob:  ".to_string()),
            UpdateMessage::Line("Sorry, try again.".to_string()),
            UpdateMessage::PasswordPrompt("[sudo] password for bob:".to_string())
        ]
    );
}

#[test]
fn invalid_utf8_is_replaced() {
    let mut r = LineReader::new();
    let out = r.feed(&[b'a', 0xff, b'b', b'\n']);
    assert_eq!(out, vec![UpdateMessage::Line("a\u{fffd}b".to_string())]);
}

#[test]
fn a_password_is_written_with_a_line_feed_and_can_be_wiped() {
    let mut bytes = password_line("sécret".to_string());
    assert_eq!(bytes, b"s\xc3\xa9cret\n".to_vec());
    wipe(&mut bytes);
    assert_eq!(bytes, vec![0u8; 8]);
}

#[test]
fn raw_output_decodes_as_utf8_with_replacements() {
    assert_eq!(decode_output(b"ready: 100%"), "ready: 100%");
    assert_eq!(decode_output("mis à jour".as_bytes()), "mis à jour");
    assert_eq!(decode_output(&[b'o', b'k', 0xc3]), "ok\u{fffd}");
    assert_eq!(decode_output(&[]), "");
}
