use lazyinstall::install::tracking::UpdateState;
use lazyinstall::ui::view::{
    line_tint, list_title, log_line_text, log_skip, masked, output_placeholder, output_title,
    pad_right, password_title, popup_area, prompt_text, state_marker, state_tint, status_text,
    Area, Tint,
};

#[test]
fn popups_are_centred_and_clamped() {
    let area = Area { x: 0, y: 0, width: 100, height: 40 };
    assert_eq!(popup_area(area, 70, 5), Area { x: 15, y: 17, width: 70, height: 5 });
    let small = Area { x: 2, y: 1, width: 50, height: 3 };
    assert_eq!(popup_area(small, 70, 6), Area { x: 2, y: 1, width: 50, height: 3 });
}

#[test]
fn output_lines_are_coloured_by_their_words() {
    assert_eq!(line_tint("ERROR: disk full"), Tint::Red);
    assert_eq!(line_tint("Échec du téléchargement"), Tint::Gray);
    assert_eq!(line_tint("échec du téléchargement"), Tint::Red);
    assert_eq!(line_tint("Warning: old"), Tint::Yellow);
    assert_eq!(line_tint("lazygit mis à jour : 0.62.1 -> 0.62.2"), Tint::Green);
    assert_eq!(line_tint("Already Up To Date"), Tint::Green);
    assert_eq!(line_tint("Version installée : 0.62.1"), Tint::Gray);
    assert_eq!(line_tint("updated, but failed later"), Tint::Red);
}

#[test]
fn states_have_markers_and_colours() {
    assert_eq!(state_marker(&UpdateState::Succeeded), "●");
    assert_eq!(state_marker(&UpdateState::Updating), "◌");
    assert_eq!(state_marker(&UpdateState::Failed("x".into())), "✗");
    assert_eq!(state_marker(&UpdateState::Idle), "○");
    assert_eq!(state_tint(&UpdateState::Succeeded), Tint::Green);
    assert_eq!(state_tint(&UpdateState::Updating), Tint::Yellow);
    assert_eq!(state_tint(&UpdateState::Idle), Tint::DarkGray);
    assert_eq!(state_tint(&UpdateState::Failed("x".into())), Tint::Red);
}

#[test]
fn texts_are_built_as_shown() {
    assert_eq!(masked("pé1"), "•••");
    assert_eq!(masked(""), "");
    assert_eq!(pad_right("abc", 5), "abc  ");
    assert_eq!(pad_right("abcdef", 3), "abcdef");
    assert_eq!(pad_right("é", 3), format!("{:<3}", "é"));
    assert_eq!(output_title(Some("lazygit")), " Sortie : lazygit ");
    assert_eq!(output_title(None), " Sortie ");
    assert_eq!(output_placeholder(false), "  No folder tracked");
    assert_eq!(log_line_text("x"), "  x");
    assert_eq!(list_title(false), " lazyinstall — dossiers suivis ");
    assert_eq!(status_text(Some("hi")), (" hi".to_string(), true));
    assert!(!status_text(None).1);
    assert_eq!(
        status_text(None).0,
        " [Enter/u] màj  [U] tout  [a] ajouter  [d] retirer  [j/k] naviguer  [q] quitter  [?] aide"
    );
    assert_eq!(
        password_title("nvim"),
        " Mot de passe sudo — « nvim » — Enter pour valider, Esc pour annuler "
    );
    assert_eq!(prompt_text(None), "Mot de passe sudo :");
    assert_eq!(prompt_text(Some("Password:")), "Password:");
}

#[test]
fn the_end_of_the_log_is_shown() {
    assert_eq!(log_skip(100, 12), 90);
    assert_eq!(log_skip(5, 12), 0);
    assert_eq!(log_skip(5, 2), 4);
    assert_eq!(log_skip(5, 0), 4);
}
