//! What the panels show: popup placement, the colour of an output line or a
//! state, markers, titles and padded columns. The drawing itself is done by
//! the program around the library.
use vstd::prelude::*;
use vstd::string::*;

use crate::install::tracking::{StateView, UpdateState};
use crate::text::{
    chars_of, joined, joined3, contains, contains_exec, lower, lower_chars, push_char,
};

verus! {

/// A rectangle of the terminal, in cells.
#[derive(Debug, Clone, Copy, PartialEq, Eq, Structural)]
pub struct Area {
    pub x: u16,
    pub y: u16,
    pub width: u16,
    pub height: u16,
}

/// The rectangle fits in the coordinates of a terminal.
pub open spec fn area_fits(a: Area) -> bool {
    a.x + a.width <= u16::MAX && a.y + a.height <= u16::MAX
}

/// A popup of at most `width` by `height` cells, centred in `area`.
pub open spec fn centered(area: Area, width: u16, height: u16) -> Area {
    let w = if width < area.width {
        width
    } else {
        area.width
    };
    let h = if height < area.height {
        height
    } else {
        area.height
    };
    Area {
        x: (area.x + (area.width - w) / 2) as u16,
        y: (area.y + (area.height - h) / 2) as u16,
        width: w,
        height: h,
    }
}

/// Places a popup of at most `width` by `height` cells in the middle of
/// `area`.
pub fn popup_area(area: Area, width: u16, height: u16) -> (r: Area)
    requires
        area_fits(area),
    ensures
        r == centered(area, width, height),
        area_fits(r),
{
    let w = if width < area.width {
        width
    } else {
        area.width
    };
    let h = if height < area.height {
        height
    } else {
        area.height
    };
    Area { x: area.x + (area.width - w) / 2, y: area.y + (area.height - h) / 2, width: w, height: h }
}

/// The colours the panels use for text.
#[derive(Debug, Clone, Copy, PartialEq, Eq, Structural)]
pub enum Tint {
    Red,
    Yellow,
    Green,
    Gray,
    DarkGray,
}

/// The colour of an output line: errors red, warnings yellow, success green,
/// anything else gray. The words are looked for after ASCII lowercasing.
pub open spec fn tint_of_line(line: Seq<char>) -> Tint {
    let l = lower(line);
    if contains(l, "erreur"@) || contains(l, "error"@) || contains(l, "échec"@) || contains(
        l,
        "failed"@,
    ) {
        Tint::Red
    } else if contains(l, "warn"@) || contains(l, "attention"@) {
        Tint::Yellow
    } else if contains(l, "à jour"@) || contains(l, "up to date"@) || contains(l, "updated"@)
        || contains(l, "mis à jour"@) {
        Tint::Green
    } else {
        Tint::Gray
    }
}

/// Whether `v` holds the text `word`.
fn holds_word(v: &Vec<char>, word: &str) -> (b: bool)
    ensures
        b == contains(v@, word@),
{
    let w = chars_of(word);
    contains_exec(v, &w)
}

/// The colour of a line of script output.
pub fn line_tint(line: &str) -> (t: Tint)
    ensures
        t == tint_of_line(line@),
{
    let l = lower_chars(&chars_of(line));
    if holds_word(&l, "erreur") || holds_word(&l, "error") || holds_word(&l, "échec") || holds_word(
        &l,
        "failed",
    ) {
        Tint::Red
    } else if holds_word(&l, "warn") || holds_word(&l, "attention") {
        Tint::Yellow
    } else if holds_word(&l, "à jour") || holds_word(&l, "up to date") || holds_word(&l, "updated")
        || holds_word(&l, "mis à jour") {
        Tint::Green
    } else {
        Tint::Gray
    }
}

/// The colour of a state: success green, running yellow, idle dark gray,
/// failure red.
pub open spec fn tint_of_state(s: StateView) -> Tint {
    match s {
        StateView::Succeeded => Tint::Green,
        StateView::Updating => Tint::Yellow,
        StateView::Idle => Tint::DarkGray,
        StateView::Failed(_) => Tint::Red,
    }
}

/// The colour of a state.
pub fn state_tint(state: &UpdateState) -> (t: Tint)
    ensures
        t == tint_of_state(state@),
{
    match state {
        UpdateState::Succeeded => Tint::Green,
        UpdateState::Updating => Tint::Yellow,
        UpdateState::Idle => Tint::DarkGray,
        UpdateState::Failed(_) => Tint::Red,
    }
}

/// The marker of a state in the list: `●` up to date, `◌` updating, `✗`
/// failed, `○` idle.
pub open spec fn marker_of_state(s: StateView) -> Seq<char> {
    match s {
        StateView::Succeeded => "●"@,
        StateView::Updating => "◌"@,
        StateView::Failed(_) => "✗"@,
        StateView::Idle => "○"@,
    }
}

/// The marker of a state in the list.
pub fn state_marker(state: &UpdateState) -> (m: &'static str)
    ensures
        m@ == marker_of_state(state@),
{
    match state {
        UpdateState::Succeeded => "●",
        UpdateState::Updating => "◌",
        UpdateState::Failed(_) => "✗",
        UpdateState::Idle => "○",
    }
}

/// A password as shown while typed: one `•` per character.
pub fn masked(input: &str) -> (m: String)
    ensures
        m@ == Seq::new(input@.len(), |i: int| '•'),
{
    let v = chars_of(input);
    let mut m = String::new();
    let mut i: usize = 0;
    while i < v.len()
        invariant
            i <= v@.len(),
            m@ == Seq::new(i as nat, |k: int| '•'),
        decreases v@.len() - i,
    {
        push_char(&mut m, '•');
        i = i + 1;
        proof {
            assert(m@ =~= Seq::new(i as nat, |k: int| '•'));
        }
    }
    m
}

/// `s` padded with spaces on the right to `width` characters (as
/// `format!("{:<width$}")` does); a longer `s` is kept whole.
pub open spec fn padded(s: Seq<char>, width: nat) -> Seq<char> {
    if s.len() >= width {
        s
    } else {
        s + Seq::new((width - s.len()) as nat, |i: int| ' ')
    }
}

/// Pads `s` with spaces on the right to `width` characters.
pub fn pad_right(s: &str, width: usize) -> (r: String)
    ensures
        r@ == padded(s@, width as nat),
{
    let n = chars_of(s).len();
    let mut r = String::from_str(s);
    let mut k = n;
    proof {
        if n < width {
            assert(s@ + Seq::new((n - n) as nat, |i: int| ' ') =~= s@);
        }
    }
    while k < width
        invariant
            n == s@.len(),
            n <= k <= width || (n > width && k == n),
            r@ == s@ + Seq::new((k - n) as nat, |i: int| ' '),
        decreases width - k,
    {
        push_char(&mut r, ' ');
        k = k + 1;
        proof {
            assert(r@ =~= s@ + Seq::new((k - n) as nat, |i: int| ' '));
        }
    }
    proof {
        if n >= width {
            assert(r@ =~= s@);
        }
    }
    r
}

/// How many lines of a log are skipped so that its end fits in a panel of
/// `height` rows (two rows go to the border; at least one line is shown).
pub open spec fn skipped_lines(len: nat, height: u16) -> nat {
    let inner: nat = if height >= 2 {
        (height - 2) as nat
    } else {
        0
    };
    let shown: nat = if inner > 1 {
        inner
    } else {
        1
    };
    if len > shown {
        (len - shown) as nat
    } else {
        0
    }
}

/// The number of log lines to skip to show the end of the log.
pub fn log_skip(len: usize, height: u16) -> (n: usize)
    ensures
        n == skipped_lines(len as nat, height),
{
    let inner: usize = if height >= 2 {
        (height - 2) as usize
    } else {
        0
    };
    let shown = if inner > 1 {
        inner
    } else {
        1
    };
    if len > shown {
        len - shown
    } else {
        0
    }
}

/// The title of the output panel, naming the selected target.
pub fn output_title(name: Option<&str>) -> (t: String)
    ensures
        match name {
            Some(n) => t@ == " Sortie : "@ + n@ + " "@,
            None => t@ == " Sortie "@,
        },
{
    match name {
        Some(n) => joined3(" Sortie : ", n, " "),
        None => String::from_str(" Sortie "),
    }
}

/// The placeholder of the output panel when there is no output to show.
pub fn output_placeholder(has_target: bool) -> (t: &'static str)
    ensures
        has_target ==> t@ == "  No output yet — [Enter/u] to run the update"@,
        !has_target ==> t@ == "  No folder tracked"@,
{
    if has_target {
        "  No output yet — [Enter/u] to run the update"
    } else {
        "  No folder tracked"
    }
}

/// A line of output as the panel shows it, indented by two spaces.
pub fn log_line_text(line: &str) -> (t: String)
    ensures
        t@ == "  "@ + line@,
{
    joined("  ", line)
}

/// The title of the target list.
pub fn list_title(empty: bool) -> (t: &'static str)
    ensures
        empty ==> t@ == " lazyinstall — aucun dossier suivi ([a] pour en ajouter) "@,
        !empty ==> t@ == " lazyinstall — dossiers suivis "@,
{
    if empty {
        " lazyinstall — aucun dossier suivi ([a] pour en ajouter) "
    } else {
        " lazyinstall — dossiers suivis "
    }
}

/// The text of the status bar: the message when there is one (and then it
/// is highlighted), the key reminder otherwise.
pub fn status_text(toast: Option<&str>) -> (r: (String, bool))
    ensures
        match toast {
            Some(m) => r.0@ == " "@ + m@ && r.1,
            None => r.0@ == " [Enter/u] màj  [U] tout  [a] ajouter  [d] retirer  [j/k] naviguer  [q] quitter  [?] aide"@
                && !r.1,
        },
{
    match toast {
        Some(m) => (joined(" ", m), true),
        None => (
            String::from_str(
                " [Enter/u] màj  [U] tout  [a] ajouter  [d] retirer  [j/k] naviguer  [q] quitter  [?] aide",
            ),
            false,
        ),
    }
}

/// The title of the password popup, naming the target that asks.
pub fn password_title(target: &str) -> (t: String)
    ensures
        t@ == " Mot de passe sudo — « "@ + target@
            + " » — Enter pour valider, Esc pour annuler "@,
{
    joined3(" Mot de passe sudo — « ", target, " » — Enter pour valider, Esc pour annuler ")
}

/// The line above the typed password: the script's prompt, or a default.
pub fn prompt_text(prompt: Option<&str>) -> (t: &str)
    ensures
        match prompt {
            Some(p) => t@ == p@,
            None => t@ == "Mot de passe sudo :"@,
        },
{
    match prompt {
        Some(p) => p,
        None => "Mot de passe sudo :",
    }
}

} // verus!
