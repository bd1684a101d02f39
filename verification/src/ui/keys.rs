//! The keys of the main screen and the actions they stand for.
use vstd::prelude::*;

verus! {

/// What the user asks for on the main screen.
#[derive(Debug, Clone, Copy, PartialEq, Eq, Structural)]
pub enum Action {
    Quit,
    Help,
    CloseOverlay,
    Up,
    Down,
    Update,
    UpdateAll,
    Add,
    Remove,
}

/// A key, as far as the screens tell keys apart.
#[derive(Debug, Clone, Copy, PartialEq, Eq, Structural)]
pub enum Key {
    /// A printable character.
    Char(char),
    Esc,
    Enter,
    Backspace,
    Up,
    Down,
    /// Any other key.
    Other,
}

/// A key event: the key, whether Control was held, and whether the event is
/// the release of the key (terminals that report releases send both).
#[derive(Debug, Clone, Copy, PartialEq, Eq, Structural)]
pub struct KeyInput {
    pub code: Key,
    pub ctrl: bool,
    pub release: bool,
}

/// The action of a key on the main screen: `q` or Control-C quit, `?` toggles
/// the help, Esc closes it, `j`/Down and `k`/Up move, `u`/Enter update the
/// selected folder, `U` updates all, `a` adds a folder, `d` removes one.
pub open spec fn key_action(ev: KeyInput) -> Option<Action> {
    match ev.code {
        Key::Char(c) => {
            if c == 'q' {
                Some(Action::Quit)
            } else if c == 'c' && ev.ctrl {
                Some(Action::Quit)
            } else if c == '?' {
                Some(Action::Help)
            } else if c == 'j' {
                Some(Action::Down)
            } else if c == 'k' {
                Some(Action::Up)
            } else if c == 'u' {
                Some(Action::Update)
            } else if c == 'U' {
                Some(Action::UpdateAll)
            } else if c == 'a' {
                Some(Action::Add)
            } else if c == 'd' {
                Some(Action::Remove)
            } else {
                None
            }
        },
        Key::Esc => Some(Action::CloseOverlay),
        Key::Down => Some(Action::Down),
        Key::Up => Some(Action::Up),
        Key::Enter => Some(Action::Update),
        _ => None,
    }
}

/// The key bindings of the main screen.
pub struct KeyMap;

impl KeyMap {
    /// The action a key event stands for, if any.
    pub fn map(ev: KeyInput) -> (a: Option<Action>)
        ensures
            a == key_action(ev),
    {
        match ev.code {
            Key::Char(c) => {
                if c == 'q' {
                    Some(Action::Quit)
                } else if c == 'c' && ev.ctrl {
                    Some(Action::Quit)
                } else if c == '?' {
                    Some(Action::Help)
                } else if c == 'j' {
                    Some(Action::Down)
                } else if c == 'k' {
                    Some(Action::Up)
                } else if c == 'u' {
                    Some(Action::Update)
                } else if c == 'U' {
                    Some(Action::UpdateAll)
                } else if c == 'a' {
                    Some(Action::Add)
                } else if c == 'd' {
                    Some(Action::Remove)
                } else {
                    None
                }
            },
            Key::Esc => Some(Action::CloseOverlay),
            Key::Down => Some(Action::Down),
            Key::Up => Some(Action::Up),
            Key::Enter => Some(Action::Update),
            _ => None,
        }
    }
}

/// One line of the help: the keys and what they do.
pub struct Binding {
    pub keys: &'static str,
    pub desc: &'static str,
}

/// The lines of the help, in order, as plain text.
pub open spec fn help_lines() -> Seq<(Seq<char>, Seq<char>)> {
    seq![
        ("j/k, ↓/↑"@, "move through the list"@),
        ("Enter / u"@, "update the selected folder"@),
        ("U"@, "update everything"@),
        ("a"@, "add a folder to track"@),
        ("d"@, "stop tracking the selected folder"@),
        ("(sudo popup)"@, "if a script asks for sudo: type the password, Enter confirms"@),
        ("q / Ctrl-C"@, "quit"@),
        ("?"@, "toggle help"@),
        ("Esc"@, "close help / cancel the add"@),
    ]
}

/// The number of lines of the help.
pub const HELP_LEN: usize = 9;

/// The lines of the help.
pub fn help() -> (h: Vec<Binding>)
    ensures
        h@.len() == help_lines().len(),
        h@.len() == HELP_LEN,
        forall|i: int|
            0 <= i < h@.len() ==> (#[trigger] h@[i]).keys@ == help_lines()[i].0 && h@[i].desc@
                == help_lines()[i].1,
{
    let mut h: Vec<Binding> = Vec::new();
    h.push(Binding { keys: "j/k, ↓/↑", desc: "move through the list" });
    h.push(Binding { keys: "Enter / u", desc: "update the selected folder" });
    h.push(Binding { keys: "U", desc: "update everything" });
    h.push(Binding { keys: "a", desc: "add a folder to track" });
    h.push(Binding { keys: "d", desc: "stop tracking the selected folder" });
    h.push(
        Binding {
            keys: "(sudo popup)",
            desc: "if a script asks for sudo: type the password, Enter confirms",
        },
    );
    h.push(Binding { keys: "q / Ctrl-C", desc: "quit" });
    h.push(Binding { keys: "?", desc: "toggle help" });
    h.push(Binding { keys: "Esc", desc: "close help / cancel the add" });
    h
}

} // verus!
