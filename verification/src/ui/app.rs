//! The application state and its decisions. The program around it feeds it
//! key presses, the output of running scripts and the outcome of the work it
//! asks for; each decision returns the one piece of outside work to do next
//! (start a script, write a password, stop a script, save the tracked
//! folders, look into a folder).
use vstd::prelude::*;
use vstd::string::*;

use crate::install::discover::{join_path, texts};
use crate::install::store::{dedup, lemma_dedup_is_a_set, unique_folders};
use crate::install::target::{message_views, InstallTarget, TargetView, UpdateMessage};
use crate::install::tracking::{
    after_cancel, after_launch, after_password, after_pump, fresh, keep_last, tracked_wf,
    TrackedTarget, TrackedView, MAX_LOG_LINES,
};
use crate::text::{
    joined, joined3, decimal, decimal_string, drop_last_char, pop_char, push_char, starts_with,
    trim, trim_str,
};
use crate::ui::keys::{key_action, Action, Key, KeyInput, KeyMap};

verus! {

/// How long a message stays in the status bar, in milliseconds.
pub const TOAST_TTL_MS: u64 = 4000;

/// The outside work a decision asks for.
#[derive(Debug, PartialEq, Eq)]
pub enum Command {
    /// Nothing to do.
    Nothing,
    /// Start the update script of this target, then report with `launch_result`.
    Launch(usize),
    /// Start the update scripts of these targets, then report the ones that
    /// started with `launch_each_result`.
    LaunchEach(Vec<usize>),
    /// Write this password to the running script of this target.
    SendPassword(usize, String),
    /// Stop the running script of this target.
    Stop(usize),
    /// Save these folders as the tracked ones.
    Persist(Vec<String>),
    /// The target at this index was dropped: forget its run, then save these
    /// folders as the tracked ones.
    Untrack(usize, Vec<String>),
    /// Look for targets in this folder, then report with `discovered`.
    Discover(String),
}

/// A command as plain values.
pub enum CommandView {
    Nothing,
    Launch(usize),
    LaunchEach(Seq<usize>),
    SendPassword(usize, Seq<char>),
    Stop(usize),
    Persist(Seq<Seq<char>>),
    Untrack(usize, Seq<Seq<char>>),
    Discover(Seq<char>),
}

impl View for Command {
    type V = CommandView;

    open spec fn view(&self) -> CommandView {
        match self {
            Command::Nothing => CommandView::Nothing,
            Command::Launch(i) => CommandView::Launch(*i),
            Command::LaunchEach(v) => CommandView::LaunchEach(v@),
            Command::SendPassword(i, p) => CommandView::SendPassword(*i, p@),
            Command::Stop(i) => CommandView::Stop(*i),
            Command::Persist(f) => CommandView::Persist(texts(f@)),
            Command::Untrack(i, f) => CommandView::Untrack(*i, texts(f@)),
            Command::Discover(p) => CommandView::Discover(p@),
        }
    }
}

/// The password being typed for a target.
struct PasswordEntry {
    target: usize,
    input: String,
}

/// A message of the status bar and the time it was shown.
struct Toast {
    message: String,
    shown_at: u64,
}

/// The application state as plain values.
#[verifier::ext_equal]
pub struct AppView {
    /// The tracked targets, in order.
    pub targets: Seq<TrackedView>,
    /// The selected target.
    pub cursor: usize,
    /// The folder path being typed, while the add prompt is open.
    pub add_input: Option<Seq<char>>,
    /// The target whose password is being typed, and what is typed so far.
    pub prompt: Option<(usize, Seq<char>)>,
    /// The password given during this session, reused for first requests.
    pub sudo: Option<Seq<char>>,
    /// The help is shown.
    pub show_help: bool,
    /// The status bar message and when it was shown (milliseconds).
    pub toast: Option<(Seq<char>, u64)>,
    /// The user asked to quit.
    pub quit: bool,
    /// The user's home folder, for paths typed with `~`.
    pub home: Option<Seq<char>>,
}

/// The application state.
pub struct App {
    targets: Vec<TrackedTarget>,
    cursor: usize,
    add_input: Option<String>,
    password_prompt: Option<PasswordEntry>,
    sudo_password: Option<String>,
    show_help: bool,
    toast: Option<Toast>,
    quit: bool,
    home: Option<String>,
}

/// The views of a sequence of tracked targets.
pub open spec fn target_views(v: Seq<TrackedTarget>) -> Seq<TrackedView> {
    v.map_values(|t: TrackedTarget| t@)
}

impl View for App {
    type V = AppView;

    closed spec fn view(&self) -> AppView {
        AppView {
            targets: target_views(self.targets@),
            cursor: self.cursor,
            add_input: match self.add_input {
                Some(s) => Some(s@),
                None => None,
            },
            prompt: match self.password_prompt {
                Some(e) => Some((e.target, e.input@)),
                None => None,
            },
            sudo: match self.sudo_password {
                Some(s) => Some(s@),
                None => None,
            },
            show_help: self.show_help,
            toast: match self.toast {
                Some(t) => Some((t.message@, t.shown_at)),
                None => None,
            },
            quit: self.quit,
            home: match self.home {
                Some(h) => Some(h@),
                None => None,
            },
        }
    }
}

/// A well-formed state: the cursor is on a target (or at 0 when there is
/// none) and every target keeps its output within bounds.
pub open spec fn app_wf(a: AppView) -> bool {
    &&& (a.cursor == 0 || a.cursor < a.targets.len())
    &&& forall|i: int| 0 <= i < a.targets.len() ==> tracked_wf(#[trigger] a.targets[i])
}

/// No target's password count is at its limit, so one more can be counted.
pub open spec fn sends_in_range(a: AppView) -> bool {
    forall|i: int| 0 <= i < a.targets.len() ==> (#[trigger] a.targets[i]).sends < u32::MAX
}

/// The folders to save: those of the targets, each once, in order.
pub open spec fn folders_of(ts: Seq<TrackedView>) -> Seq<Seq<char>> {
    dedup(target_folders(ts))
}

/// The folders of a sequence of tracked targets, in order.
pub open spec fn target_folders(ts: Seq<TrackedView>) -> Seq<Seq<char>> {
    ts.map_values(|t: TrackedView| t.target.folder)
}

/// The state with a new status bar message shown at `now`.
pub open spec fn toasted(a: AppView, msg: Seq<char>, now: u64) -> AppView {
    AppView { toast: Some((msg, now)), ..a }
}

/// The indices of the targets that are not updating, in order.
pub open spec fn idle_indices(ts: Seq<TrackedView>) -> Seq<usize>
    decreases ts.len(),
{
    if ts.len() == 0 {
        Seq::empty()
    } else {
        let p = idle_indices(ts.drop_last());
        if ts.last().state is Updating {
            p
        } else {
            p.push((ts.len() - 1) as usize)
        }
    }
}

/// A typed path with a leading `~` expanded to the home folder: `~/rest`
/// becomes the home folder joined with `rest`, and `~` the home folder. Without
/// a home folder, or without a leading `~`, the path is kept.
pub open spec fn expand_home(raw: Seq<char>, home: Option<Seq<char>>) -> Seq<char> {
    match home {
        Some(h) => if starts_with(raw, "~/"@) {
            join_path(h, raw.skip(2))
        } else if raw == "~"@ {
            h
        } else {
            raw
        },
        None => raw,
    }
}

/// Selecting the previous target.
pub open spec fn cursor_up(a: AppView) -> usize {
    if a.cursor > 0 {
        (a.cursor - 1) as usize
    } else {
        a.cursor
    }
}

/// Selecting the next target.
pub open spec fn cursor_down(a: AppView) -> usize {
    if a.cursor + 1 < a.targets.len() {
        (a.cursor + 1) as usize
    } else {
        a.cursor
    }
}

/// Updating the selected target: refused with a message while it runs.
pub open spec fn update_step(a: AppView, now: u64) -> (AppView, CommandView) {
    if a.cursor >= a.targets.len() {
        (a, CommandView::Nothing)
    } else if a.targets[a.cursor as int].state is Updating {
        (toasted(a, "update already running"@, now), CommandView::Nothing)
    } else {
        (a, CommandView::Launch(a.cursor))
    }
}

/// The cursor after the target under it was removed from `ts` (the targets
/// left).
pub open spec fn cursor_after_remove(cursor: usize, ts: Seq<TrackedView>) -> usize {
    if cursor >= ts.len() {
        if ts.len() > 0 {
            (ts.len() - 1) as usize
        } else {
            0
        }
    } else {
        cursor
    }
}

/// Dropping the selected target: it is no longer tracked, and the folders
/// left are saved.
pub open spec fn remove_step(a: AppView, now: u64) -> (AppView, CommandView) {
    if a.cursor >= a.targets.len() {
        (a, CommandView::Nothing)
    } else {
        let ts = a.targets.remove(a.cursor as int);
        let name = a.targets[a.cursor as int].target.name;
        (
            toasted(
                AppView { targets: ts, cursor: cursor_after_remove(a.cursor, ts), ..a },
                name + " no longer tracked"@,
                now,
            ),
            CommandView::Untrack(a.cursor, folders_of(ts)),
        )
    }
}

/// What an action of the main screen does.
pub open spec fn action_step(a: AppView, act: Action, now: u64) -> (AppView, CommandView) {
    match act {
        Action::Quit => (AppView { quit: true, ..a }, CommandView::Nothing),
        Action::Help => (AppView { show_help: !a.show_help, ..a }, CommandView::Nothing),
        Action::CloseOverlay => (AppView { show_help: false, ..a }, CommandView::Nothing),
        Action::Up => (AppView { cursor: cursor_up(a), ..a }, CommandView::Nothing),
        Action::Down => (AppView { cursor: cursor_down(a), ..a }, CommandView::Nothing),
        Action::Update => update_step(a, now),
        Action::UpdateAll => (a, CommandView::LaunchEach(idle_indices(a.targets))),
        Action::Add => (AppView { add_input: Some(Seq::empty()), ..a }, CommandView::Nothing),
        Action::Remove => remove_step(a, now),
    }
}

/// What a key does while a password is typed for target `i`.
pub open spec fn password_key_step(a: AppView, i: usize, input: Seq<char>, key: Key, now: u64) -> (
    AppView,
    CommandView,
) {
    match key {
        Key::Esc => {
            let a1 = AppView { prompt: None, ..a };
            if i < a.targets.len() {
                let t = a.targets[i as int];
                (
                    toasted(
                        AppView { targets: a.targets.update(i as int, after_cancel(t)), ..a1 },
                        "password prompt cancelled"@,
                        now,
                    ),
                    if t.state is Updating {
                        CommandView::Stop(i)
                    } else {
                        CommandView::Nothing
                    },
                )
            } else {
                (toasted(a1, "password prompt cancelled"@, now), CommandView::Nothing)
            }
        },
        Key::Enter => {
            let a1 = AppView { prompt: None, sudo: Some(input), ..a };
            if i < a.targets.len() {
                let t = a.targets[i as int];
                (
                    AppView { targets: a.targets.update(i as int, after_password(t)), ..a1 },
                    if t.state is Updating {
                        CommandView::SendPassword(i, input)
                    } else {
                        CommandView::Nothing
                    },
                )
            } else {
                (a1, CommandView::Nothing)
            }
        },
        Key::Backspace => (
            AppView { prompt: Some((i, drop_last_char(input))), ..a },
            CommandView::Nothing,
        ),
        Key::Char(c) => (AppView { prompt: Some((i, input.push(c))), ..a }, CommandView::Nothing),
        _ => (a, CommandView::Nothing),
    }
}

/// What a key does while a folder path is typed.
pub open spec fn add_key_step(a: AppView, input: Seq<char>, key: Key) -> (AppView, CommandView) {
    match key {
        Key::Esc => (AppView { add_input: None, ..a }, CommandView::Nothing),
        Key::Enter => {
            let a1 = AppView { add_input: None, ..a };
            let raw = trim(input);
            if raw.len() == 0 {
                (a1, CommandView::Nothing)
            } else {
                (a1, CommandView::Discover(expand_home(raw, a.home)))
            }
        },
        Key::Backspace => (AppView { add_input: Some(drop_last_char(input)), ..a }, CommandView::Nothing),
        Key::Char(c) => (AppView { add_input: Some(input.push(c)), ..a }, CommandView::Nothing),
        _ => (a, CommandView::Nothing),
    }
}

/// What a key event does: releases are ignored; the password prompt, then
/// the add prompt, take the keys while open; otherwise the key's action.
pub open spec fn key_step(a: AppView, key: KeyInput, now: u64) -> (AppView, CommandView) {
    if key.release {
        (a, CommandView::Nothing)
    } else {
        match a.prompt {
            Some((i, input)) => password_key_step(a, i, input, key.code, now),
            None => match a.add_input {
                Some(input) => add_key_step(a, input, key.code),
                None => match key_action(key) {
                    Some(act) => action_step(a, act, now),
                    None => (a, CommandView::Nothing),
                },
            },
        }
    }
}

/// The index of the first target awaiting a password, or -1.
pub open spec fn first_awaiting(ts: Seq<TrackedView>) -> int
    decreases ts.len(),
{
    if ts.len() == 0 {
        -1
    } else {
        let f = first_awaiting(ts.drop_last());
        if f >= 0 {
            f
        } else if ts.last().awaiting is Some {
            ts.len() - 1
        } else {
            -1
        }
    }
}

/// Answering password requests: unless a password is being typed, the first
/// target awaiting one gets the session's password when it asks for the
/// first time and one was given; otherwise the password prompt opens for it.
pub open spec fn requests_step(a: AppView) -> (AppView, CommandView) {
    let i = first_awaiting(a.targets);
    if a.prompt is Some || i < 0 {
        (a, CommandView::Nothing)
    } else {
        let t = a.targets[i];
        if t.sends == 0 && a.sudo is Some {
            (
                AppView { targets: a.targets.update(i, after_password(t)), ..a },
                if t.state is Updating {
                    CommandView::SendPassword(i as usize, a.sudo->0)
                } else {
                    CommandView::Nothing
                },
            )
        } else {
            (AppView { prompt: Some((i as usize, Seq::empty())), ..a }, CommandView::Nothing)
        }
    }
}

/// The outcome of starting the script of target `i`: the target is updating,
/// or a message says why it could not start.
pub open spec fn launch_result_step(
    a: AppView,
    i: usize,
    outcome: Result<(), Seq<char>>,
    now: u64,
) -> AppView {
    if i >= a.targets.len() {
        a
    } else {
        match outcome {
            Ok(_) => AppView {
                targets: a.targets.update(i as int, after_launch(a.targets[i as int])),
                ..a
            },
            Err(why) => toasted(
                a,
                "cannot launch "@ + a.targets[i as int].target.name + ": "@ + why,
                now,
            ),
        }
    }
}

/// Marks as started the targets of `started` that were not running; the
/// targets and how many were marked.
pub open spec fn launch_fold(ts: Seq<TrackedView>, started: Seq<usize>) -> (Seq<TrackedView>, nat)
    decreases started.len(),
{
    if started.len() == 0 {
        (ts, 0)
    } else {
        let (t1, n) = launch_fold(ts, started.drop_last());
        let i = started.last();
        if i < t1.len() && !(t1[i as int].state is Updating) {
            (t1.update(i as int, after_launch(t1[i as int])), n + 1)
        } else {
            (t1, n)
        }
    }
}

/// The outcome of starting every idle target: the ones that started are
/// updating, and a message counts them.
pub open spec fn launch_each_step(a: AppView, started: Seq<usize>, now: u64) -> AppView {
    let (ts, n) = launch_fold(a.targets, started);
    toasted(AppView { targets: ts, ..a }, decimal(n) + " update(s) launched"@, now)
}

/// The scripts of a sequence of tracked targets.
pub open spec fn scripts_of(ts: Seq<TrackedView>) -> Seq<Seq<char>> {
    ts.map_values(|t: TrackedView| t.target.script)
}

/// Adds the targets whose script is not tracked yet; the targets, how many
/// were added and the name of the last one added.
pub open spec fn track_fold(ts: Seq<TrackedView>, news: Seq<TargetView>) -> (
    Seq<TrackedView>,
    nat,
    Seq<char>,
)
    decreases news.len(),
{
    if news.len() == 0 {
        (ts, 0, Seq::empty())
    } else {
        let (t1, n, last) = track_fold(ts, news.drop_last());
        let x = news.last();
        if scripts_of(t1).contains(x.script) {
            (t1, n, last)
        } else {
            (t1.push(fresh(x)), n + 1, x.name)
        }
    }
}

/// The outcome of looking into a folder: its new targets are tracked and
/// selected and the folders saved, or a message says nothing was added.
pub open spec fn discovered_step(
    a: AppView,
    outcome: Result<Seq<TargetView>, Seq<char>>,
    now: u64,
) -> (AppView, CommandView) {
    match outcome {
        Err(why) => (toasted(a, "cannot add: "@ + why, now), CommandView::Nothing),
        Ok(news) => {
            let (ts, n, last) = track_fold(a.targets, news);
            if n == 0 {
                (toasted(a, "already tracked"@, now), CommandView::Nothing)
            } else {
                (
                    toasted(
                        AppView { targets: ts, cursor: (ts.len() - 1) as usize, ..a },
                        if n == 1 {
                            last + " now tracked"@
                        } else {
                            decimal(n) + " targets now tracked"@
                        },
                        now,
                    ),
                    CommandView::Persist(folders_of(ts)),
                )
            }
        },
    }
}

/// Adds the targets of each remembered folder that was found; the targets
/// and the number of folders that were not.
pub open spec fn load_fold(ts: Seq<TrackedView>, found: Seq<Option<Seq<TargetView>>>) -> (
    Seq<TrackedView>,
    nat,
)
    decreases found.len(),
{
    if found.len() == 0 {
        (ts, 0)
    } else {
        let (t1, broken) = load_fold(ts, found.drop_last());
        match found.last() {
            Some(news) => (t1 + fresh_all(news), broken),
            None => (t1, broken + 1),
        }
    }
}

/// Freshly tracked targets for a sequence of install targets.
pub open spec fn fresh_all(news: Seq<TargetView>) -> Seq<TrackedView> {
    news.map_values(|x: TargetView| fresh(x))
}

/// Loading the remembered folders: the targets of those found are tracked;
/// when some were not found, the folders are saved again without them and a
/// message counts them.
pub open spec fn load_step(a: AppView, found: Seq<Option<Seq<TargetView>>>, now: u64) -> (
    AppView,
    CommandView,
) {
    let (ts, broken) = load_fold(a.targets, found);
    let a1 = AppView { targets: ts, ..a };
    if broken > 0 {
        (
            toasted(a1, decimal(broken) + " missing folder(s) dropped"@, now),
            CommandView::Persist(folders_of(ts)),
        )
    } else {
        (a1, CommandView::Nothing)
    }
}

/// The time elapsed since `at`, none when `now` is earlier.
pub open spec fn elapsed(now: u64, at: u64) -> nat {
    if now >= at {
        (now - at) as nat
    } else {
        0
    }
}

/// The views of a sequence of install targets.
pub open spec fn install_views(v: Seq<InstallTarget>) -> Seq<TargetView> {
    v.map_values(|t: InstallTarget| t@)
}

/// An outcome as plain values.
pub open spec fn outcome_view(r: Result<(), String>) -> Result<(), Seq<char>> {
    match r {
        Ok(_) => Ok(()),
        Err(why) => Err(why@),
    }
}

/// A discovery outcome as plain values.
pub open spec fn discovery_view(r: Result<Vec<InstallTarget>, String>) -> Result<Seq<TargetView>, Seq<char>> {
    match r {
        Ok(ts) => Ok(install_views(ts@)),
        Err(why) => Err(why@),
    }
}

/// The loaded folders as plain values.
pub open spec fn found_views(v: Seq<Option<Vec<InstallTarget>>>) -> Seq<Option<Seq<TargetView>>> {
    v.map_values(
        |o: Option<Vec<InstallTarget>>|
            match o {
                Some(ts) => Some(install_views(ts@)),
                None => None,
            },
    )
}

/// Adding nothing leaves the targets as they were.
pub proof fn lemma_track_fold_nothing_added(ts: Seq<TrackedView>, news: Seq<TargetView>)
    ensures
        track_fold(ts, news).1 == 0 ==> track_fold(ts, news).0 == ts,
        track_fold(ts, news).0.len() == ts.len() + track_fold(ts, news).1,
    decreases news.len(),
{
    if news.len() > 0 {
        lemma_track_fold_nothing_added(ts, news.drop_last());
    }
}

/// The first awaiting target of a sequence is found in the first prefix
/// that holds one.
pub proof fn lemma_first_awaiting_prefix(s: Seq<TrackedView>, k: int)
    requires
        0 <= k <= s.len(),
        first_awaiting(s.take(k)) >= 0,
    ensures
        first_awaiting(s) == first_awaiting(s.take(k)),
    decreases s.len() - k,
{
    if k == s.len() {
        assert(s.take(k) =~= s);
    } else {
        assert(s.take(k + 1).drop_last() =~= s.take(k));
        lemma_first_awaiting_prefix(s, k + 1);
    }
}

/// The status bar message still shown at `now`.
pub open spec fn visible_toast_at(a: AppView, now: u64) -> Option<Seq<char>> {
    match a.toast {
        Some((m, at)) => if elapsed(now, at) < TOAST_TTL_MS {
            Some(m)
        } else {
            None
        },
        None => None,
    }
}

/// Dropping the status bar message once its time is over.
pub open spec fn expire_step(a: AppView, now: u64) -> AppView {
    match a.toast {
        Some((m, at)) => if elapsed(now, at) >= TOAST_TTL_MS {
            AppView { toast: None, ..a }
        } else {
            a
        },
        None => a,
    }
}

/// A freshly tracked target is well formed, and so is a well-formed target
/// after any of its transitions.
pub proof fn lemma_transitions_keep_target_wf(t: TrackedView, x: TargetView)
    ensures
        tracked_wf(fresh(x)),
        tracked_wf(t) ==> tracked_wf(after_launch(t)),
        tracked_wf(t) ==> tracked_wf(after_password(t)),
        tracked_wf(t) ==> tracked_wf(after_cancel(t)),
        forall|b, d| tracked_wf(t) ==> #[trigger] tracked_wf(after_pump(t, b, d)),
{
    assert forall|b, d| tracked_wf(t) implies #[trigger] tracked_wf(after_pump(t, b, d)) by {
        let l = t.logs + crate::install::tracking::batch_lines(b);
        assert(keep_last(l, MAX_LOG_LINES as nat).len() <= MAX_LOG_LINES);
    }
}

/// Adding the targets found in a folder never tracks a script twice: when
/// no script was tracked twice before, none is after; every script found is
/// tracked afterwards; and the targets tracked before stay, in order, first.
pub proof fn law_adding_never_tracks_a_script_twice(ts: Seq<TrackedView>, news: Seq<TargetView>)
    requires
        scripts_of(ts).no_duplicates(),
    ensures
        scripts_of(track_fold(ts, news).0).no_duplicates(),
        forall|i: int|
            0 <= i < news.len() ==> scripts_of(track_fold(ts, news).0).contains(
                #[trigger] news[i].script,
            ),
        track_fold(ts, news).0.len() >= ts.len(),
        track_fold(ts, news).0.take(ts.len() as int) == ts,
    decreases news.len(),
{
    if news.len() == 0 {
        assert(ts.take(ts.len() as int) =~= ts);
    } else {
        let prev = news.drop_last();
        law_adding_never_tracks_a_script_twice(ts, prev);
        let (t1, n, last) = track_fold(ts, prev);
        let x = news.last();
        let s1 = scripts_of(t1);
        if !s1.contains(x.script) {
            let t2 = t1.push(fresh(x));
            let s2 = scripts_of(t2);
            assert(s2 =~= s1.push(x.script));
            assert forall|a: int, b: int| 0 <= a < s2.len() && 0 <= b < s2.len() && a != b implies s2[a]
                != s2[b] by {
                if a < s1.len() && b < s1.len() {
                    assert(s2[a] == s1[a] && s2[b] == s1[b]);
                } else if a < s1.len() {
                    assert(s1.contains(s1[a]));
                } else if b < s1.len() {
                    assert(s1.contains(s1[b]));
                }
            }
            assert forall|i: int| 0 <= i < news.len() implies s2.contains(#[trigger] news[i].script) by {
                if i < prev.len() {
                    assert(prev[i] == news[i]);
                    assert(s1.contains(prev[i].script));
                    let k = choose|k: int| 0 <= k < s1.len() && s1[k] == prev[i].script;
                    assert(s2[k] == s1[k]);
                } else {
                    assert(s2[s1.len() as int] == x.script);
                }
            }
            assert(t2.take(ts.len() as int) =~= t1.take(ts.len() as int));
        } else {
            assert forall|i: int| 0 <= i < news.len() implies s1.contains(#[trigger] news[i].script) by {
                if i < prev.len() {
                    assert(prev[i] == news[i]);
                }
            }
        }
    }
}

/// The folders saved are the folders of the tracked targets, each once.
pub proof fn law_saved_folders_are_the_tracked_folders(ts: Seq<TrackedView>)
    ensures
        folders_of(ts).no_duplicates(),
        forall|f: Seq<char>|
            folders_of(ts).contains(f) <==> exists|i: int|
                0 <= i < ts.len() && (#[trigger] ts[i]).target.folder == f,
{
    lemma_dedup_is_a_set(target_folders(ts));
    assert forall|f: Seq<char>|
        folders_of(ts).contains(f) <==> exists|i: int|
            0 <= i < ts.len() && (#[trigger] ts[i]).target.folder == f by {
        assert(target_folders(ts).len() == ts.len());
        if folders_of(ts).contains(f) {
            assert(target_folders(ts).contains(f));
            let i = choose|i: int| 0 <= i < target_folders(ts).len() && target_folders(ts)[i] == f;
            assert(target_folders(ts)[i] == ts[i].target.folder);
            assert(ts[i].target.folder == f);
        }
        if exists|i: int| 0 <= i < ts.len() && (#[trigger] ts[i]).target.folder == f {
            let i = choose|i: int| 0 <= i < ts.len() && (#[trigger] ts[i]).target.folder == f;
            assert(target_folders(ts)[i] == f);
            assert(target_folders(ts).contains(f));
        }
    }
}

/// Updating everything asks for each target that is not running, once each,
/// in list order, and for no other.
pub proof fn law_update_all_asks_for_each_idle_target(ts: Seq<TrackedView>)
    requires
        ts.len() <= usize::MAX,
    ensures
        forall|a: int, b: int|
            0 <= a < b < idle_indices(ts).len() ==> idle_indices(ts)[a] < idle_indices(ts)[b],
        forall|a: int| 0 <= a < idle_indices(ts).len() ==> idle_indices(ts)[a] < ts.len(),
        forall|k: int|
            0 <= k < ts.len() ==> ((exists|j: int|
                0 <= j < idle_indices(ts).len() && idle_indices(ts)[j] == k) <==> (
            #[trigger] ts[k]).state !is Updating),
    decreases ts.len(),
{
    if ts.len() > 0 {
        let prev = ts.drop_last();
        law_update_all_asks_for_each_idle_target(prev);
        let p = idle_indices(prev);
        let q = idle_indices(ts);
        let last = ts.len() - 1;
        if ts.last().state !is Updating {
            assert(q == p.push(last as usize));
            assert(q[p.len() as int] == last);
        } else {
            assert(q == p);
        }
        assert forall|a: int, b: int| 0 <= a < b < q.len() implies q[a] < q[b] by {
            if b < p.len() {
                assert(q[a] == p[a] && q[b] == p[b]);
            } else {
                assert(q[a] == p[a]);
            }
        }
        assert forall|a: int| 0 <= a < q.len() implies q[a] < ts.len() by {
            if a < p.len() {
                assert(q[a] == p[a]);
            }
        }
        assert forall|k: int| 0 <= k < ts.len() implies ((exists|j: int|
            0 <= j < q.len() && q[j] == k) <==> (#[trigger] ts[k]).state !is Updating) by {
            if k < prev.len() {
                assert(prev[k] == ts[k]);
                if exists|j: int| 0 <= j < q.len() && q[j] == k {
                    let j = choose|j: int| 0 <= j < q.len() && q[j] == k;
                    if j >= p.len() {
                        assert(q[j] == last);
                    } else {
                        assert(p[j] == q[j]);
                    }
                }
                if exists|j: int| 0 <= j < p.len() && p[j] == k {
                    let j = choose|j: int| 0 <= j < p.len() && p[j] == k;
                    assert(q[j] == p[j]);
                }
            } else {
                assert(k == last);
                if exists|j: int| 0 <= j < q.len() && q[j] == k {
                    let j = choose|j: int| 0 <= j < q.len() && q[j] == k;
                    if j < p.len() {
                        assert(p[j] < prev.len());
                    }
                }
            }
        }
    }
}

/// The session's password is handed over without asking only to a target
/// asking for the first time, and only when nothing else is being typed.
pub proof fn law_session_password_only_answers_first_requests(a: AppView)
    requires
        a.targets.len() <= usize::MAX,
    ensures
        requests_step(a).1 matches CommandView::SendPassword(i, p) ==> {
            &&& a.prompt is None
            &&& i < a.targets.len()
            &&& a.targets[i as int].sends == 0
            &&& a.targets[i as int].awaiting is Some
            &&& a.sudo == Some(p)
        },
{
    let i = first_awaiting(a.targets);
    if i >= 0 {
        lemma_first_awaiting_is_awaiting(a.targets);
    }
}

/// Moving down the list selects the very next target when there is one,
/// and otherwise stays; moving up selects the very previous one when there
/// is one, and otherwise stays. Nothing else changes, and no outside work is
/// asked for. The keys `j` and `k` on the main screen do the same.
pub proof fn law_moves_go_one_step(a: AppView, now: u64)
    ensures
        action_step(a, Action::Down, now).1 is Nothing,
        action_step(a, Action::Up, now).1 is Nothing,
        a.cursor + 1 < a.targets.len() ==> action_step(a, Action::Down, now).0 == (AppView {
            cursor: (a.cursor + 1) as usize,
            ..a
        }),
        a.cursor + 1 >= a.targets.len() ==> action_step(a, Action::Down, now).0 == a,
        a.cursor > 0 ==> action_step(a, Action::Up, now).0 == (AppView {
            cursor: (a.cursor - 1) as usize,
            ..a
        }),
        a.cursor == 0 ==> action_step(a, Action::Up, now).0 == a,
        a.prompt is None && a.add_input is None ==> {
            &&& key_step(a, KeyInput { code: Key::Char('j'), ctrl: false, release: false }, now)
                == action_step(a, Action::Down, now)
            &&& key_step(a, KeyInput { code: Key::Char('k'), ctrl: false, release: false }, now)
                == action_step(a, Action::Up, now)
        },
{
    assert(a.cursor + 1 >= a.targets.len() ==> (AppView { cursor: a.cursor, ..a }) =~= a);
    assert(a.cursor == 0 ==> (AppView { cursor: a.cursor, ..a }) =~= a);
}

/// Confirming the password popup with the text `p` makes `p` the session's
/// password, whatever was given before, closes the popup, and writes `p` to
/// the target's running script.
pub proof fn law_confirmed_password_is_the_session_password(a: AppView, now: u64)
    requires
        a.prompt is Some,
    ensures
        ({
            let (i, p) = a.prompt->0;
            let (b, cmd) = key_step(a, KeyInput { code: Key::Enter, ctrl: false, release: false }, now);
            &&& b.sudo == Some(p)
            &&& b.prompt is None
            &&& (i < a.targets.len() && a.targets[i as int].state is Updating) ==> cmd
                == CommandView::SendPassword(i, p)
        }),
{
}

/// Updating the selected target asks to start its script when it is not
/// running, and otherwise only says that it is; with no target selected
/// nothing happens.
pub proof fn law_update_starts_the_selected_target(a: AppView, now: u64)
    ensures
        ({
            let (b, cmd) = action_step(a, Action::Update, now);
            if a.cursor >= a.targets.len() {
                b == a && cmd is Nothing
            } else if a.targets[a.cursor as int].state is Updating {
                &&& b == (AppView { toast: Some(("update already running"@, now)), ..a })
                &&& cmd is Nothing
            } else {
                b == a && cmd == CommandView::Launch(a.cursor)
            }
        }),
{
}

/// Removing drops exactly the selected target, keeps the others in order,
/// keeps the cursor on the same place (or on the new last target), and asks
/// to forget that target's run and save the folders of the targets left.
pub proof fn law_remove_drops_the_selected_target(a: AppView, now: u64)
    requires
        a.cursor < a.targets.len(),
    ensures
        ({
            let (b, cmd) = action_step(a, Action::Remove, now);
            let c = a.cursor as int;
            &&& b.targets.len() == a.targets.len() - 1
            &&& forall|j: int| 0 <= j < c ==> #[trigger] b.targets[j] == a.targets[j]
            &&& forall|j: int| c <= j < b.targets.len() ==> #[trigger] b.targets[j] == a.targets[j + 1]
            &&& b.cursor == if c < b.targets.len() {
                c
            } else if b.targets.len() > 0 {
                b.targets.len() - 1
            } else {
                0
            }
            &&& b.toast == Some((a.targets[c].target.name + " no longer tracked"@, now))
            &&& cmd == CommandView::Untrack(a.cursor, folders_of(b.targets))
            &&& b == (AppView { targets: b.targets, cursor: b.cursor, toast: b.toast, ..a })
        }),
{
    let (b, cmd) = action_step(a, Action::Remove, now);
    assert(b =~= (AppView { targets: b.targets, cursor: b.cursor, toast: b.toast, ..a }));
}

/// In the password popup, typing adds the character to the typed text,
/// Backspace removes its last character, and Esc closes the popup, keeps
/// the session's password, stops waiting for the target's password and
/// stops its running script.
pub proof fn law_password_popup_keys(a: AppView, c: char, now: u64)
    requires
        a.prompt is Some,
    ensures
        ({
            let (i, p) = a.prompt->0;
            let key = |k: Key| KeyInput { code: k, ctrl: false, release: false };
            &&& key_step(a, key(Key::Char(c)), now) == (
                AppView { prompt: Some((i, p.push(c))), ..a },
                CommandView::Nothing,
            )
            &&& key_step(a, key(Key::Backspace), now).0.prompt == Some((
                i,
                if p.len() > 0 {
                    p.drop_last()
                } else {
                    p
                },
            ))
            &&& key_step(a, key(Key::Esc), now).0.prompt is None
            &&& key_step(a, key(Key::Esc), now).0.sudo == a.sudo
            &&& i < a.targets.len() ==> {
                &&& key_step(a, key(Key::Esc), now).0.targets[i as int].awaiting is None
                &&& a.targets[i as int].state is Updating ==> key_step(a, key(Key::Esc), now).1
                    == CommandView::Stop(i)
            }
        }),
{
}

/// In the add prompt, Enter closes it and, when the typed path is not blank,
/// asks to look into that path, trimmed and with a leading `~` expanded.
pub proof fn law_add_prompt_enter(a: AppView, now: u64)
    requires
        a.prompt is None,
        a.add_input is Some,
    ensures
        ({
            let (b, cmd) = key_step(a, KeyInput { code: Key::Enter, ctrl: false, release: false }, now);
            let raw = trim(a.add_input->0);
            &&& b == (AppView { add_input: None, ..a })
            &&& raw.len() == 0 ==> cmd is Nothing
            &&& raw.len() > 0 ==> cmd == CommandView::Discover(expand_home(raw, a.home))
        }),
{
}

/// Loading remembered folders keeps the targets already there first and
/// counts exactly the folders that were not found.
pub proof fn law_load_tracks_found_folders(ts: Seq<TrackedView>, found: Seq<Option<Seq<TargetView>>>)
    ensures
        load_fold(ts, found).0.len() >= ts.len(),
        load_fold(ts, found).0.take(ts.len() as int) == ts,
        load_fold(ts, found).1 == found.filter(|o: Option<Seq<TargetView>>| o is None).len(),
    decreases found.len(),
{
    if found.len() == 0 {
        assert(ts.take(ts.len() as int) =~= ts);
    } else {
        let init = found.drop_last();
        law_load_tracks_found_folders(ts, init);
        assert(found =~= init.push(found.last()));
        init.lemma_filter_push(found.last(), |o: Option<Seq<TargetView>>| o is None);
        let (t1, b1) = load_fold(ts, init);
        if let Some(news) = found.last() {
            assert((t1 + fresh_all(news)).take(ts.len() as int) =~= t1.take(ts.len() as int));
        }
    }
}

/// Every target of every folder found at loading is tracked.
pub proof fn law_load_tracks_every_found_target(
    ts: Seq<TrackedView>,
    found: Seq<Option<Seq<TargetView>>>,
    j: int,
    k: int,
)
    requires
        0 <= j < found.len(),
        found[j] is Some,
        0 <= k < found[j]->0.len(),
    ensures
        load_fold(ts, found).0.contains(fresh(found[j]->0[k])),
    decreases found.len(),
{
    let init = found.drop_last();
    let (t1, b1) = load_fold(ts, init);
    let x = fresh(found[j]->0[k]);
    if j < init.len() {
        assert(init[j] == found[j]);
        law_load_tracks_every_found_target(ts, init, j, k);
        let p = choose|p: int| 0 <= p < t1.len() && t1[p] == x;
        if let Some(news) = found.last() {
            assert((t1 + fresh_all(news))[p] == x);
        }
    } else {
        let news = found[j]->0;
        assert(found.last() == found[j]);
        assert((t1 + fresh_all(news))[t1.len() + k] == x);
    }
}

/// The targets of `started` that are tracked and were not updating.
pub open spec fn newly_started(ts: Seq<TrackedView>, started: Seq<usize>) -> Set<usize> {
    Set::new(|i: usize| started.contains(i) && i < ts.len() && !(ts[i as int].state is Updating))
}

/// Marking the started targets changes exactly the newly started ones, each
/// once, and counts them.
proof fn lemma_launch_fold(ts: Seq<TrackedView>, started: Seq<usize>)
    ensures
        launch_fold(ts, started).0.len() == ts.len(),
        forall|k: usize|
            k < ts.len() ==> #[trigger] launch_fold(ts, started).0[k as int] == if newly_started(
                ts,
                started,
            ).contains(k) {
                after_launch(ts[k as int])
            } else {
                ts[k as int]
            },
        newly_started(ts, started).finite(),
        launch_fold(ts, started).1 == newly_started(ts, started).len(),
    decreases started.len(),
{
    if started.len() == 0 {
        assert(newly_started(ts, started) =~= Set::<usize>::empty());
    } else {
        let init = started.drop_last();
        let i = started.last();
        lemma_launch_fold(ts, init);
        let s0 = newly_started(ts, init);
        let s1 = newly_started(ts, started);
        let (t1, n) = launch_fold(ts, init);
        assert forall|x: usize| started.contains(x) <==> (init.contains(x) || x == i) by {
            if started.contains(x) {
                let j = choose|j: int| 0 <= j < started.len() && started[j] == x;
                if j < init.len() {
                    assert(init[j] == x);
                }
            }
            if init.contains(x) {
                let j = choose|j: int| 0 <= j < init.len() && init[j] == x;
                assert(started[j] == x);
            }
            if x == i {
                assert(started[started.len() - 1] == x);
            }
        }
        if i < ts.len() && !(ts[i as int].state is Updating) {
            assert(s1 =~= s0.insert(i));
            if s0.contains(i) {
                assert(t1[i as int] == after_launch(ts[i as int]));
                assert(s1 =~= s0);
            } else {
                assert(t1[i as int] == ts[i as int]);
                assert(!(t1[i as int].state is Updating));
                let t2 = t1.update(i as int, after_launch(t1[i as int]));
                assert forall|k: usize| k < ts.len() implies #[trigger] t2[k as int] == if s1.contains(
                    k,
                ) {
                    after_launch(ts[k as int])
                } else {
                    ts[k as int]
                } by {
                    if k != i {
                        assert(t2[k as int] == t1[k as int]);
                        assert(s1.contains(k) == s0.contains(k));
                    }
                }
            }
        } else {
            assert(s1 =~= s0);
            if i < ts.len() {
                assert(!s0.contains(i));
                assert(t1[i as int] == ts[i as int]);
            }
        }
    }
}

/// Updating everything, once the scripts are started: every listed target
/// that was not updating becomes updating with its previous output dropped,
/// every other target is left as it was, and the message counts these
/// targets, each once.
pub proof fn law_update_all_marks_each_started_target(a: AppView, started: Seq<usize>, now: u64)
    ensures
        ({
            let b = launch_each_step(a, started, now);
            let n = newly_started(a.targets, started);
            &&& n.finite()
            &&& b.targets.len() == a.targets.len()
            &&& forall|k: usize|
                k < a.targets.len() ==> if n.contains(k) {
                    &&& (#[trigger] b.targets[k as int]).state is Updating
                    &&& b.targets[k as int].target == a.targets[k as int].target
                    &&& b.targets[k as int].logs.len() == 0
                    &&& b.targets[k as int].awaiting is None
                    &&& b.targets[k as int].sends == 0
                } else {
                    b.targets[k as int] == a.targets[k as int]
                }
            &&& b.toast == Some((decimal(n.len()) + " update(s) launched"@, now))
            &&& b == (AppView { targets: b.targets, toast: b.toast, ..a })
        }),
{
    lemma_launch_fold(a.targets, started);
    let b = launch_each_step(a, started, now);
    let n = newly_started(a.targets, started);
    assert forall|k: usize| k < a.targets.len() && n.contains(k) implies (
    #[trigger] b.targets[k as int]).state is Updating by {
        assert(b.targets[k as int] == after_launch(a.targets[k as int]));
    }
    assert(b =~= (AppView { targets: b.targets, toast: b.toast, ..a }));
}

/// With no target awaiting a password, there is no first one.
proof fn lemma_none_awaiting(ts: Seq<TrackedView>)
    requires
        forall|j: int| 0 <= j < ts.len() ==> (#[trigger] ts[j]).awaiting is None,
    ensures
        first_awaiting(ts) == -1,
    decreases ts.len(),
{
    if ts.len() > 0 {
        let d = ts.drop_last();
        assert forall|j: int| 0 <= j < d.len() implies (#[trigger] d[j]).awaiting is None by {
            assert(d[j] == ts[j]);
        }
        lemma_none_awaiting(d);
        assert(ts.last() == ts[ts.len() - 1]);
    }
}

/// The first target awaiting a password is the one before which none awaits.
proof fn lemma_first_awaiting_is(ts: Seq<TrackedView>, i: int)
    requires
        0 <= i < ts.len(),
        ts[i].awaiting is Some,
        forall|j: int| 0 <= j < i ==> (#[trigger] ts[j]).awaiting is None,
    ensures
        first_awaiting(ts) == i,
{
    let p = ts.take(i);
    assert forall|j: int| 0 <= j < p.len() implies (#[trigger] p[j]).awaiting is None by {
        assert(p[j] == ts[j]);
    }
    lemma_none_awaiting(p);
    let q = ts.take(i + 1);
    assert(q.drop_last() =~= p);
    assert(q.last() == ts[i]);
    assert(first_awaiting(q) == i);
    lemma_first_awaiting_prefix(ts, i + 1);
}

/// Password requests are answered for the first target asking, in list
/// order, when no password is being typed: a first request gets the
/// session's password written to the script without asking; any other
/// request (or one before any password was given) opens the popup for that
/// target, empty. With nothing asked or a popup open, nothing happens.
pub proof fn law_requests_answer_the_first_asking_target(a: AppView, i: int)
    requires
        0 <= i < a.targets.len(),
        a.targets.len() <= usize::MAX,
        a.targets[i].awaiting is Some,
        forall|j: int| 0 <= j < i ==> (#[trigger] a.targets[j]).awaiting is None,
    ensures
        ({
            let (b, cmd) = requests_step(a);
            let t = a.targets[i];
            if a.prompt is Some {
                b == a && cmd is Nothing
            } else if t.sends == 0 && a.sudo is Some {
                &&& b.targets[i].awaiting is None
                &&& b.targets.len() == a.targets.len()
                &&& forall|j: int| 0 <= j < a.targets.len() && j != i ==> #[trigger] b.targets[j] == a.targets[j]
                &&& b.prompt is None
                &&& b.sudo == a.sudo
                &&& t.state is Updating ==> cmd == CommandView::SendPassword(i as usize, a.sudo->0)
            } else {
                &&& b == (AppView { prompt: Some((i as usize, Seq::<char>::empty())), ..a })
                &&& cmd is Nothing
            }
        }),
{
    lemma_first_awaiting_is(a.targets, i);
}

/// With no target asking for a password, answering requests does nothing.
pub proof fn law_no_request_nothing_happens(a: AppView)
    requires
        forall|j: int| 0 <= j < a.targets.len() ==> (#[trigger] a.targets[j]).awaiting is None,
    ensures
        requests_step(a).0 == a,
        requests_step(a).1 is Nothing,
{
    lemma_none_awaiting(a.targets);
}

/// The first awaiting target awaits a password, and is a target.
pub proof fn lemma_first_awaiting_is_awaiting(ts: Seq<TrackedView>)
    ensures
        first_awaiting(ts) >= 0 ==> first_awaiting(ts) < ts.len() && ts[first_awaiting(
            ts,
        )].awaiting is Some,
        first_awaiting(ts) >= -1,
    decreases ts.len(),
{
    if ts.len() > 0 {
        lemma_first_awaiting_is_awaiting(ts.drop_last());
        let f = first_awaiting(ts.drop_last());
        if f >= 0 {
            assert(ts.drop_last()[f] == ts[f]);
        }
    }
}

/// Expands a leading `~` of a typed path to the home folder.
pub fn expand_tilde(raw: &str, home: Option<&str>) -> (p: String)
    ensures
        p@ == expand_home(
            raw@,
            match home {
                Some(h) => Some(h@),
                None => None,
            },
        ),
{
    let v = crate::text::chars_of(raw);
    let tilde_slash = crate::text::chars_of("~/");
    proof {
        reveal_strlit("~/");
        reveal_strlit("~");
    }
    match home {
        Some(h) => {
            if crate::text::occurs_at_exec(&v, &tilde_slash, 0) {
                let rest = crate::text::string_of_range(&v, 2, v.len());
                proof {
                    assert(rest@ =~= raw@.skip(2));
                }
                crate::install::discover::join(h, rest.as_str())
            } else if v.len() == 1 && v[0] == '~' {
                proof {
                    assert(raw@ =~= "~"@);
                }
                String::from_str(h)
            } else {
                proof {
                    if raw@ == "~"@ {
                        assert(raw@[0] == '~');
                    }
                }
                String::from_str(raw)
            }
        },
        None => String::from_str(raw),
    }
}

impl App {
    /// A state with no target, at the start of a session. `home` is the
    /// user's home folder, used to expand `~` in typed paths.
    pub fn new(home: Option<String>) -> (app: App)
        ensures
            app@ == (AppView {
                targets: Seq::empty(),
                cursor: 0,
                add_input: None,
                prompt: None,
                sudo: None,
                show_help: false,
                toast: None,
                quit: false,
                home: match home {
                    Some(h) => Some(h@),
                    None => None,
                },
            }),
            app_wf(app@),
    {
        let app = App {
            targets: Vec::new(),
            cursor: 0,
            add_input: None,
            password_prompt: None,
            sudo_password: None,
            show_help: false,
            toast: None,
            quit: false,
            home,
        };
        proof {
            assert(target_views(app.targets@) =~= Seq::<TrackedView>::empty());
        }
        app
    }

    /// The tracked targets, in order.
    pub fn targets(&self) -> (r: &Vec<TrackedTarget>)
        ensures
            target_views(r@) == self@.targets,
    {
        &self.targets
    }

    /// The index of the selected target.
    pub fn cursor(&self) -> (c: usize)
        ensures
            c == self@.cursor,
    {
        self.cursor
    }

    /// The selected target, if the cursor is on one.
    pub fn selected(&self) -> (r: Option<&TrackedTarget>)
        ensures
            match r {
                Some(t) => self@.cursor < self@.targets.len() && t@ == self@.targets[self@.cursor as int],
                None => self@.cursor >= self@.targets.len(),
            },
    {
        if self.cursor < self.targets.len() {
            Some(&self.targets[self.cursor])
        } else {
            None
        }
    }

    /// Whether the help is shown.
    pub fn show_help(&self) -> (b: bool)
        ensures
            b == self@.show_help,
    {
        self.show_help
    }

    /// Whether the user asked to quit.
    pub fn should_quit(&self) -> (b: bool)
        ensures
            b == self@.quit,
    {
        self.quit
    }

    /// The folder path being typed, while the add prompt is open.
    pub fn add_input(&self) -> (r: Option<&str>)
        ensures
            match r {
                Some(s) => self@.add_input == Some(s@),
                None => self@.add_input is None,
            },
    {
        match &self.add_input {
            Some(s) => Some(s.as_str()),
            None => None,
        }
    }

    /// The open password prompt: the target it is for and what is typed so
    /// far; none when no prompt is open or its target is gone.
    pub fn password_prompt(&self) -> (r: Option<(&TrackedTarget, &str)>)
        ensures
            match r {
                Some((t, input)) => self@.prompt matches Some((i, typed)) && i < self@.targets.len()
                    && t@ == self@.targets[i as int] && input@ == typed,
                None => !(self@.prompt matches Some((i, _)) && i < self@.targets.len()),
            },
    {
        match &self.password_prompt {
            Some(e) => {
                if e.target < self.targets.len() {
                    Some((&self.targets[e.target], e.input.as_str()))
                } else {
                    None
                }
            },
            None => None,
        }
    }

    /// The status bar message still shown at `now` (milliseconds).
    pub fn visible_toast(&self, now: u64) -> (r: Option<&str>)
        ensures
            match r {
                Some(m) => visible_toast_at(self@, now) == Some(m@),
                None => visible_toast_at(self@, now) is None,
            },
    {
        match &self.toast {
            Some(t) => {
                let age = if now >= t.shown_at {
                    now - t.shown_at
                } else {
                    0
                };
                if age < TOAST_TTL_MS {
                    Some(t.message.as_str())
                } else {
                    None
                }
            },
            None => None,
        }
    }

    /// Whether every target can count one more password.
    pub fn password_counts_in_range(&self) -> (b: bool)
        ensures
            b == sends_in_range(self@),
    {
        let mut i: usize = 0;
        while i < self.targets.len()
            invariant
                i <= self.targets@.len(),
                forall|j: int| 0 <= j < i ==> (#[trigger] target_views(self.targets@)[j]).sends < u32::MAX,
            decreases self.targets@.len() - i,
        {
            if self.targets[i].password_sends() == u32::MAX {
                proof {
                    assert(target_views(self.targets@)[i as int] == self.targets@[i as int]@);
                }
                return false;
            }
            i = i + 1;
        }
        true
    }

    /// Drops the status bar message once its time is over.
    pub fn expire_toast(&mut self, now: u64)
        ensures
            final(self)@ == expire_step(old(self)@, now),
    {
        let expired = match &self.toast {
            Some(t) => {
                let age = if now >= t.shown_at {
                    now - t.shown_at
                } else {
                    0
                };
                age >= TOAST_TTL_MS
            },
            None => false,
        };
        if expired {
            self.toast = None;
        }
        proof {
            assert(self@ =~= expire_step(old(self)@, now));
        }
    }

    /// Shows a message in the status bar from `now`.
    fn set_toast(&mut self, message: String, now: u64)
        ensures
            final(self)@ == toasted(old(self)@, message@, now),
    {
        self.toast = Some(Toast { message, shown_at: now });
        proof {
            assert(self@ =~= toasted(old(self)@, message@, now));
        }
    }

    /// Updating the selected target: asks to start its script, unless it
    /// already runs.
    fn update_selected(&mut self, now: u64) -> (cmd: Command)
        ensures
            (final(self)@, cmd@) == update_step(old(self)@, now),
    {
        if self.cursor >= self.targets.len() {
            return Command::Nothing;
        }
        proof {
            assert(target_views(self.targets@)[self.cursor as int] == self.targets@[self.cursor as int]@);
        }
        if self.targets[self.cursor].is_updating() {
            self.set_toast(String::from_str("update already running"), now);
            return Command::Nothing;
        }
        Command::Launch(self.cursor)
    }

    /// Updating everything: asks to start the script of every target that
    /// is not running.
    fn update_all(&self) -> (cmd: Command)
        ensures
            cmd@ == CommandView::LaunchEach(idle_indices(self@.targets)),
    {
        let mut ix: Vec<usize> = Vec::new();
        let mut i: usize = 0;
        proof {
            assert(target_views(self.targets@).take(0) =~= Seq::<TrackedView>::empty());
        }
        while i < self.targets.len()
            invariant
                i <= self.targets@.len(),
                ix@ == idle_indices(target_views(self.targets@).take(i as int)),
            decreases self.targets@.len() - i,
        {
            let tv = Ghost(target_views(self.targets@));
            proof {
                assert(tv@.take(i + 1).drop_last() =~= tv@.take(i as int));
                assert(tv@.take(i + 1).last() == self.targets@[i as int]@);
            }
            if !self.targets[i].is_updating() {
                ix.push(i);
            }
            i = i + 1;
        }
        proof {
            let tv = target_views(self.targets@);
            assert(tv.take(tv.len() as int) =~= tv);
        }
        Command::LaunchEach(ix)
    }

    /// Stops tracking the selected target and asks to save the folders left.
    fn remove_selected(&mut self, now: u64) -> (cmd: Command)
        requires
            app_wf(old(self)@),
        ensures
            (final(self)@, cmd@) == remove_step(old(self)@, now),
            app_wf(final(self)@),
    {
        if self.cursor >= self.targets.len() {
            return Command::Nothing;
        }
        let index = self.cursor;
        let ghost before = target_views(self.targets@);
        let removed = self.targets.remove(index);
        proof {
            assert(target_views(self.targets@) =~= before.remove(index as int));
            assert(removed@ == before[index as int]);
        }
        if self.cursor >= self.targets.len() {
            self.cursor = if self.targets.len() > 0 {
                self.targets.len() - 1
            } else {
                0
            };
        }
        let folders = self.persisted_folders();
        let message = joined(removed.name(), " no longer tracked");
        self.set_toast(message, now);
        proof {
            let ts = before.remove(index as int);
            assert forall|j: int| 0 <= j < ts.len() implies tracked_wf(#[trigger] ts[j]) by {
                if j < index {
                    assert(ts[j] == before[j]);
                } else {
                    assert(ts[j] == before[j + 1]);
                }
            }
        }
        Command::Untrack(index, folders)
    }

    /// Does what an action of the main screen asks for.
    pub fn handle_action(&mut self, act: Action, now: u64) -> (cmd: Command)
        requires
            app_wf(old(self)@),
        ensures
            (final(self)@, cmd@) == action_step(old(self)@, act, now),
            app_wf(final(self)@),
    {
        match act {
            Action::Quit => {
                self.quit = true;
                Command::Nothing
            },
            Action::Help => {
                self.show_help = !self.show_help;
                Command::Nothing
            },
            Action::CloseOverlay => {
                self.show_help = false;
                Command::Nothing
            },
            Action::Up => {
                if self.cursor > 0 {
                    self.cursor = self.cursor - 1;
                }
                Command::Nothing
            },
            Action::Down => {
                if self.cursor < self.targets.len() && self.cursor + 1 < self.targets.len() {
                    self.cursor = self.cursor + 1;
                }
                Command::Nothing
            },
            Action::Update => self.update_selected(now),
            Action::UpdateAll => self.update_all(),
            Action::Add => {
                self.add_input = Some(String::new());
                Command::Nothing
            },
            Action::Remove => self.remove_selected(now),
        }
    }

    /// A key while a password is typed: Esc gives up (stopping the script),
    /// Enter hands the password over and keeps it for the session, Backspace
    /// and characters edit it.
    fn handle_password_key(&mut self, code: Key, now: u64) -> (cmd: Command)
        requires
            app_wf(old(self)@),
            sends_in_range(old(self)@),
            old(self)@.prompt is Some,
        ensures
            match old(self)@.prompt {
                Some((i, input)) => (final(self)@, cmd@) == password_key_step(
                    old(self)@,
                    i,
                    input,
                    code,
                    now,
                ),
                None => false,
            },
            app_wf(final(self)@),
    {
        let ghost before = target_views(self.targets@);
        match code {
            Key::Esc => {
                let entry = self.password_prompt.take().unwrap();
                let mut cmd = Command::Nothing;
                if entry.target < self.targets.len() {
                    proof {
                        assert(before[entry.target as int] == self.targets@[entry.target as int]@);
                        lemma_transitions_keep_target_wf(before[entry.target as int], before[entry.target as int].target);
                    }
                    let stop = self.targets[entry.target].cancel();
                    proof {
                        assert(target_views(self.targets@) =~= before.update(
                            entry.target as int,
                            after_cancel(before[entry.target as int]),
                        ));
                    }
                    if stop {
                        cmd = Command::Stop(entry.target);
                    }
                }
                self.set_toast(String::from_str("password prompt cancelled"), now);
                cmd
            },
            Key::Enter => {
                let entry = self.password_prompt.take().unwrap();
                self.sudo_password = Some(entry.input.clone());
                let mut cmd = Command::Nothing;
                if entry.target < self.targets.len() {
                    proof {
                        assert(before[entry.target as int] == self.targets@[entry.target as int]@);
                        lemma_transitions_keep_target_wf(before[entry.target as int], before[entry.target as int].target);
                    }
                    let send = self.targets[entry.target].provide_password();
                    proof {
                        assert(target_views(self.targets@) =~= before.update(
                            entry.target as int,
                            after_password(before[entry.target as int]),
                        ));
                    }
                    if send {
                        cmd = Command::SendPassword(entry.target, entry.input);
                    }
                }
                proof {
                    assert(self@ =~= password_key_step(old(self)@, entry.target, entry.input@, code, now).0);
                }
                cmd
            },
            Key::Backspace => {
                let mut entry = self.password_prompt.take().unwrap();
                pop_char(&mut entry.input);
                self.password_prompt = Some(entry);
                Command::Nothing
            },
            Key::Char(c) => {
                let mut entry = self.password_prompt.take().unwrap();
                push_char(&mut entry.input, c);
                self.password_prompt = Some(entry);
                Command::Nothing
            },
            _ => Command::Nothing,
        }
    }

    /// A key while a folder path is typed: Esc closes the prompt, Enter asks
    /// to look into the folder (its `~` expanded), Backspace and characters
    /// edit the path.
    fn handle_add_key(&mut self, code: Key) -> (cmd: Command)
        requires
            old(self)@.add_input is Some,
        ensures
            match old(self)@.add_input {
                Some(input) => (final(self)@, cmd@) == add_key_step(old(self)@, input, code),
                None => false,
            },
    {
        match code {
            Key::Esc => {
                self.add_input = None;
                Command::Nothing
            },
            Key::Enter => {
                let input = self.add_input.take().unwrap();
                let raw = trim_str(input.as_str());
                if raw.as_str().is_empty() {
                    return Command::Nothing;
                }
                let home = match &self.home {
                    Some(h) => Some(h.as_str()),
                    None => None,
                };
                Command::Discover(expand_tilde(raw.as_str(), home))
            },
            Key::Backspace => {
                let mut input = self.add_input.take().unwrap();
                pop_char(&mut input);
                self.add_input = Some(input);
                Command::Nothing
            },
            Key::Char(c) => {
                let mut input = self.add_input.take().unwrap();
                push_char(&mut input, c);
                self.add_input = Some(input);
                Command::Nothing
            },
            _ => Command::Nothing,
        }
    }

    /// Does what a key event asks for: the open password prompt, then the
    /// open add prompt, take the keys; otherwise the key's action applies.
    /// Releases of keys are ignored.
    pub fn handle_key(&mut self, key: KeyInput, now: u64) -> (cmd: Command)
        requires
            app_wf(old(self)@),
            sends_in_range(old(self)@),
        ensures
            (final(self)@, cmd@) == key_step(old(self)@, key, now),
            app_wf(final(self)@),
    {
        if key.release {
            return Command::Nothing;
        }
        if self.password_prompt.is_some() {
            return self.handle_password_key(key.code, now);
        }
        if self.add_input.is_some() {
            return self.handle_add_key(key.code);
        }
        match KeyMap::map(key) {
            Some(act) => self.handle_action(act, now),
            None => Command::Nothing,
        }
    }

    /// Answers the password requests of running scripts: the first target
    /// awaiting a password gets the session's password when it asks for the
    /// first time and one was given; otherwise the password prompt opens for
    /// it. Nothing happens while a password is being typed.
    pub fn handle_password_requests(&mut self) -> (cmd: Command)
        requires
            app_wf(old(self)@),
            sends_in_range(old(self)@),
        ensures
            (final(self)@, cmd@) == requests_step(old(self)@),
            app_wf(final(self)@),
    {
        if self.password_prompt.is_some() {
            return Command::Nothing;
        }
        let ghost tv = target_views(self.targets@);
        let mut i: usize = 0;
        proof {
            assert(tv.take(0) =~= Seq::<TrackedView>::empty());
        }
        while i < self.targets.len() && !self.targets[i].is_awaiting_password()
            invariant
                i <= self.targets@.len(),
                tv == target_views(self.targets@),
                first_awaiting(tv.take(i as int)) == -1,
            decreases self.targets@.len() - i,
        {
            proof {
                assert(tv.take(i + 1).drop_last() =~= tv.take(i as int));
                assert(tv.take(i + 1).last() == self.targets@[i as int]@);
            }
            i = i + 1;
        }
        if i == self.targets.len() {
            proof {
                assert(tv.take(i as int) =~= tv);
            }
            return Command::Nothing;
        }
        proof {
            assert(tv.take(i + 1).drop_last() =~= tv.take(i as int));
            assert(tv.take(i + 1).last() == self.targets@[i as int]@);
            lemma_first_awaiting_prefix(tv, i + 1);
            assert(tv[i as int] == self.targets@[i as int]@);
            lemma_transitions_keep_target_wf(tv[i as int], tv[i as int].target);
        }
        if self.targets[i].password_sends() == 0 {
            match &self.sudo_password {
                Some(pw) => {
                    let password = pw.clone();
                    let send = self.targets[i].provide_password();
                    proof {
                        assert(target_views(self.targets@) =~= tv.update(
                            i as int,
                            after_password(tv[i as int]),
                        ));
                    }
                    if send {
                        return Command::SendPassword(i, password);
                    }
                    return Command::Nothing;
                },
                None => {},
            }
        }
        self.password_prompt = Some(PasswordEntry { target: i, input: String::new() });
        Command::Nothing
    }

    /// Takes in the messages of the running script of target `i`, and whether
    /// its stream is closed; returns whether its run ended.
    pub fn pump_target(&mut self, i: usize, batch: Vec<UpdateMessage>, disconnected: bool) -> (finished: bool)
        requires
            app_wf(old(self)@),
            i < old(self)@.targets.len(),
        ensures
            final(self)@ == (AppView {
                targets: old(self)@.targets.update(
                    i as int,
                    after_pump(old(self)@.targets[i as int], message_views(batch@), disconnected),
                ),
                ..old(self)@
            }),
            finished == (old(self)@.targets[i as int].state is Updating
                && crate::install::tracking::run_outcome(message_views(batch@), disconnected) is Some),
            app_wf(final(self)@),
    {
        let ghost tv = target_views(self.targets@);
        proof {
            assert(tv[i as int] == self.targets@[i as int]@);
            lemma_transitions_keep_target_wf(tv[i as int], tv[i as int].target);
        }
        let finished = self.targets[i].pump(batch, disconnected);
        proof {
            assert(target_views(self.targets@) =~= tv.update(
                i as int,
                after_pump(tv[i as int], message_views(batch@), disconnected),
            ));
        }
        finished
    }

    /// Reports how starting the script of target `i` went: on success the
    /// target is updating; otherwise a message says why it could not start.
    pub fn launch_result(&mut self, i: usize, outcome: Result<(), String>, now: u64)
        requires
            app_wf(old(self)@),
        ensures
            final(self)@ == launch_result_step(old(self)@, i, outcome_view(outcome), now),
            app_wf(final(self)@),
    {
        if i >= self.targets.len() {
            return;
        }
        let ghost tv = target_views(self.targets@);
        proof {
            assert(tv[i as int] == self.targets@[i as int]@);
            lemma_transitions_keep_target_wf(tv[i as int], tv[i as int].target);
        }
        match outcome {
            Ok(()) => {
                let _ = self.targets[i].launch();
                proof {
                    assert(target_views(self.targets@) =~= tv.update(i as int, after_launch(tv[i as int])));
                }
            },
            Err(why) => {
                let head = joined3("cannot launch ", self.targets[i].name(), ": ");
                let message = joined(head.as_str(), why.as_str());
                self.set_toast(message, now);
            },
        }
    }

    /// Reports the targets whose script started after `LaunchEach`: those
    /// that were not running are now updating, and a message counts them.
    pub fn launch_each_result(&mut self, started: Vec<usize>, now: u64)
        requires
            app_wf(old(self)@),
        ensures
            final(self)@ == launch_each_step(old(self)@, started@, now),
            app_wf(final(self)@),
    {
        let ghost a0 = self@;
        let mut count: usize = 0;
        let mut k: usize = 0;
        proof {
            assert(started@.take(0) =~= Seq::<usize>::empty());
        }
        while k < started.len()
            invariant
                k <= started@.len(),
                count <= k,
                (target_views(self.targets@), count as nat) == launch_fold(a0.targets, started@.take(k as int)),
                self@ == (AppView { targets: target_views(self.targets@), ..a0 }),
                app_wf(self@),
            decreases started@.len() - k,
        {
            let i = started[k];
            let ghost tv = target_views(self.targets@);
            proof {
                assert(started@.take(k + 1).drop_last() =~= started@.take(k as int));
                assert(started@.take(k + 1).last() == i);
            }
            if i < self.targets.len() && !self.targets[i].is_updating() {
                proof {
                    assert(tv[i as int] == self.targets@[i as int]@);
                    assert(tracked_wf(self@.targets[i as int]));
                    lemma_transitions_keep_target_wf(tv[i as int], tv[i as int].target);
                }
                let ghost before_app = self@;
                let _ = self.targets[i].launch();
                count = count + 1;
                proof {
                    let nt = tv.update(i as int, after_launch(tv[i as int]));
                    assert(target_views(self.targets@) =~= nt);
                    assert forall|j: int| 0 <= j < nt.len() implies tracked_wf(#[trigger] nt[j]) by {
                        if j != i {
                            assert(nt[j] == tv[j]);
                            assert(tracked_wf(before_app.targets[j]));
                        }
                    }
                }
            } else {
                proof {
                    if i < self.targets@.len() {
                        assert(tv[i as int] == self.targets@[i as int]@);
                    }
                }
            }
            k = k + 1;
            proof {
                assert(self@ =~= (AppView { targets: target_views(self.targets@), ..a0 }));
            }
        }
        proof {
            assert(started@.take(started@.len() as int) =~= started@);
        }
        let number = decimal_string(count);
        let message = joined(number.as_str(), " update(s) launched");
        self.set_toast(message, now);
        proof {
            assert(self@ =~= launch_each_step(a0, started@, now));
        }
    }

    /// Whether a target with this script is tracked.
    fn tracks_script(&self, script: &str) -> (b: bool)
        ensures
            b == scripts_of(self@.targets).contains(script@),
    {
        let ghost tv = target_views(self.targets@);
        let mut j: usize = 0;
        while j < self.targets.len()
            invariant
                j <= self.targets@.len(),
                tv == target_views(self.targets@),
                forall|k: int| 0 <= k < j ==> scripts_of(tv)[k] != script@,
            decreases self.targets@.len() - j,
        {
            proof {
                assert(scripts_of(tv)[j as int] == self.targets@[j as int]@.target.script);
            }
            if crate::text::same_text(self.targets[j].target().script(), script) {
                return true;
            }
            j = j + 1;
        }
        false
    }

    /// Reports what was found in a folder the user added: its targets not
    /// tracked yet are tracked, the last one selected, and the folders saved;
    /// otherwise a message says why nothing was added.
    #[verifier::spinoff_prover]
    pub fn discovered(&mut self, outcome: Result<Vec<InstallTarget>, String>, now: u64) -> (cmd: Command)
        requires
            app_wf(old(self)@),
        ensures
            (final(self)@, cmd@) == discovered_step(old(self)@, discovery_view(outcome), now),
            app_wf(final(self)@),
    {
        let ghost a0 = self@;
        match outcome {
            Err(why) => {
                let message = joined("cannot add: ", why.as_str());
                self.set_toast(message, now);
                proof {
                    assert(self@.targets == a0.targets);
                    assert(self@.cursor == a0.cursor);
                    assert forall|i: int| 0 <= i < self@.targets.len() implies tracked_wf(
                        #[trigger] self@.targets[i],
                    ) by {
                        assert(self@.targets[i] == a0.targets[i]);
                    }
                }
                Command::Nothing
            },
            Ok(news) => {
                let ghost news0 = install_views(news@);
                let mut news = news;
                let news_len = news.len();
                proof {
                    assert(news0.len() == news_len);
                }
                let mut added: usize = 0;
                let mut last_name = String::new();
                let mut k: usize = 0;
                proof {
                    assert(news0.take(0) =~= Seq::<TargetView>::empty());
                    assert(news0.skip(0) =~= news0);
                }
                while news.len() > 0
                    invariant
                        k <= news0.len(),
                        news0.len() <= usize::MAX,
                        added <= k,
                        install_views(news@) == news0.skip(k as int),
                        (target_views(self.targets@), added as nat, last_name@) == track_fold(
                            a0.targets,
                            news0.take(k as int),
                        ),
                        self@ == (AppView { targets: target_views(self.targets@), ..a0 }),
                        app_wf(a0),
                        forall|j: int|
                            0 <= j < self@.targets.len() ==> tracked_wf(#[trigger] self@.targets[j]),
                    decreases news@.len(),
                {
                    let ghost before = target_views(self.targets@);
                    let ghost rest = news@;
                    proof {
                        assert(install_views(rest).len() == rest.len());
                        assert(news0.skip(k as int).len() == news0.len() - k);
                        assert(k < news0.len());
                    }
                    let t = news.remove(0);
                    proof {
                        assert(install_views(rest)[0] == t@);
                        assert(news0.skip(k as int)[0] == news0[k as int]);
                        assert(news0.take(k + 1).drop_last() =~= news0.take(k as int));
                        assert(news0.take(k + 1).last() == t@);
                        assert forall|j: int| 0 <= j < install_views(news@).len() implies install_views(
                            news@,
                        )[j] == news0.skip(k + 1)[j] by {
                            assert(news@[j] == rest[j + 1]);
                            assert(install_views(rest)[j + 1] == news0.skip(k as int)[j + 1]);
                        }
                        assert(install_views(news@) =~= news0.skip(k + 1));
                    }
                    if !self.tracks_script(t.script()) {
                        last_name = String::from_str(t.name());
                        self.targets.push(TrackedTarget::new(t));
                        added = added + 1;
                        proof {
                            assert(target_views(self.targets@) =~= before.push(fresh(t@)));
                            lemma_transitions_keep_target_wf(fresh(t@), t@);
                        }
                    }
                    k = k + 1;
                    proof {
                        assert(self@ =~= (AppView { targets: target_views(self.targets@), ..a0 }));
                    }
                }
                proof {
                    assert(news0.take(k as int) =~= news0);
                    lemma_track_fold_nothing_added(a0.targets, news0);
                }
                if added == 0 {
                    self.set_toast(String::from_str("already tracked"), now);
                    proof {
                        assert(self@ =~= toasted(a0, "already tracked"@, now));
                    }
                    return Command::Nothing;
                }
                self.cursor = self.targets.len() - 1;
                let folders = self.persisted_folders();
                let message = if added == 1 {
                    joined(last_name.as_str(), " now tracked")
                } else {
                    let number = decimal_string(added);
                    joined(number.as_str(), " targets now tracked")
                };
                self.set_toast(message, now);
                Command::Persist(folders)
            },
        }
    }

    /// Takes in the remembered folders as they were found at startup (the
    /// targets of each, or none for a folder that is gone): the targets are
    /// tracked, and when some folders are gone the folders left are saved
    /// and a message counts the ones dropped.
    pub fn load_targets(&mut self, found: Vec<Option<Vec<InstallTarget>>>, now: u64) -> (cmd: Command)
        requires
            app_wf(old(self)@),
        ensures
            (final(self)@, cmd@) == load_step(old(self)@, found_views(found@), now),
            app_wf(final(self)@),
    {
        let ghost a0 = self@;
        let ghost found0 = found_views(found@);
        let mut found = found;
        let found_len = found.len();
        proof {
            assert(found0.len() == found_len);
        }
        let mut broken: usize = 0;
        let mut k: usize = 0;
        proof {
            assert(found0.take(0) =~= Seq::<Option<Seq<TargetView>>>::empty());
            assert(found0.skip(0) =~= found0);
        }
        while found.len() > 0
            invariant
                k <= found0.len(),
                found0.len() <= usize::MAX,
                broken <= k,
                found_views(found@) == found0.skip(k as int),
                (target_views(self.targets@), broken as nat) == load_fold(a0.targets, found0.take(k as int)),
                self@ == (AppView { targets: target_views(self.targets@), ..a0 }),
                app_wf(self@),
            decreases found@.len(),
        {
            let ghost rest = found@;
            proof {
                assert(found_views(rest).len() == rest.len());
                assert(found0.skip(k as int).len() == found0.len() - k);
                assert(k < found0.len());
            }
            let entry = found.remove(0);
            proof {
                assert(found0.skip(k as int)[0] == found0[k as int]);
                assert(found_views(rest)[0] == found0[k as int]);
                assert(found0.take(k + 1).drop_last() =~= found0.take(k as int));
                assert(found0.take(k + 1).last() == found0[k as int]);
                assert forall|j: int| 0 <= j < found_views(found@).len() implies found_views(
                    found@,
                )[j] == found0.skip(k + 1)[j] by {
                    assert(found@[j] == rest[j + 1]);
                    assert(found_views(rest)[j + 1] == found0.skip(k as int)[j + 1]);
                }
                assert(found_views(found@) =~= found0.skip(k + 1));
            }
            match entry {
                Some(news) => {
                    let ghost t1 = target_views(self.targets@);
                    let ghost ns = install_views(news@);
                    assert(found0[k as int] == Some(ns));
                    let mut news = news;
                    let ns_len = news.len();
                    proof {
                        assert(ns.len() == ns_len);
                    }
                    let mut m: usize = 0;
                    proof {
                        assert(t1 + fresh_all(ns.take(0)) =~= t1);
                        assert(ns.skip(0) =~= ns);
                    }
                    while news.len() > 0
                        invariant
                            m <= ns.len(),
                            ns.len() <= usize::MAX,
                            install_views(news@) == ns.skip(m as int),
                            target_views(self.targets@) == t1 + fresh_all(ns.take(m as int)),
                            self@ == (AppView { targets: target_views(self.targets@), ..a0 }),
                            app_wf(self@),
                        decreases news@.len(),
                    {
                        let ghost before = target_views(self.targets@);
                        let ghost app_before = self@;
                        let ghost rest_news = news@;
                        proof {
                            assert(install_views(rest_news).len() == rest_news.len());
                            assert(ns.skip(m as int).len() == ns.len() - m);
                            assert(m < ns.len());
                        }
                        let t = news.remove(0);
                        proof {
                            assert(install_views(rest_news)[0] == t@);
                            assert(ns.skip(m as int)[0] == ns[m as int]);
                            assert forall|j: int| 0 <= j < install_views(news@).len() implies install_views(
                                news@,
                            )[j] == ns.skip(m + 1)[j] by {
                                assert(news@[j] == rest_news[j + 1]);
                                assert(install_views(rest_news)[j + 1] == ns.skip(m as int)[j + 1]);
                            }
                            assert(install_views(news@) =~= ns.skip(m + 1));
                        }
                        self.targets.push(TrackedTarget::new(t));
                        m = m + 1;
                        proof {
                            lemma_transitions_keep_target_wf(fresh(t@), t@);
                            assert(target_views(self.targets@) =~= before.push(fresh(t@)));
                            assert(t1 + fresh_all(ns.take(m as int)) =~= (t1 + fresh_all(
                                ns.take(m - 1),
                            )).push(fresh(t@)));
                            assert(self@ =~= (AppView { targets: target_views(self.targets@), ..a0 }));
                            let nt = self@.targets;
                            assert forall|j: int| 0 <= j < nt.len() implies tracked_wf(#[trigger] nt[j]) by {
                                if j < before.len() {
                                    assert(nt[j] == before[j]);
                                    assert(app_before.targets[j] == before[j]);
                                    assert(tracked_wf(app_before.targets[j]));
                                } else {
                                    assert(nt[j] == fresh(t@));
                                }
                            }
                        }
                    }
                    proof {
                        assert(ns.take(m as int) =~= ns);
                    }
                },
                None => {
                    broken = broken + 1;
                },
            }
            k = k + 1;
        }
        proof {
            assert(found0.take(k as int) =~= found0);
        }
        if broken > 0 {
            let folders = self.persisted_folders();
            let number = decimal_string(broken);
            let message = joined(number.as_str(), " missing folder(s) dropped");
            self.set_toast(message, now);
            return Command::Persist(folders);
        }
        Command::Nothing
    }

    /// Forgets the password given during the session, overwriting its bytes.
    pub fn clear_sudo_password(&mut self)
        ensures
            final(self)@ == (AppView { sudo: None, ..old(self)@ }),
    {
        match self.sudo_password.take() {
            Some(password) => {
                let mut bytes = crate::install::target::into_bytes(password);
                crate::install::target::wipe(&mut bytes);
            },
            None => {},
        }
        proof {
            assert(self@ =~= (AppView { sudo: None, ..old(self)@ }));
        }
    }

    /// The folders to save for the current targets.
    fn persisted_folders(&self) -> (f: Vec<String>)
        ensures
            texts(f@) == folders_of(self@.targets),
    {
        let mut all: Vec<String> = Vec::new();
        let mut i: usize = 0;
        while i < self.targets.len()
            invariant
                i <= self.targets@.len(),
                texts(all@) == target_folders(target_views(self.targets@).take(i as int)),
            decreases self.targets@.len() - i,
        {
            let ghost before = all@;
            let f = String::from_str(self.targets[i].target().folder());
            all.push(f);
            proof {
                let tv = target_views(self.targets@);
                assert(tv[i as int] == self.targets@[i as int]@);
                assert(tv.take(i as int).len() == i);
                assert(texts(before).len() == i);
                assert forall|j: int| 0 <= j < i implies texts(all@)[j] == target_folders(
                    tv.take(i + 1),
                )[j] by {
                    assert(texts(all@)[j] == texts(before)[j]);
                    assert(target_folders(tv.take(i as int))[j] == tv[j].target.folder);
                }
                assert(texts(all@) =~= target_folders(tv.take(i + 1)));
            }
            i = i + 1;
        }
        proof {
            let tv = target_views(self.targets@);
            assert(tv.take(tv.len() as int) =~= tv);
        }
        unique_folders(&all)
    }
}

} // verus!
