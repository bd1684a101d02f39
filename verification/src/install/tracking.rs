//! A tracked target: an install target with the state of its update during
//! this session, the output of its last run and the password it may await.
use std::collections::VecDeque;

use vstd::prelude::*;
use vstd::string::*;

use crate::install::target::{message_views, InstallTarget, MessageView, TargetView, UpdateMessage};

verus! {

/// The number of output lines kept for a target; older lines are dropped.
pub const MAX_LOG_LINES: usize = 1000;

/// Where a target stands in this session.
#[derive(Debug, Clone, PartialEq, Eq)]
pub enum UpdateState {
    /// Never run during this session.
    Idle,
    /// Its script is running.
    Updating,
    /// Its last run succeeded.
    Succeeded,
    /// Its last run failed, for the reason given.
    Failed(String),
}

/// An update state as plain values.
pub enum StateView {
    Idle,
    Updating,
    Succeeded,
    Failed(Seq<char>),
}

impl View for UpdateState {
    type V = StateView;

    open spec fn view(&self) -> StateView {
        match self {
            UpdateState::Idle => StateView::Idle,
            UpdateState::Updating => StateView::Updating,
            UpdateState::Succeeded => StateView::Succeeded,
            UpdateState::Failed(why) => StateView::Failed(why@),
        }
    }
}

/// The short label shown for a state.
pub open spec fn state_label(s: StateView) -> Seq<char> {
    match s {
        StateView::Idle => "au repos"@,
        StateView::Updating => "updating…"@,
        StateView::Succeeded => "à jour"@,
        StateView::Failed(_) => "ÉCHEC"@,
    }
}

impl UpdateState {
    /// The short label shown for this state.
    pub fn label(&self) -> (r: &str)
        ensures
            r@ == state_label(self@),
    {
        match self {
            UpdateState::Idle => "au repos",
            UpdateState::Updating => "updating…",
            UpdateState::Succeeded => "à jour",
            UpdateState::Failed(_) => "ÉCHEC",
        }
    }
}

/// The reason recorded when a script ends in failure.
pub open spec fn failure_reason() -> Seq<char> {
    "script exited with an error"@
}

/// A tracked target as plain values.
pub struct TrackedView {
    pub target: TargetView,
    pub state: StateView,
    pub logs: Seq<Seq<char>>,
    pub awaiting: Option<Seq<char>>,
    pub sends: u32,
}

/// A tracked target keeps no more than `MAX_LOG_LINES` lines of output.
pub open spec fn tracked_wf(t: TrackedView) -> bool {
    t.logs.len() <= MAX_LOG_LINES
}

/// The last `n` elements of `s` (all of `s` when it is shorter).
pub open spec fn keep_last<A>(s: Seq<A>, n: nat) -> Seq<A> {
    if s.len() > n {
        s.skip(s.len() - n)
    } else {
        s
    }
}

/// The text lines of a batch of messages, in order.
pub open spec fn batch_lines(b: Seq<MessageView>) -> Seq<Seq<char>>
    decreases b.len(),
{
    if b.len() == 0 {
        Seq::empty()
    } else {
        match b.last() {
            MessageView::Line(s) => batch_lines(b.drop_last()).push(s),
            _ => batch_lines(b.drop_last()),
        }
    }
}

/// The last prompt of a batch, or `prev` when it has none.
pub open spec fn last_prompt(b: Seq<MessageView>, prev: Option<Seq<char>>) -> Option<Seq<char>>
    decreases b.len(),
{
    if b.len() == 0 {
        prev
    } else {
        match b.last() {
            MessageView::PasswordPrompt(p) => Some(p),
            _ => last_prompt(b.drop_last(), prev),
        }
    }
}

/// The last end-of-script report of a batch.
pub open spec fn last_finish(b: Seq<MessageView>) -> Option<bool>
    decreases b.len(),
{
    if b.len() == 0 {
        None
    } else {
        match b.last() {
            MessageView::Finished(ok) => Some(ok),
            _ => last_finish(b.drop_last()),
        }
    }
}

/// How a run ends after a batch: its last report, or a failure when the
/// stream broke without one, or not yet.
pub open spec fn run_outcome(b: Seq<MessageView>, disconnected: bool) -> Option<bool> {
    match last_finish(b) {
        Some(ok) => Some(ok),
        None => if disconnected {
            Some(false)
        } else {
            None
        },
    }
}

/// The state a running target reaches after a batch.
pub open spec fn state_after(b: Seq<MessageView>, disconnected: bool) -> StateView {
    match run_outcome(b, disconnected) {
        Some(true) => StateView::Succeeded,
        Some(false) => StateView::Failed(failure_reason()),
        None => StateView::Updating,
    }
}

/// Keeping the last lines can be done line by line.
pub proof fn lemma_keep_last_push<A>(s: Seq<A>, x: A, n: nat)
    requires
        n > 0,
    ensures
        keep_last(keep_last(s, n).push(x), n) == keep_last(s.push(x), n),
{
    if s.len() > n {
        assert(keep_last(s, n).push(x).skip(1) =~= s.push(x).skip(s.len() + 1 - n));
    } else if s.len() == n {
        assert(keep_last(s, n) == s);
    } else {
        assert(keep_last(s, n) == s);
    }
}

/// A target that starts being followed: idle, no output, no prompt.
pub open spec fn fresh(target: TargetView) -> TrackedView {
    TrackedView {
        target: target,
        state: StateView::Idle,
        logs: Seq::empty(),
        awaiting: None,
        sends: 0,
    }
}

/// A target once its script is started: updating, with the output of the
/// previous run dropped, no prompt and no password given. A target already
/// updating stays as it is.
pub open spec fn after_launch(t: TrackedView) -> TrackedView {
    if t.state is Updating {
        t
    } else {
        TrackedView { state: StateView::Updating, logs: Seq::empty(), awaiting: None, sends: 0, ..t }
    }
}

/// A target once a password is handed to it: no longer awaiting one, and,
/// when it is running, one more password given.
pub open spec fn after_password(t: TrackedView) -> TrackedView {
    TrackedView {
        awaiting: None,
        sends: if t.state is Updating {
            (t.sends + 1) as u32
        } else {
            t.sends
        },
        ..t
    }
}

/// A target once its password prompt is given up.
pub open spec fn after_cancel(t: TrackedView) -> TrackedView {
    TrackedView { awaiting: None, ..t }
}

/// A target once it took in a batch of messages from its running script; a
/// target that is not updating stays as it is.
pub open spec fn after_pump(t: TrackedView, b: Seq<MessageView>, disconnected: bool) -> TrackedView {
    if t.state is Updating {
        TrackedView {
            target: t.target,
            state: state_after(b, disconnected),
            logs: keep_last(t.logs + batch_lines(b), MAX_LOG_LINES as nat),
            awaiting: last_prompt(b, t.awaiting),
            sends: t.sends,
        }
    } else {
        t
    }
}

/// The lines of two batches are those of each, in order.
proof fn lemma_batch_lines_add(b1: Seq<MessageView>, b2: Seq<MessageView>)
    ensures
        batch_lines(b1 + b2) == batch_lines(b1) + batch_lines(b2),
    decreases b2.len(),
{
    if b2.len() == 0 {
        assert(b1 + b2 =~= b1);
        assert(batch_lines(b1) + batch_lines(b2) =~= batch_lines(b1));
    } else {
        lemma_batch_lines_add(b1, b2.drop_last());
        assert((b1 + b2).drop_last() =~= b1 + b2.drop_last());
        assert((b1 + b2).last() == b2.last());
        match b2.last() {
            MessageView::Line(x) => {
                assert(batch_lines(b1) + batch_lines(b2.drop_last()).push(x) =~= (batch_lines(b1)
                    + batch_lines(b2.drop_last())).push(x));
            },
            _ => {},
        }
    }
}

/// The last prompt of two batches is that of the second, else that of the
/// first.
proof fn lemma_last_prompt_add(b1: Seq<MessageView>, b2: Seq<MessageView>, prev: Option<Seq<char>>)
    ensures
        last_prompt(b1 + b2, prev) == last_prompt(b2, last_prompt(b1, prev)),
    decreases b2.len(),
{
    if b2.len() == 0 {
        assert(b1 + b2 =~= b1);
    } else {
        lemma_last_prompt_add(b1, b2.drop_last(), prev);
        assert((b1 + b2).drop_last() =~= b1 + b2.drop_last());
        assert((b1 + b2).last() == b2.last());
    }
}

/// The last end report of two batches is that of the second, else that of
/// the first.
proof fn lemma_last_finish_add(b1: Seq<MessageView>, b2: Seq<MessageView>)
    ensures
        last_finish(b1 + b2) == match last_finish(b2) {
            Some(ok) => Some(ok),
            None => last_finish(b1),
        },
    decreases b2.len(),
{
    if b2.len() == 0 {
        assert(b1 + b2 =~= b1);
    } else {
        lemma_last_finish_add(b1, b2.drop_last());
        assert((b1 + b2).drop_last() =~= b1 + b2.drop_last());
        assert((b1 + b2).last() == b2.last());
    }
}

/// Keeping the last lines after adding more is keeping the last lines of
/// everything.
proof fn lemma_keep_last_add<A>(s: Seq<A>, x: Seq<A>, n: nat)
    ensures
        keep_last(keep_last(s, n) + x, n) == keep_last(s + x, n),
{
    if s.len() > n {
        let k = s.skip(s.len() - n);
        if x.len() == 0 {
            assert(k + x =~= k);
            assert(s + x =~= s);
        } else {
            assert((k + x).skip(x.len() as int) =~= (s + x).skip(s.len() + x.len() - n));
        }
    }
}

/// The last end report of a batch is the one after which none comes.
proof fn lemma_last_finish_is(b: Seq<MessageView>, k: int, ok: bool)
    requires
        0 <= k < b.len(),
        b[k] == MessageView::Finished(ok),
        forall|j: int| k < j < b.len() ==> !(#[trigger] b[j] is Finished),
    ensures
        last_finish(b) == Some(ok),
    decreases b.len(),
{
    if k < b.len() - 1 {
        let d = b.drop_last();
        assert(!(b[b.len() - 1] is Finished));
        assert forall|j: int| k < j < d.len() implies !(#[trigger] d[j] is Finished) by {
            assert(d[j] == b[j]);
        }
        lemma_last_finish_is(d, k, ok);
    }
}

/// A batch without an end report has none.
proof fn lemma_no_finish(b: Seq<MessageView>)
    requires
        forall|j: int| 0 <= j < b.len() ==> !(#[trigger] b[j] is Finished),
    ensures
        last_finish(b) is None,
    decreases b.len(),
{
    if b.len() > 0 {
        let d = b.drop_last();
        assert(!(b[b.len() - 1] is Finished));
        assert forall|j: int| 0 <= j < d.len() implies !(#[trigger] d[j] is Finished) by {
            assert(d[j] == b[j]);
        }
        lemma_no_finish(d);
    }
}

/// A run's output may come in any number of batches: taking in a batch that
/// does not end the run, then another, leaves the target exactly as taking
/// in both at once.
pub proof fn law_pump_batches_compose(
    t: TrackedView,
    b1: Seq<MessageView>,
    b2: Seq<MessageView>,
    disconnected: bool,
)
    requires
        run_outcome(b1, false) is None,
    ensures
        after_pump(after_pump(t, b1, false), b2, disconnected) == after_pump(t, b1 + b2, disconnected),
{
    if t.state is Updating {
        lemma_batch_lines_add(b1, b2);
        lemma_last_prompt_add(b1, b2, t.awaiting);
        lemma_last_finish_add(b1, b2);
        lemma_keep_last_add(t.logs + batch_lines(b1), batch_lines(b2), MAX_LOG_LINES as nat);
        assert(t.logs + batch_lines(b1) + batch_lines(b2) =~= t.logs + (batch_lines(b1)
            + batch_lines(b2)));
    }
}

/// A running target ends as the last end report of a batch says: up to
/// date on success, failed on an error; without a report it fails when the
/// stream broke and keeps running otherwise. A target that is not running is
/// left as it is.
pub proof fn law_pump_ends_as_reported(t: TrackedView, b: Seq<MessageView>, disconnected: bool)
    ensures
        !(t.state is Updating) ==> after_pump(t, b, disconnected) == t,
        t.state is Updating ==> {
            &&& after_pump(t, b, disconnected).target == t.target
            &&& after_pump(t, b, disconnected).sends == t.sends
            &&& forall|k: int|
                #![trigger b[k]]
                0 <= k < b.len() && b[k] is Finished && (forall|j: int|
                    k < j < b.len() ==> !(#[trigger] b[j] is Finished)) ==> after_pump(
                    t,
                    b,
                    disconnected,
                ).state == if b[k]->Finished_0 {
                    StateView::Succeeded
                } else {
                    StateView::Failed(failure_reason())
                }
            &&& (forall|j: int| 0 <= j < b.len() ==> !(#[trigger] b[j] is Finished)) ==> after_pump(
                t,
                b,
                disconnected,
            ).state == if disconnected {
                StateView::Failed(failure_reason())
            } else {
                StateView::Updating
            }
        },
{
    if t.state is Updating {
        assert forall|k: int|
            #![trigger b[k]]
            0 <= k < b.len() && b[k] is Finished && (forall|j: int|
                k < j < b.len() ==> !(#[trigger] b[j] is Finished)) implies after_pump(
                t,
                b,
                disconnected,
            ).state == if b[k]->Finished_0 {
                StateView::Succeeded
            } else {
                StateView::Failed(failure_reason())
            } by {
            lemma_last_finish_is(b, k, b[k]->Finished_0);
        }
        if forall|j: int| 0 <= j < b.len() ==> !(#[trigger] b[j] is Finished) {
            lemma_no_finish(b);
        }
    }
}

/// A target followed during this session.
pub struct TrackedTarget {
    target: InstallTarget,
    state: UpdateState,
    logs: VecDeque<String>,
    awaiting_password: Option<String>,
    password_sends: u32,
}

/// The texts of a queue of strings.
pub open spec fn queue_texts(q: Seq<String>) -> Seq<Seq<char>> {
    q.map_values(|s: String| s@)
}

impl View for TrackedTarget {
    type V = TrackedView;

    closed spec fn view(&self) -> TrackedView {
        TrackedView {
            target: self.target@,
            state: self.state@,
            logs: queue_texts(self.logs@),
            awaiting: match self.awaiting_password {
                Some(p) => Some(p@),
                None => None,
            },
            sends: self.password_sends,
        }
    }
}

impl TrackedTarget {
    /// Starts following a target: idle, with no output and no prompt.
    pub fn new(target: InstallTarget) -> (t: Self)
        ensures
            t@ == fresh(target@),
            tracked_wf(t@),
    {
        let t = TrackedTarget {
            target,
            state: UpdateState::Idle,
            logs: VecDeque::new(),
            awaiting_password: None,
            password_sends: 0,
        };
        proof {
            assert(queue_texts(t.logs@) =~= Seq::<Seq<char>>::empty());
        }
        t
    }

    /// The install target.
    pub fn target(&self) -> (r: &InstallTarget)
        ensures
            r@ == self@.target,
    {
        &self.target
    }

    /// The display name of the target.
    pub fn name(&self) -> (r: &str)
        ensures
            r@ == self@.target.name,
    {
        self.target.name()
    }

    /// The state of the target.
    pub fn state(&self) -> (r: &UpdateState)
        ensures
            r@ == self@.state,
    {
        &self.state
    }

    /// Whether its script is running.
    pub fn is_updating(&self) -> (b: bool)
        ensures
            b == (self@.state is Updating),
    {
        match self.state {
            UpdateState::Updating => true,
            _ => false,
        }
    }

    /// The output lines kept from the last run, oldest first.
    pub fn logs(&self) -> (r: &VecDeque<String>)
        ensures
            queue_texts(r@) == self@.logs,
    {
        &self.logs
    }

    /// Whether the script asked for a password that was not given yet.
    pub fn is_awaiting_password(&self) -> (b: bool)
        ensures
            b == (self@.awaiting is Some),
    {
        self.awaiting_password.is_some()
    }

    /// The pending password prompt, if any.
    pub fn awaiting_prompt(&self) -> (r: Option<&str>)
        ensures
            match r {
                Some(p) => self@.awaiting == Some(p@),
                None => self@.awaiting is None,
            },
    {
        match &self.awaiting_password {
            Some(p) => Some(p.as_str()),
            None => None,
        }
    }

    /// How many passwords were given to the current run: tells a first
    /// request from a new one after a refused password.
    pub fn password_sends(&self) -> (n: u32)
        ensures
            n == self@.sends,
    {
        self.password_sends
    }

    /// Records that the script was started: the output of the previous run is
    /// dropped, the target is updating, with no prompt and no password given.
    /// Without effect (and `false`) when a run is already going on.
    pub fn launch(&mut self) -> (started: bool)
        requires
            tracked_wf(old(self)@),
        ensures
            started == !(old(self)@.state is Updating),
            final(self)@ == after_launch(old(self)@),
            tracked_wf(final(self)@),
    {
        if self.is_updating() {
            return false;
        }
        self.logs.clear();
        self.state = UpdateState::Updating;
        self.awaiting_password = None;
        self.password_sends = 0;
        proof {
            assert(queue_texts(self.logs@) =~= Seq::<Seq<char>>::empty());
        }
        true
    }

    /// Hands a password to the running script and stops awaiting one. Returns
    /// whether a run is going on, that is whether the password is to be
    /// written to it; only then is it counted.
    pub fn provide_password(&mut self) -> (send: bool)
        requires
            old(self)@.state is Updating ==> old(self)@.sends < u32::MAX,
        ensures
            send == (old(self)@.state is Updating),
            final(self)@ == after_password(old(self)@),
    {
        let send = self.is_updating();
        if send {
            self.password_sends = self.password_sends + 1;
        }
        self.awaiting_password = None;
        send
    }

    /// Gives up the pending password prompt. Returns whether a run is going
    /// on, that is whether the script is to be stopped; the target then ends
    /// in failure when its output stops.
    pub fn cancel(&mut self) -> (stop: bool)
        ensures
            stop == (old(self)@.state is Updating),
            final(self)@ == after_cancel(old(self)@),
    {
        self.awaiting_password = None;
        self.is_updating()
    }

    /// Adds one line of output, dropping the oldest line beyond the limit.
    fn push_log(&mut self, line: String)
        requires
            tracked_wf(old(self)@),
        ensures
            final(self)@ == (TrackedView {
                logs: keep_last(old(self)@.logs.push(line@), MAX_LOG_LINES as nat),
                ..old(self)@
            }),
            tracked_wf(final(self)@),
    {
        let ghost before = self.logs@;
        self.logs.push_back(line);
        if self.logs.len() > MAX_LOG_LINES {
            let _ = self.logs.pop_front();
            proof {
                assert(queue_texts(self.logs@) =~= queue_texts(before).push(line@).skip(1));
            }
        } else {
            proof {
                assert(queue_texts(self.logs@) =~= queue_texts(before).push(line@));
            }
        }
    }

    /// Takes in the messages the running script produced since the last
    /// call, in order, and whether its stream is closed. Lines go to the log,
    /// the last prompt becomes the awaited one, and the last end report (or,
    /// without one, a closed stream) ends the run. Returns whether the run
    /// ended. A target that is not updating is left as it is.
    pub fn pump(&mut self, batch: Vec<UpdateMessage>, disconnected: bool) -> (finished: bool)
        requires
            tracked_wf(old(self)@),
        ensures
            tracked_wf(final(self)@),
            final(self)@ == after_pump(old(self)@, message_views(batch@), disconnected),
            finished == (old(self)@.state is Updating && run_outcome(message_views(batch@), disconnected) is Some),
    {
        if !self.is_updating() {
            return false;
        }
        let ghost start = self@;
        let ghost b = message_views(batch@);
        let mut finished: Option<bool> = None;
        let mut i: usize = 0;
        proof {
            assert(b.take(0) =~= Seq::<MessageView>::empty());
            assert(start.logs + Seq::<Seq<char>>::empty() =~= start.logs);
        }
        while i < batch.len()
            invariant
                i <= batch@.len(),
                b == message_views(batch@),
                tracked_wf(self@),
                self@ == (TrackedView {
                    logs: keep_last(start.logs + batch_lines(b.take(i as int)), MAX_LOG_LINES as nat),
                    awaiting: last_prompt(b.take(i as int), start.awaiting),
                    ..start
                }),
                finished == last_finish(b.take(i as int)),
                tracked_wf(start),
            decreases batch@.len() - i,
        {
            proof {
                assert(b.take(i + 1).drop_last() =~= b.take(i as int));
                assert(b.take(i + 1).last() == batch@[i as int]@);
            }
            match &batch[i] {
                UpdateMessage::Line(line) => {
                    let ghost lines_before = start.logs + batch_lines(b.take(i as int));
                    self.push_log(line.clone());
                    proof {
                        lemma_keep_last_push(lines_before, line@, MAX_LOG_LINES as nat);
                        assert(lines_before.push(line@) =~= start.logs + batch_lines(
                            b.take(i + 1),
                        ));
                        if lines_before.len() <= MAX_LOG_LINES {
                            assert(keep_last(lines_before, MAX_LOG_LINES as nat) == lines_before);
                        }
                    }
                },
                UpdateMessage::PasswordPrompt(prompt) => {
                    self.awaiting_password = Some(prompt.clone());
                },
                UpdateMessage::Finished(ok) => {
                    finished = Some(*ok);
                },
            }
            i = i + 1;
        }
        proof {
            assert(b.take(batch@.len() as int) =~= b);
        }
        if disconnected && finished.is_none() {
            finished = Some(false);
        }
        match finished {
            Some(true) => {
                self.state = UpdateState::Succeeded;
                true
            },
            Some(false) => {
                self.state = UpdateState::Failed(String::from_str("script exited with an error"));
                true
            },
            None => false,
        }
    }
}

} // verus!
