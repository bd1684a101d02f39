//! An install target (a tracked folder and one of its update scripts), the
//! messages a running update produces, and the reading of a script's raw
//! output into lines and password prompts.
use vstd::prelude::*;
use vstd::string::*;
use vstd::utf8::*;

use crate::text::{
    ascii_lower, chars_of, chars_range, contains, contains_exec, is_whitespace, lemma_trim_end_prefix,
    lemma_trim_idempotent, lemma_trim_start_suffix, lower, lower_chars, occurs_at, string_of_range,
    trim, trim_end, trim_end_len, trim_start, trim_str,
};

verus! {

/// An install target: a tracked folder holding an update script. The folder
/// and the script are absolute paths, held as text.
#[derive(Debug, Clone, PartialEq, Eq)]
pub struct InstallTarget {
    name: String,
    folder: String,
    script: String,
}

/// What an install target is made of, as plain text.
pub struct TargetView {
    pub name: Seq<char>,
    pub folder: Seq<char>,
    pub script: Seq<char>,
}

impl View for InstallTarget {
    type V = TargetView;

    closed spec fn view(&self) -> TargetView {
        TargetView { name: self.name@, folder: self.folder@, script: self.script@ }
    }
}

impl InstallTarget {
    /// A target with the given display name, folder and script.
    pub fn new(name: String, folder: String, script: String) -> (t: Self)
        ensures
            t@.name == name@,
            t@.folder == folder@,
            t@.script == script@,
    {
        InstallTarget { name, folder, script }
    }

    /// The display name.
    pub fn name(&self) -> (r: &str)
        ensures
            r@ == self@.name,
    {
        self.name.as_str()
    }

    /// The folder the script runs in.
    pub fn folder(&self) -> (r: &str)
        ensures
            r@ == self@.folder,
    {
        self.folder.as_str()
    }

    /// The update script.
    pub fn script(&self) -> (r: &str)
        ensures
            r@ == self@.script,
    {
        self.script.as_str()
    }
}

/// A message from a running update script.
#[derive(Debug, PartialEq, Eq)]
pub enum UpdateMessage {
    /// One line of output (stdout and stderr merged by the terminal).
    Line(String),
    /// The script waits for a password: the prompt seen in its output.
    PasswordPrompt(String),
    /// The script ended; `true` when its exit status was zero.
    Finished(bool),
}

/// An update message as plain values.
pub enum MessageView {
    Line(Seq<char>),
    PasswordPrompt(Seq<char>),
    Finished(bool),
}

impl View for UpdateMessage {
    type V = MessageView;

    open spec fn view(&self) -> MessageView {
        match self {
            UpdateMessage::Line(s) => MessageView::Line(s@),
            UpdateMessage::PasswordPrompt(s) => MessageView::PasswordPrompt(s@),
            UpdateMessage::Finished(b) => MessageView::Finished(*b),
        }
    }
}

/// The views of a sequence of messages.
pub open spec fn message_views(ms: Seq<UpdateMessage>) -> Seq<MessageView> {
    ms.map_values(|m: UpdateMessage| m@)
}

/// `s` without its trailing carriage returns and line feeds.
pub open spec fn strip_eol(s: Seq<char>) -> Seq<char>
    decreases s.len(),
{
    if s.len() > 0 && (s.last() == '\r' || s.last() == '\n') {
        strip_eol(s.drop_last())
    } else {
        s
    }
}

/// The text after the last line feed of `s` (all of `s` when it has none).
pub open spec fn last_line(s: Seq<char>) -> Seq<char>
    decreases s.len(),
{
    if s.len() == 0 {
        s
    } else if s.last() == '\n' {
        Seq::empty()
    } else {
        last_line(s.drop_last()).push(s.last())
    }
}

/// A password prompt: the last line of the text, once its trailing whitespace
/// is gone, ends with `:` and speaks of a password (`password`, `[sudo]` or
/// `mot de passe`, in any letter case).
pub open spec fn is_password_prompt(s: Seq<char>) -> bool {
    let l = trim_end(last_line(s));
    &&& l.len() > 0
    &&& l.last() == ':'
    &&& {
        ||| contains(lower(l), "password"@)
        ||| contains(lower(l), "[sudo]"@)
        ||| contains(lower(l), "mot de passe"@)
    }
}

/// What the text of a `Line` message looks like: no line feed, and no `\r`
/// at its end.
pub open spec fn line_shape(t: Seq<char>) -> bool {
    &&& !t.contains('\n')
    &&& !(t.len() > 0 && t.last() == '\r')
}

/// What the text of a `PasswordPrompt` message looks like: trimmed, on one
/// line, ending with `:`, and itself recognised as a password prompt.
pub open spec fn prompt_shape(p: Seq<char>) -> bool {
    &&& trim(p) == p
    &&& !p.contains('\n')
    &&& p.len() > 0
    &&& p.last() == ':'
    &&& is_password_prompt(p)
}

/// What a message of the line reader looks like: a line or a prompt of the
/// shapes above, never an end report.
pub open spec fn message_shape(m: MessageView) -> bool {
    match m {
        MessageView::Line(t) => line_shape(t),
        MessageView::PasswordPrompt(p) => prompt_shape(p),
        MessageView::Finished(_) => false,
    }
}

/// Removing line endings keeps a prefix, which no longer ends with one.
pub proof fn lemma_strip_eol_prefix(s: Seq<char>)
    ensures
        strip_eol(s).len() <= s.len(),
        strip_eol(s) == s.take(strip_eol(s).len() as int),
        strip_eol(s).len() > 0 ==> strip_eol(s).last() != '\r' && strip_eol(s).last() != '\n',
    decreases s.len(),
{
    if s.len() > 0 && (s.last() == '\r' || s.last() == '\n') {
        lemma_strip_eol_prefix(s.drop_last());
        let t = strip_eol(s.drop_last());
        assert(s.drop_last().take(t.len() as int) =~= s.take(t.len() as int));
    } else {
        assert(s.take(s.len() as int) =~= s);
    }
}

/// Text without a line feed is its own last line.
pub proof fn lemma_last_line_whole(s: Seq<char>)
    requires
        !s.contains('\n'),
    ensures
        last_line(s) == s,
    decreases s.len(),
{
    if s.len() > 0 {
        let d = s.drop_last();
        assert(!d.contains('\n')) by {
            if d.contains('\n') {
                let i = choose|i: int| 0 <= i < d.len() && d[i] == '\n';
                assert(s[i] == '\n');
            }
        }
        lemma_last_line_whole(d);
        assert(s.last() != '\n') by {
            if s.last() == '\n' {
                assert(s[s.len() - 1] == '\n');
            }
        }
        assert(d.push(s.last()) =~= s);
    }
}

/// A mark that does not begin with whitespace and occurs in text still
/// occurs once the leading whitespace is trimmed.
pub proof fn lemma_mark_survives_trim_start(e: Seq<char>, m: Seq<char>)
    requires
        m.len() > 0,
        !is_whitespace(m[0]),
        contains(lower(e), m),
    ensures
        contains(lower(trim_start(e)), m),
{
    lemma_trim_start_suffix(e);
    let y = trim_start(e);
    let k = e.len() - y.len();
    let i = choose|i: int| occurs_at(lower(e), m, i);
    assert(lower(e).subrange(i, i + m.len())[0] == lower(e)[i]);
    assert(lower(e)[i] == ascii_lower(e[i]));
    if i < k {
        assert(is_whitespace(e[i]));
        assert(ascii_lower(e[i]) == e[i]);
        assert(false);
    }
    assert(lower(y) =~= lower(e).skip(k));
    assert(lower(y).subrange(i - k, i - k + m.len()) =~= lower(e).subrange(i, i + m.len()));
    assert(occurs_at(lower(y), m, i - k));
}

/// A prompt seen on text without a line feed, once trimmed, has the shape
/// of a prompt message.
pub proof fn lemma_prompt_shape(x: Seq<char>)
    requires
        !x.contains('\n'),
        is_password_prompt(x),
    ensures
        prompt_shape(trim(x)),
{
    lemma_last_line_whole(x);
    let l = trim_end(x);
    lemma_trim_end_prefix(x);
    lemma_trim_start_suffix(l);
    lemma_trim_idempotent(x);
    let p = trim_start(l);
    let k = l.len() - p.len();
    assert(p.len() > 0) by {
        if p.len() == 0 {
            assert(is_whitespace(l[l.len() - 1]));
        }
    }
    assert(p[p.len() - 1] == l[k + p.len() - 1]);
    assert(p.last() == ':');
    assert(!p.contains('\n')) by {
        if p.contains('\n') {
            let j = choose|j: int| 0 <= j < p.len() && p[j] == '\n';
            assert(p[j] == l[k + j]);
            assert(l[k + j] == x[k + j]);
        }
    }
    lemma_last_line_whole(p);
    assert(trim_end(p) == p);
    reveal_strlit("password");
    reveal_strlit("[sudo]");
    reveal_strlit("mot de passe");
    if contains(lower(l), "password"@) {
        lemma_mark_survives_trim_start(l, "password"@);
    }
    if contains(lower(l), "[sudo]"@) {
        lemma_mark_survives_trim_start(l, "[sudo]"@);
    }
    if contains(lower(l), "mot de passe"@) {
        lemma_mark_survives_trim_start(l, "mot de passe"@);
    }
}

/// `line` without its trailing `\r` and `\n` characters.
pub fn strip_line_endings(line: &str) -> (r: String)
    ensures
        r@ == strip_eol(line@),
{
    let v = chars_of(line);
    let mut n = v.len();
    proof {
        assert(v@.take(n as int) =~= v@);
    }
    while n > 0 && (v[n - 1] == '\r' || v[n - 1] == '\n')
        invariant
            n <= v@.len(),
            strip_eol(v@) == strip_eol(v@.take(n as int)),
        decreases n,
    {
        proof {
            assert(v@.take(n as int).drop_last() =~= v@.take(n - 1));
        }
        n = n - 1;
    }
    proof {
        assert(v@.subrange(0, n as int) =~= v@.take(n as int));
    }
    string_of_range(&v, 0, n)
}

/// The index where the last line of `v` begins.
fn last_line_start(v: &Vec<char>) -> (k: usize)
    ensures
        k <= v@.len(),
        last_line(v@) == v@.subrange(k as int, v@.len() as int),
{
    let mut k = v.len();
    proof {
        assert(v@.take(k as int) =~= v@);
        assert(v@ + v@.subrange(k as int, v@.len() as int) =~= v@);
    }
    while k > 0 && v[k - 1] != '\n'
        invariant
            k <= v@.len(),
            last_line(v@) == last_line(v@.take(k as int)) + v@.subrange(k as int, v@.len() as int),
        decreases k,
    {
        proof {
            let t = v@.take(k as int);
            assert(t.drop_last() =~= v@.take(k - 1));
            assert(last_line(t) == last_line(v@.take(k - 1)).push(v@[k - 1]));
            assert(last_line(v@.take(k - 1)).push(v@[k - 1]) + v@.subrange(k as int, v@.len() as int)
                =~= last_line(v@.take(k - 1)) + v@.subrange(k - 1, v@.len() as int));
        }
        k = k - 1;
    }
    proof {
        assert(last_line(v@.take(k as int)) =~= Seq::<char>::empty());
        assert(Seq::<char>::empty() + v@.subrange(k as int, v@.len() as int) =~= v@.subrange(
            k as int,
            v@.len() as int,
        ));
    }
    k
}

/// Recognises a password prompt at the end of a partial output buffer.
///
/// Letters are compared after ASCII lowercasing. The three marks are ASCII,
/// and the only characters outside ASCII whose lowercase form holds an ASCII
/// character give `i` or `k`, letters that no mark contains: the verdict is
/// the one full Unicode lowercasing would give.
pub fn looks_like_password_prompt(buffer: &str) -> (b: bool)
    ensures
        b == is_password_prompt(buffer@),
{
    let v = chars_of(buffer);
    let start = last_line_start(&v);
    let line = chars_range(&v, start, v.len());
    let n = trim_end_len(&line);
    if n == 0 || line[n - 1] != ':' {
        return false;
    }
    let trimmed = chars_range(&line, 0, n);
    proof {
        assert(line@.subrange(0, n as int) =~= line@.take(n as int));
    }
    let lowered = lower_chars(&trimmed);
    let p1 = chars_of("password");
    let p2 = chars_of("[sudo]");
    let p3 = chars_of("mot de passe");
    contains_exec(&lowered, &p1) || contains_exec(&lowered, &p2) || contains_exec(&lowered, &p3)
}

/// The text of a byte string, each invalid UTF-8 sequence replaced by U+FFFD.
pub uninterp spec fn utf8_lossy(bytes: Seq<u8>) -> Seq<char>;

/// Calls `String::from_utf8_lossy`: the result is named `utf8_lossy`; for
/// valid UTF-8 it is the decoded text; and since every invalid sequence
/// becomes U+FFFD, a line feed in the text comes from a `0x0A` byte, so bytes
/// without one give a text without `\n`.
#[verifier::external_body]
fn lossy_string(bytes: &[u8]) -> (s: String)
    ensures
        s@ == utf8_lossy(bytes@),
        valid_utf8(bytes@) ==> s@ == decode_utf8(bytes@),
        !bytes@.contains(10u8) ==> !s@.contains('\n'),
{
    String::from_utf8_lossy(bytes).into_owned()
}

/// The text of raw output bytes: decoded as UTF-8, each invalid sequence
/// replaced by U+FFFD. Valid UTF-8 (ASCII among it) decodes to its own text.
pub fn decode_output(bytes: &[u8]) -> (s: String)
    ensures
        s@ == utf8_lossy(bytes@),
        valid_utf8(bytes@) ==> s@ == decode_utf8(bytes@),
        !bytes@.contains(10u8) ==> !s@.contains('\n'),
{
    lossy_string(bytes)
}

/// Splits a byte stream into complete lines, starting from the partial line
/// `start`: the complete lines (each ending with its line feed) and the
/// partial line left at the end.
pub open spec fn scan_lines(start: Seq<u8>, bytes: Seq<u8>) -> (Seq<Seq<u8>>, Seq<u8>)
    decreases bytes.len(),
{
    if bytes.len() == 0 {
        (Seq::empty(), start)
    } else {
        let prev = scan_lines(start, bytes.drop_last());
        if bytes.last() == 10u8 {
            (prev.0.push(prev.1.push(10u8)), Seq::empty())
        } else {
            (prev.0, prev.1.push(bytes.last()))
        }
    }
}

/// The text of one complete line of raw output (its line feed included):
/// the bytes before the line feed, decoded, without trailing `\r` or `\n`.
/// Decoding the bytes before the line feed gives the text decoded with it,
/// minus that final `\n`: an ASCII byte always stands for itself.
pub open spec fn line_text(line: Seq<u8>) -> Seq<char> {
    strip_eol(utf8_lossy(line.drop_last()))
}

/// The message for one complete line of raw output.
pub open spec fn line_message(line: Seq<u8>) -> MessageView {
    MessageView::Line(line_text(line))
}

/// The state of a [`LineReader`], as plain values.
pub struct LineReaderView {
    /// Bytes of the line not yet ended.
    pub pending: Seq<u8>,
    /// A prompt was already reported for the current partial line.
    pub prompt_signaled: bool,
}

/// Cuts the raw output of a script into lines, and notices a password prompt
/// waiting at the end of an unfinished line.
pub struct LineReader {
    pending: Vec<u8>,
    prompt_signaled: bool,
}

impl View for LineReader {
    type V = LineReaderView;

    closed spec fn view(&self) -> LineReaderView {
        LineReaderView { pending: self.pending@, prompt_signaled: self.prompt_signaled }
    }
}

/// What the reader does with `chunk` from the state `r`: the lines it
/// completes, the partial line left, and whether it reports a prompt.
pub open spec fn feed_outcome(r: LineReaderView, chunk: Seq<u8>) -> (Seq<Seq<u8>>, Seq<u8>, bool, bool) {
    let (lines, rest) = scan_lines(r.pending, chunk);
    let signaled = if lines.len() > 0 { false } else { r.prompt_signaled };
    let prompt = rest.len() > 0 && !signaled && is_password_prompt(utf8_lossy(rest));
    (lines, rest, prompt, signaled || prompt)
}

/// The messages the reader emits for `chunk` from the state `r`.
pub open spec fn feed_messages(r: LineReaderView, chunk: Seq<u8>) -> Seq<MessageView> {
    let o = feed_outcome(r, chunk);
    o.0.map_values(|l: Seq<u8>| line_message(l)) + if o.2 {
        seq![MessageView::PasswordPrompt(trim(utf8_lossy(o.1)))]
    } else {
        Seq::<MessageView>::empty()
    }
}

/// Neither a line feed nor anything else is lost: the complete lines followed
/// by the partial line are exactly the bytes read.
pub proof fn lemma_scan_keeps_bytes(start: Seq<u8>, bytes: Seq<u8>)
    ensures
        scan_lines(start, bytes).0.flatten() + scan_lines(start, bytes).1 == start + bytes,
    decreases bytes.len(),
{
    if bytes.len() > 0 {
        let prev = scan_lines(start, bytes.drop_last());
        lemma_scan_keeps_bytes(start, bytes.drop_last());
        assert(start + bytes =~= (start + bytes.drop_last()).push(bytes.last()));
        if bytes.last() == 10u8 {
            prev.0.lemma_flatten_push(prev.1.push(10u8));
            assert(prev.0.flatten() + prev.1.push(10u8) + Seq::<u8>::empty() =~= (prev.0.flatten()
                + prev.1).push(10u8));
        } else {
            assert(prev.0.flatten() + prev.1.push(bytes.last()) =~= (prev.0.flatten()
                + prev.1).push(bytes.last()));
        }
    }
}

/// Every complete line ends with its line feed and holds no other; the partial
/// line holds none, when the starting partial line held none.
pub proof fn lemma_scan_line_shape(start: Seq<u8>, bytes: Seq<u8>)
    requires
        !start.contains(10u8),
    ensures
        !scan_lines(start, bytes).1.contains(10u8),
        forall|i: int|
            #![trigger scan_lines(start, bytes).0[i]]
            0 <= i < scan_lines(start, bytes).0.len() ==> {
                let l = scan_lines(start, bytes).0[i];
                &&& l.len() > 0
                &&& l.last() == 10u8
                &&& !l.drop_last().contains(10u8)
            },
    decreases bytes.len(),
{
    if bytes.len() > 0 {
        let prev = scan_lines(start, bytes.drop_last());
        lemma_scan_line_shape(start, bytes.drop_last());
        if bytes.last() == 10u8 {
            assert(prev.1.push(10u8).drop_last() =~= prev.1);
        } else {
            assert forall|j: int| 0 <= j < prev.1.push(bytes.last()).len() implies prev.1.push(
                bytes.last(),
            )[j] != 10u8 by {
                if j < prev.1.len() {
                    assert(prev.1[j] != 10u8);
                }
            }
        }
    }
}

/// How the bytes are cut in chunks does not change the lines: reading `a`
/// then `b` completes the same lines, in the same order, and leaves the same
/// partial line as reading `a + b` at once.
pub proof fn lemma_lines_independent_of_chunking(start: Seq<u8>, a: Seq<u8>, b: Seq<u8>)
    ensures
        scan_lines(start, a + b).0 == scan_lines(start, a).0 + scan_lines(
            scan_lines(start, a).1,
            b,
        ).0,
        scan_lines(start, a + b).1 == scan_lines(scan_lines(start, a).1, b).1,
    decreases b.len(),
{
    let mid = scan_lines(start, a);
    if b.len() == 0 {
        assert(a + b =~= a);
        assert(mid.0 + Seq::<Seq<u8>>::empty() =~= mid.0);
    } else {
        lemma_lines_independent_of_chunking(start, a, b.drop_last());
        assert((a + b).drop_last() =~= a + b.drop_last());
        assert((a + b).last() == b.last());
        let prev = scan_lines(mid.1, b.drop_last());
        if b.last() == 10u8 {
            assert(mid.0 + prev.0.push(prev.1.push(10u8)) =~= (mid.0 + prev.0).push(
                prev.1.push(10u8),
            ));
        }
    }
}

/// Bytes without a line feed complete no line: they are added to the partial
/// line.
pub proof fn lemma_scan_without_line_feed(start: Seq<u8>, bytes: Seq<u8>)
    requires
        !bytes.contains(10u8),
    ensures
        scan_lines(start, bytes).0.len() == 0,
        scan_lines(start, bytes).1 == start + bytes,
    decreases bytes.len(),
{
    if bytes.len() > 0 {
        assert(!bytes.drop_last().contains(10u8)) by {
            if bytes.drop_last().contains(10u8) {
                let i = choose|i: int| 0 <= i < bytes.drop_last().len() && bytes.drop_last()[i] == 10u8;
                assert(bytes[i] == 10u8);
            }
        }
        lemma_scan_without_line_feed(start, bytes.drop_last());
        assert(bytes[bytes.len() - 1] != 10u8);
        assert(start + bytes =~= (start + bytes.drop_last()).push(bytes.last()));
    }
}

/// The reader after reading `chunks` one after the other from the state
/// `r`, and every message it emitted, in order.
pub open spec fn feed_all(r: LineReaderView, chunks: Seq<Seq<u8>>) -> (LineReaderView, Seq<MessageView>)
    decreases chunks.len(),
{
    if chunks.len() == 0 {
        (r, Seq::empty())
    } else {
        let prev = feed_all(r, chunks.drop_last());
        let o = feed_outcome(prev.0, chunks.last());
        (
            LineReaderView { pending: o.1, prompt_signaled: o.3 },
            prev.1 + feed_messages(prev.0, chunks.last()),
        )
    }
}

/// The texts of the `Line` messages among `ms`, in order.
pub open spec fn line_texts(ms: Seq<MessageView>) -> Seq<Seq<char>>
    decreases ms.len(),
{
    if ms.len() == 0 {
        Seq::empty()
    } else {
        let prev = line_texts(ms.drop_last());
        match ms.last() {
            MessageView::Line(t) => prev.push(t),
            _ => prev,
        }
    }
}

/// The line texts of two runs of messages are those of each, in order.
pub proof fn lemma_line_texts_add(a: Seq<MessageView>, b: Seq<MessageView>)
    ensures
        line_texts(a + b) == line_texts(a) + line_texts(b),
    decreases b.len(),
{
    if b.len() == 0 {
        assert(a + b =~= a);
        assert(line_texts(a) + line_texts(b) =~= line_texts(a));
    } else {
        lemma_line_texts_add(a, b.drop_last());
        assert((a + b).drop_last() =~= a + b.drop_last());
        assert((a + b).last() == b.last());
        match b.last() {
            MessageView::Line(t) => {
                assert(line_texts(a) + line_texts(b.drop_last()).push(t) =~= (line_texts(a)
                    + line_texts(b.drop_last())).push(t));
            },
            _ => {},
        }
    }
}

/// The line texts of the messages for complete lines are the texts of
/// those lines.
pub proof fn lemma_line_texts_of_lines(ls: Seq<Seq<u8>>)
    ensures
        line_texts(ls.map_values(|l: Seq<u8>| line_message(l))) == ls.map_values(
            |l: Seq<u8>| line_text(l),
        ),
    decreases ls.len(),
{
    if ls.len() > 0 {
        lemma_line_texts_of_lines(ls.drop_last());
        let m = ls.map_values(|l: Seq<u8>| line_message(l));
        assert(m.drop_last() =~= ls.drop_last().map_values(|l: Seq<u8>| line_message(l)));
        assert(ls.map_values(|l: Seq<u8>| line_text(l)) =~= ls.drop_last().map_values(
            |l: Seq<u8>| line_text(l),
        ).push(line_text(ls.last())));
    } else {
        assert(ls.map_values(|l: Seq<u8>| line_message(l)) =~= Seq::<MessageView>::empty());
        assert(ls.map_values(|l: Seq<u8>| line_text(l)) =~= Seq::<Seq<char>>::empty());
    }
}

/// Reading any number of chunks emits, as lines, the texts of the complete
/// lines of all the bytes read, in order, and leaves the rest as the
/// unfinished line: what was read, not how it was cut into reads, decides
/// the lines.
pub proof fn law_lines_of_any_reads(r: LineReaderView, chunks: Seq<Seq<u8>>)
    ensures
        line_texts(feed_all(r, chunks).1) == scan_lines(r.pending, chunks.flatten()).0.map_values(
            |l: Seq<u8>| line_text(l),
        ),
        feed_all(r, chunks).0.pending == scan_lines(r.pending, chunks.flatten()).1,
    decreases chunks.len(),
{
    if chunks.len() == 0 {
        assert(chunks.flatten() =~= Seq::<u8>::empty());
        assert(scan_lines(r.pending, chunks.flatten()).0.map_values(|l: Seq<u8>| line_text(l))
            =~= Seq::<Seq<char>>::empty());
    } else {
        let init = chunks.drop_last();
        let c = chunks.last();
        law_lines_of_any_reads(r, init);
        assert(chunks =~= init.push(c));
        init.lemma_flatten_push(c);
        let f = init.flatten();
        let prev = feed_all(r, init);
        lemma_lines_independent_of_chunking(r.pending, f, c);
        let lines_a = scan_lines(r.pending, f).0;
        let lines_b = scan_lines(prev.0.pending, c).0;
        let o = feed_outcome(prev.0, c);
        let tail = if o.2 {
            seq![MessageView::PasswordPrompt(trim(utf8_lossy(o.1)))]
        } else {
            Seq::<MessageView>::empty()
        };
        let mb = lines_b.map_values(|l: Seq<u8>| line_message(l));
        assert(feed_messages(prev.0, c) == mb + tail);
        lemma_line_texts_add(prev.1, mb + tail);
        lemma_line_texts_add(mb, tail);
        lemma_line_texts_of_lines(lines_b);
        if o.2 {
            assert(tail.drop_last() =~= Seq::<MessageView>::empty());
            assert(line_texts(tail.drop_last()) =~= Seq::<Seq<char>>::empty());
            assert(tail.last() is PasswordPrompt);
            assert(line_texts(tail) == line_texts(tail.drop_last()));
        }
        assert(line_texts(tail) =~= Seq::<Seq<char>>::empty());
        assert((lines_a + lines_b).map_values(|l: Seq<u8>| line_text(l)) =~= lines_a.map_values(
            |l: Seq<u8>| line_text(l),
        ) + lines_b.map_values(|l: Seq<u8>| line_text(l)));
        assert(line_texts(mb) + line_texts(tail) =~= line_texts(mb));
    }
}

/// Two ways of cutting the same bytes into reads give the same lines and
/// leave the same unfinished line.
pub proof fn law_lines_independent_of_reads(
    r: LineReaderView,
    reads1: Seq<Seq<u8>>,
    reads2: Seq<Seq<u8>>,
)
    requires
        reads1.flatten() == reads2.flatten(),
    ensures
        line_texts(feed_all(r, reads1).1) == line_texts(feed_all(r, reads2).1),
        feed_all(r, reads1).0.pending == feed_all(r, reads2).0.pending,
{
    law_lines_of_any_reads(r, reads1);
    law_lines_of_any_reads(r, reads2);
}

/// No message reports an end, and no two prompts follow each other: a line
/// always comes between two prompts.
pub open spec fn prompts_apart(ms: Seq<MessageView>) -> bool {
    &&& forall|i: int| 0 <= i < ms.len() ==> !(#[trigger] ms[i] is Finished)
    &&& forall|i: int, j: int|
        #![trigger ms[i], ms[j]]
        0 <= i && j == i + 1 && j < ms.len() && ms[i] is PasswordPrompt ==> !(ms[j] is PasswordPrompt)
}

/// From a reader that has not reported a prompt, whatever is read: prompts
/// come apart, and the reader counts a prompt as reported exactly when the
/// last message it emitted is a prompt.
pub proof fn law_prompts_come_apart(r: LineReaderView, chunks: Seq<Seq<u8>>)
    requires
        !r.prompt_signaled,
    ensures
        prompts_apart(feed_all(r, chunks).1),
        feed_all(r, chunks).0.prompt_signaled == (feed_all(r, chunks).1.len() > 0 && feed_all(
            r,
            chunks,
        ).1.last() is PasswordPrompt),
    decreases chunks.len(),
{
    if chunks.len() > 0 {
        let init = chunks.drop_last();
        let c = chunks.last();
        law_prompts_come_apart(r, init);
        let prev = feed_all(r, init);
        let m0 = prev.1;
        let o = feed_outcome(prev.0, c);
        let lines_b = o.0;
        let mb = lines_b.map_values(|l: Seq<u8>| line_message(l));
        let tail = if o.2 {
            seq![MessageView::PasswordPrompt(trim(utf8_lossy(o.1)))]
        } else {
            Seq::<MessageView>::empty()
        };
        assert(feed_messages(prev.0, c) == mb + tail);
        let ms = m0 + (mb + tail);
        assert(feed_all(r, chunks).1 == ms);
        let n0 = m0.len();
        let nb = mb.len();
        assert forall|x: int| n0 <= x < n0 + nb implies (#[trigger] ms[x]) is Line by {
            assert(ms[x] == mb[x - n0]);
        }
        assert forall|x: int| 0 <= x < ms.len() implies !(#[trigger] ms[x] is Finished) by {
            if x < n0 {
                assert(ms[x] == m0[x]);
            } else if x < n0 + nb {
                assert(ms[x] is Line);
            } else {
                assert(ms[x] == tail[x - n0 - nb]);
            }
        }
        assert forall|i: int, j: int|
            #![trigger ms[i], ms[j]]
            0 <= i && j == i + 1 && j < ms.len() && ms[i] is PasswordPrompt implies !(
            ms[j] is PasswordPrompt) by {
            if j < n0 {
                assert(ms[i] == m0[i] && ms[j] == m0[j]);
            } else if j < n0 + nb {
                assert(ms[j] is Line);
            } else if i < n0 + nb && i >= n0 {
                assert(ms[i] is Line);
            } else {
                // j is the prompt at the end, right after the earlier messages
                assert(j == ms.len() - 1);
                assert(nb == 0 && i == n0 - 1);
                assert(ms[i] == m0.last());
            }
        }
        if ms.len() > 0 {
            if o.2 {
                assert(ms.last() == tail[0]);
            } else if nb > 0 {
                assert(ms.last() == ms[n0 + nb - 1]);
                assert(ms.last() is Line);
            } else {
                assert(ms =~= m0);
            }
        }
    }
}

/// A read that leaves an unfinished line recognised as a password prompt,
/// not yet reported (nothing reported before, or a line ended in this
/// read), reports it: after the messages for the lines it completed comes
/// exactly one `PasswordPrompt` with the trimmed text of that line, and the
/// reader then counts the prompt as reported.
pub proof fn law_recognised_prompt_is_reported(r: LineReaderView, chunk: Seq<u8>)
    requires
        scan_lines(r.pending, chunk).1.len() > 0,
        scan_lines(r.pending, chunk).0.len() > 0 || !r.prompt_signaled,
        is_password_prompt(utf8_lossy(scan_lines(r.pending, chunk).1)),
    ensures
        feed_messages(r, chunk) == scan_lines(r.pending, chunk).0.map_values(
            |l: Seq<u8>| line_message(l),
        ).push(MessageView::PasswordPrompt(trim(utf8_lossy(scan_lines(r.pending, chunk).1)))),
        feed_outcome(r, chunk).1 == scan_lines(r.pending, chunk).1,
        feed_outcome(r, chunk).3,
{
    let (lines, rest) = scan_lines(r.pending, chunk);
    let mb = lines.map_values(|l: Seq<u8>| line_message(l));
    let pm = MessageView::PasswordPrompt(trim(utf8_lossy(rest)));
    assert(mb + seq![pm] =~= mb.push(pm));
}

/// A read reports no prompt when its unfinished line is empty, is not
/// recognised as a password prompt, or was already reported with no line
/// ended since: only the lines it completed are reported.
pub proof fn law_unrecognised_line_reports_no_prompt(r: LineReaderView, chunk: Seq<u8>)
    requires
        scan_lines(r.pending, chunk).1.len() == 0 || !is_password_prompt(
            utf8_lossy(scan_lines(r.pending, chunk).1),
        ) || (scan_lines(r.pending, chunk).0.len() == 0 && r.prompt_signaled),
    ensures
        feed_messages(r, chunk) == scan_lines(r.pending, chunk).0.map_values(
            |l: Seq<u8>| line_message(l),
        ),
        feed_outcome(r, chunk).1 == scan_lines(r.pending, chunk).1,
        feed_outcome(r, chunk).3 == (scan_lines(r.pending, chunk).0.len() == 0 && r.prompt_signaled),
{
    let (lines, rest) = scan_lines(r.pending, chunk);
    let mb = lines.map_values(|l: Seq<u8>| line_message(l));
    assert(mb + Seq::<MessageView>::empty() =~= mb);
}

/// A password prompt is reported once per unfinished line: once reported,
/// output that does not end the line reports nothing more, and the line
/// keeps growing.
pub proof fn law_prompt_reported_once_per_line(r: LineReaderView, chunk: Seq<u8>)
    requires
        r.prompt_signaled,
        !chunk.contains(10u8),
    ensures
        feed_messages(r, chunk) == Seq::<MessageView>::empty(),
        feed_outcome(r, chunk).1 == r.pending + chunk,
        feed_outcome(r, chunk).3,
{
    lemma_scan_without_line_feed(r.pending, chunk);
    assert(feed_messages(r, chunk) =~= Seq::<MessageView>::empty());
}

impl LineReader {
    /// The unfinished line never holds a line feed.
    #[verifier::type_invariant]
    spec fn pending_is_unfinished(self) -> bool {
        !self.pending@.contains(10u8)
    }

    /// A reader at the start of a stream.
    pub fn new() -> (r: Self)
        ensures
            r@.pending == Seq::<u8>::empty(),
            !r@.prompt_signaled,
    {
        LineReader { pending: Vec::new(), prompt_signaled: false }
    }

    /// Reads one chunk of output: emits a `Line` for each line the chunk
    /// completes, then a `PasswordPrompt` when the unfinished line looks like
    /// a password prompt that was not yet reported since the last line feed.
    pub fn feed(&mut self, chunk: &[u8]) -> (out: Vec<UpdateMessage>)
        ensures
            ({
                let o = feed_outcome(old(self)@, chunk@);
                &&& final(self)@.pending == o.1
                &&& final(self)@.prompt_signaled == o.3
            }),
            message_views(out@) == feed_messages(old(self)@, chunk@),
            forall|i: int| 0 <= i < out@.len() ==> message_shape(#[trigger] out@[i]@),
    {
        proof {
            use_type_invariant(&*self);
        }
        let mut pending: Vec<u8> = Vec::new();
        std::mem::swap(&mut pending, &mut self.pending);
        let ghost start = pending@;
        let mut out: Vec<UpdateMessage> = Vec::new();
        let mut any_line = false;
        let mut j: usize = 0;
        proof {
            assert(chunk@.take(0) =~= Seq::<u8>::empty());
            assert(message_views(out@) =~= Seq::<MessageView>::empty());
        }
        while j < chunk.len()
            invariant
                j <= chunk@.len(),
                ({
                    let s = scan_lines(start, chunk@.take(j as int));
                    &&& pending@ == s.1
                    &&& any_line == (s.0.len() > 0)
                    &&& message_views(out@) == s.0.map_values(|l: Seq<u8>| line_message(l))
                }),
                self.prompt_signaled == old(self)@.prompt_signaled,
                start == old(self)@.pending,
                !pending@.contains(10u8),
                forall|i: int| 0 <= i < out@.len() ==> message_shape(#[trigger] out@[i]@),
            decreases chunk@.len() - j,
        {
            let b = chunk[j];
            let ghost before = scan_lines(start, chunk@.take(j as int));
            proof {
                assert(chunk@.take(j + 1).drop_last() =~= chunk@.take(j as int));
            }
            if b == 10u8 {
                let ghost line = pending@.push(10u8);
                proof {
                    assert(line.drop_last() =~= pending@);
                }
                let text = lossy_string(pending.as_slice());
                let stripped = strip_line_endings(text.as_str());
                proof {
                    lemma_strip_eol_prefix(text@);
                    assert(!stripped@.contains('\n')) by {
                        if stripped@.contains('\n') {
                            let k = choose|k: int| 0 <= k < stripped@.len() && stripped@[k] == '\n';
                            assert(text@[k] == '\n');
                        }
                    }
                }
                let ghost out_before = out@;
                out.push(UpdateMessage::Line(stripped));
                proof {
                    assert forall|i: int| 0 <= i < out@.len() implies message_shape(
                        #[trigger] out@[i]@,
                    ) by {
                        if i < out_before.len() {
                            assert(out@[i] == out_before[i]);
                        }
                    }
                }
                pending = Vec::new();
                any_line = true;
                proof {
                    assert(message_views(out@) =~= message_views(out_before).push(
                        line_message(line),
                    ));
                    assert(before.0.push(line).map_values(|l: Seq<u8>| line_message(l))
                        =~= before.0.map_values(|l: Seq<u8>| line_message(l)).push(
                        line_message(line),
                    ));
                    assert(pending@ =~= Seq::<u8>::empty());
                }
            } else {
                let ghost p0 = pending@;
                pending.push(b);
                proof {
                    assert(!pending@.contains(10u8)) by {
                        if pending@.contains(10u8) {
                            let k = choose|k: int| 0 <= k < pending@.len() && pending@[k] == 10u8;
                            if k < p0.len() {
                                assert(p0[k] == 10u8);
                            }
                        }
                    }
                }
            }
            j = j + 1;
        }
        proof {
            assert(chunk@.take(chunk@.len() as int) =~= chunk@);
        }
        self.pending = pending;
        if any_line {
            self.prompt_signaled = false;
        }
        if self.pending.len() > 0 && !self.prompt_signaled {
            let partial = lossy_string(self.pending.as_slice());
            if looks_like_password_prompt(partial.as_str()) {
                let shown = trim_str(partial.as_str());
                let ghost before_out = out@;
                out.push(UpdateMessage::PasswordPrompt(shown));
                self.prompt_signaled = true;
                proof {
                    assert(message_views(out@) =~= message_views(before_out).push(
                        MessageView::PasswordPrompt(trim(utf8_lossy(self.pending@))),
                    ));
                    lemma_prompt_shape(partial@);
                    assert forall|i: int| 0 <= i < out@.len() implies message_shape(
                        #[trigger] out@[i]@,
                    ) by {
                        if i < before_out.len() {
                            assert(out@[i] == before_out[i]);
                        }
                    }
                }
            }
        }
        proof {
            let o = feed_outcome(old(self)@, chunk@);
            if !o.2 {
                assert(message_views(out@) =~= message_views(out@) + Seq::<MessageView>::empty());
            }
        }
        out
    }

    /// The end of the stream: the unfinished line, if anything is left of it
    /// once its line endings are removed.
    pub fn finish(&self) -> (m: Option<UpdateMessage>)
        ensures
            ({
                let rest = strip_eol(utf8_lossy(self@.pending));
                &&& rest.len() == 0 ==> m is None
                &&& rest.len() > 0 ==> (m matches Some(msg) && msg@ == MessageView::Line(rest))
            }),
            m matches Some(msg) ==> message_shape(msg@),
    {
        proof {
            use_type_invariant(self);
        }
        let text = lossy_string(self.pending.as_slice());
        let rest = strip_line_endings(text.as_str());
        proof {
            lemma_strip_eol_prefix(text@);
            assert(!rest@.contains('\n')) by {
                if rest@.contains('\n') {
                    let k = choose|k: int| 0 <= k < rest@.len() && rest@[k] == '\n';
                    assert(text@[k] == '\n');
                }
            }
        }
        if rest.as_str().is_empty() {
            None
        } else {
            Some(UpdateMessage::Line(rest))
        }
    }
}

/// The bytes of a string (`String::into_bytes`): its UTF-8 encoding, in the
/// buffer the string held.
#[verifier::external_body]
pub(crate) fn into_bytes(s: String) -> (b: Vec<u8>)
    ensures
        b@ == encode_utf8(s@),
{
    s.into_bytes()
}

/// What is written to the terminal of a script waiting for a password: the
/// password's UTF-8 bytes followed by a line feed.
pub fn password_line(password: String) -> (bytes: Vec<u8>)
    ensures
        bytes@ == encode_utf8(password@).push(10u8),
{
    let mut bytes = into_bytes(password);
    bytes.push(10u8);
    bytes
}

/// Overwrites every byte with zero, so that a secret does not linger.
pub fn wipe(bytes: &mut Vec<u8>)
    ensures
        final(bytes)@.len() == old(bytes)@.len(),
        forall|i: int| 0 <= i < final(bytes)@.len() ==> final(bytes)@[i] == 0u8,
{
    let mut i: usize = 0;
    while i < bytes.len()
        invariant
            i <= bytes@.len(),
            bytes@.len() == old(bytes)@.len(),
            forall|k: int| 0 <= k < i ==> bytes@[k] == 0u8,
        decreases bytes@.len() - i,
    {
        bytes.set(i, 0u8);
        i = i + 1;
    }
}

} // verus!
