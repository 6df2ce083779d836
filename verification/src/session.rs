//! Session logs of LLM conversations: the session header, the on-disk
//! layout of the JSONL store, crash-truncation repair, and which entries
//! make up the context sent to the model after compaction.

use std::path::PathBuf;
use vstd::prelude::*;
use crate::error::AgentError;
use vstd::string::StringSliceAdditionalSpecFns;
use crate::text::{
    chars_of, concat2, concat3, int_decimal, lemma_split_len, lemma_split_step, push_char, split_on,
    str_eq, strs_view, usize_to_string,
};

verus! {

/// `std::path::PathBuf`, an owned file-system path.
#[verifier::external_type_specification]
#[verifier::external_body]
pub struct ExPathBuf(std::path::PathBuf);

/// `PathBuf::clone`: a copy of the path.
pub assume_specification[ <std::path::PathBuf as Clone>::clone ](p: &PathBuf) -> (r: PathBuf)
    ensures
        r == *p,
;

/// The schema version written by this library.
pub fn default_version() -> (r: u32)
    ensures
        r == 1,
{
    1
}

/// Whether `c` is a lowercase hexadecimal digit.
pub open spec fn is_lower_hex(c: char) -> bool {
    ('0' <= c <= '9') || ('a' <= c <= 'f')
}

/// The hyphenated lowercase form of a version-4 UUID:
/// `xxxxxxxx-xxxx-4xxx-xxxx-xxxxxxxxxxxx`.
pub open spec fn is_uuid_v4_text(s: Seq<char>) -> bool {
    &&& s.len() == 36
    &&& forall|i: int|
        0 <= i < 36 ==> if i == 8 || i == 13 || i == 18 || i == 23 {
            #[trigger] s[i] == '-'
        } else {
            is_lower_hex(s[i])
        }
    &&& s[14] == '4'
}

/// `uuid::Uuid::new_v4().to_string()`: a fresh random UUID in hyphenated
/// lowercase form. The value is random, so only its shape is stated.
#[verifier::external_body]
fn new_uuid() -> (r: String)
    ensures
        is_uuid_v4_text(r@),
{
    uuid::Uuid::new_v4().to_string()
}

/// An RFC 3339 timestamp in UTC as `chrono` writes it: at least
/// `YYYY-MM-DDTHH:MM:SS` (19 characters, more with a fraction of a second or
/// a year outside 0..=9999) followed by the zero offset `+00:00`.
pub open spec fn is_utc_rfc3339_text(s: Seq<char>) -> bool {
    &&& s.len() >= 25
    &&& s.skip(s.len() - 6) == "+00:00"@
}

/// `chrono::Utc::now().to_rfc3339()`: the current time as an RFC 3339
/// timestamp. The value depends on the clock, so only its shape is stated:
/// `to_rfc3339` writes the date and time (a four-digit year, or a signed
/// year of at least five characters) and then the UTC offset as `+00:00`.
#[verifier::external_body]
fn now_rfc3339() -> (r: String)
    ensures
        is_utc_rfc3339_text(r@),
{
    chrono::Utc::now().to_rfc3339()
}

/// Header metadata identifying one session.
///
/// Serialized as the first line of a JSONL session file. Unknown fields are
/// ignored and optional fields default on deserialization, so files written
/// by newer versions still parse where possible.
#[derive(Debug, Clone, PartialEq, Eq)]
pub struct SessionMeta {
    /// Unique session id (UUID v4), unique across process restarts.
    pub id: String,
    /// Schema version of the session file. Currently always 1.
    pub version: u32,
    /// Reserved for future session forking; always `None` for now.
    pub parent_session: Option<String>,
    /// RFC3339 creation timestamp.
    pub created_at: String,
}

impl SessionMeta {
    /// Creates a header for a new session with a freshly generated UUID v4
    /// id and the current time as `created_at`.
    pub fn new() -> (r: Self)
        ensures
            is_uuid_v4_text(r.id@),
            r.version == 1,
            r.parent_session is None,
            is_utc_rfc3339_text(r.created_at@),
    {
        SessionMeta { id: new_uuid(), version: 1, parent_session: None, created_at: now_rfc3339() }
    }
}

/// Creates a fresh unique entry id (UUID v4).
pub fn new_entry_id() -> (r: String)
    ensures
        is_uuid_v4_text(r@),
{
    new_uuid()
}

/// The current time as an RFC 3339 timestamp in UTC. The value depends on
/// the clock; every outcome ends with the offset `+00:00`.
pub fn timestamp_now() -> (r: String)
    ensures
        is_utc_rfc3339_text(r@),
{
    now_rfc3339()
}

/// The message of the error for an unknown session.
pub open spec fn session_not_found_message(session_id: Seq<char>) -> Seq<char> {
    "Session not found: "@ + session_id
}

/// The error for an unknown session.
pub fn session_not_found(session_id: &str) -> (r: AgentError)
    ensures
        r matches AgentError::Other(m) && m@ == session_not_found_message(session_id@),
{
    AgentError::Other(concat2("Session not found: ", session_id))
}

/// The name of a session's file in the store directory: `<id>.jsonl`.
pub open spec fn session_file(session_id: Seq<char>) -> Seq<char> {
    session_id + ".jsonl"@
}

/// The path `dir` joined with `name`, as `Path::join` computes it.
pub uninterp spec fn joined_path(dir: PathBuf, name: Seq<char>) -> PathBuf;

/// `Path::join`: the path `dir` followed by `name`. A pure function of its
/// arguments, so its result is named rather than spelled out.
#[verifier::external_body]
fn path_join(dir: &PathBuf, name: &str) -> (r: PathBuf)
    ensures
        r == joined_path(*dir, name@),
{
    dir.join(name)
}

/// Persistent session store writing one JSONL file per session.
///
/// Each session `<id>` lives in `<dir>/<id>.jsonl`: line 1 is the
/// [`SessionMeta`] header as JSON, and every following line is one entry
/// as JSON. A partially written final line (a crash-truncated tail without
/// a trailing newline) is discarded and truncated from the file when
/// loading, so later appends stay line-aligned.
#[derive(Debug, Clone)]
pub struct JsonlSessionStore {
    dir: PathBuf,
}

impl JsonlSessionStore {
    /// The directory holding the session files.
    pub closed spec fn spec_dir(&self) -> PathBuf {
        self.dir
    }

    /// Creates a store rooted at `dir`. The directory is created lazily on
    /// the first session creation.
    pub fn new(dir: PathBuf) -> (r: Self)
        ensures
            r.spec_dir() == dir,
    {
        JsonlSessionStore { dir }
    }

    /// The directory holding the session files.
    pub fn dir(&self) -> (r: &PathBuf)
        ensures
            *r == self.spec_dir(),
    {
        &self.dir
    }

    /// The file of the session `session_id`: `<dir>/<session_id>.jsonl`.
    pub fn session_path(&self, session_id: &str) -> (r: PathBuf)
        ensures
            r == joined_path(self.spec_dir(), session_file(session_id@)),
    {
        let name = concat2(session_id, ".jsonl");
        path_join(&self.dir, name.as_str())
    }
}

/// The length of the part of a session file made of complete lines: up to
/// and including its last newline byte (0 without one).
pub open spec fn complete_len(content: Seq<u8>) -> nat
    decreases content.len(),
{
    if content.len() == 0 {
        0
    } else if content.last() == 10 {
        content.len()
    } else {
        complete_len(content.drop_last())
    }
}

/// The byte length of the complete lines of a session file's content.
/// Every successful append ends with a newline, so bytes after the last one
/// are a crash-truncated in-flight entry to discard.
pub fn complete_lines_len(content: &str) -> (r: usize)
    ensures
        r == complete_len(content.spec_bytes()),
        r <= content.spec_bytes().len(),
{
    let bytes = content.as_bytes();
    let mut n = bytes.len();
    assert(bytes@.take(n as int) =~= bytes@);
    while n > 0 && bytes[n - 1] != 10
        invariant
            n <= bytes@.len(),
            bytes@ == content.spec_bytes(),
            complete_len(bytes@) == complete_len(bytes@.take(n as int)),
        decreases n,
    {
        assert(bytes@.take(n as int).drop_last() =~= bytes@.take(n - 1));
        n = n - 1;
    }
    proof {
        assert(bytes@.take(bytes@.len() as int) =~= bytes@);
        if n > 0 {
            assert(bytes@.take(n as int).last() == bytes@[n - 1]);
        }
    }
    n
}

/// A line as `str::lines` yields it: without one trailing carriage return.
pub open spec fn without_cr(line: Seq<char>) -> Seq<char> {
    if line.len() > 0 && line.last() == '\r' {
        line.drop_last()
    } else {
        line
    }
}

/// The complete lines of a session file's text, as `str::lines` yields
/// them from the part up to the last newline; the text after the last
/// newline is a crash-truncated entry and is left out.
pub open spec fn session_lines_of(content: Seq<char>) -> Seq<Seq<char>> {
    split_on(content, '\n').drop_last().map_values(|l: Seq<char>| without_cr(l))
}

/// The complete lines of a session file's text, header line first.
pub fn session_lines(content: &str) -> (r: Vec<String>)
    ensures
        strs_view(r@) == session_lines_of(content@),
{
    let chars = chars_of(content);
    let n = chars.len();
    let mut lines: Vec<String> = Vec::new();
    let mut cur = String::new();
    let mut i: usize = 0;
    proof {
        assert(chars@.take(0) =~= Seq::<char>::empty());
        assert(split_on(Seq::<char>::empty(), '\n') =~= seq![Seq::<char>::empty()]);
    }
    while i < n
        invariant
            n == chars@.len(),
            chars@ == content@,
            i <= n,
            split_on(chars@.take(i as int), '\n').len() >= 1,
            cur@ == split_on(chars@.take(i as int), '\n').last(),
            strs_view(lines@) == split_on(chars@.take(i as int), '\n').drop_last().map_values(
                |l: Seq<char>| without_cr(l),
            ),
        decreases n - i,
    {
        proof {
            lemma_split_step(chars@, '\n', i as int);
            lemma_split_len(chars@.take(i + 1), '\n');
        }
        let ghost prev = split_on(chars@.take(i as int), '\n');
        let ghost next = split_on(chars@.take(i + 1), '\n');
        let c = chars[i];
        if c == '\n' {
            let mut line = String::new();
            let m = cur.unicode_len();
            let keep = if m > 0 && cur.get_char(m - 1) == '\r' {
                m - 1
            } else {
                m
            };
            let cur_chars = chars_of(cur.as_str());
            let mut j: usize = 0;
            while j < keep
                invariant
                    keep <= cur_chars@.len(),
                    j <= keep,
                    line@ == cur_chars@.take(j as int),
                decreases keep - j,
            {
                push_char(&mut line, cur_chars[j]);
                assert(line@ == cur_chars@.take(j + 1));
                j = j + 1;
            }
            proof {
                assert(line@ == without_cr(prev.last()));
                assert(next.drop_last() =~= prev);
                assert(strs_view(lines@.push(line)) =~= strs_view(lines@).push(line@));
                assert(next.drop_last().map_values(|l: Seq<char>| without_cr(l)) =~= prev.drop_last().map_values(
                    |l: Seq<char>| without_cr(l),
                ).push(without_cr(prev.last())));
            }
            lines.push(line);
            cur = String::new();
            proof {
                assert(cur@ =~= next.last());
            }
        } else {
            push_char(&mut cur, c);
            proof {
                assert(next.drop_last() =~= prev.drop_last());
            }
        }
        i = i + 1;
    }
    proof {
        assert(chars@.take(n as int) =~= chars@);
    }
    lines
}

/// Splitting text that continues without a newline only extends the last
/// segment.
proof fn lemma_split_extends(c: Seq<char>, s: Seq<char>)
    requires
        !s.contains('\n'),
    ensures
        split_on(c + s, '\n').len() == split_on(c, '\n').len(),
        split_on(c + s, '\n') == split_on(c, '\n').update(
            split_on(c, '\n').len() - 1,
            split_on(c, '\n').last() + s,
        ),
    decreases s.len(),
{
    lemma_split_len(c, '\n');
    if s.len() == 0 {
        assert(c + s =~= c);
        assert(split_on(c, '\n').last() + s =~= split_on(c, '\n').last());
        assert(split_on(c, '\n').update(split_on(c, '\n').len() - 1, split_on(c, '\n').last())
            =~= split_on(c, '\n'));
    } else {
        let t = s.drop_last();
        assert(!t.contains('\n')) by {
            if t.contains('\n') {
                let k = choose|k: int| 0 <= k < t.len() && t[k] == '\n';
                assert(s[k] == '\n');
            }
        }
        assert(s.last() != '\n') by {
            assert(s[s.len() - 1] == s.last());
        }
        lemma_split_extends(c, t);
        assert((c + s).drop_last() =~= c + t);
        assert((c + s).last() == s.last());
        assert(split_on(c, '\n').last() + t + seq![s.last()] =~= split_on(c, '\n').last() + s);
        assert((split_on(c, '\n').last() + t).push(s.last()) =~= split_on(c, '\n').last() + s);
        assert(split_on(c + s, '\n') =~= split_on(c, '\n').update(
            split_on(c, '\n').len() - 1,
            split_on(c, '\n').last() + s,
        ));
    }
}

/// Text after the last newline never shows among the lines: a
/// crash-truncated entry leaves the lines before it as they were.
pub proof fn law_truncated_tail_is_ignored(content: Seq<char>, fragment: Seq<char>)
    requires
        !fragment.contains('\n'),
    ensures
        session_lines_of(content + fragment) == session_lines_of(content),
{
    lemma_split_extends(content, fragment);
    lemma_split_len(content, '\n');
    let a = split_on(content + fragment, '\n');
    let b = split_on(content, '\n');
    assert(a.drop_last() =~= b.drop_last());
}

/// A line appended, newline-terminated, after complete lines is read back
/// as the last line, after the lines that were there.
pub proof fn law_appended_line_is_read_back(content: Seq<char>, line: Seq<char>)
    requires
        content.len() == 0 || content.last() == '\n',
        !line.contains('\n'),
        line.len() == 0 || line.last() != '\r',
    ensures
        session_lines_of(content + line + "\n"@) == session_lines_of(content).push(line),
{
    reveal_strlit("\n");
    lemma_split_extends(content, line);
    lemma_split_len(content, '\n');
    let b = split_on(content, '\n');
    if content.len() == 0 {
        assert(b =~= seq![Seq::<char>::empty()]);
    } else {
        assert(b == split_on(content.drop_last(), '\n').push(Seq::empty()));
    }
    assert(b.last() =~= Seq::<char>::empty());
    let whole = content + line + "\n"@;
    assert(whole.drop_last() =~= content + line);
    assert(whole.last() == '\n');
    let a = split_on(content + line, '\n');
    assert(split_on(whole, '\n') == a.push(Seq::empty()));
    assert(b.last() + line =~= line);
    assert(split_on(whole, '\n').drop_last() =~= b.drop_last().push(line));
    assert(without_cr(line) == line);
    assert(b.drop_last().push(line).map_values(|l: Seq<char>| without_cr(l)) =~= b.drop_last().map_values(
        |l: Seq<char>| without_cr(l),
    ).push(line));
}

/// The complete part of a session file's text: up to and including its
/// last newline, empty without one. Loading cuts the file back to it.
pub open spec fn complete_prefix(content: Seq<char>) -> Seq<char>
    decreases content.len(),
{
    if content.len() == 0 || content.last() == '\n' {
        content
    } else {
        complete_prefix(content.drop_last())
    }
}

/// The text is its complete part followed by a tail without a newline, and
/// the complete part is empty or ends with a newline.
proof fn lemma_complete_prefix(content: Seq<char>)
    ensures
        content.len() >= complete_prefix(content).len(),
        content == complete_prefix(content) + content.skip(complete_prefix(content).len() as int),
        !content.skip(complete_prefix(content).len() as int).contains('\n'),
        complete_prefix(content).len() == 0 || complete_prefix(content).last() == '\n',
    decreases content.len(),
{
    let p = complete_prefix(content);
    if content.len() == 0 || content.last() == '\n' {
        assert(content.skip(content.len() as int) =~= Seq::<char>::empty());
        assert(content =~= content + Seq::<char>::empty());
    } else {
        let d = content.drop_last();
        lemma_complete_prefix(d);
        assert(p == complete_prefix(d));
        let t = d.skip(p.len() as int);
        assert(d == p + t);
        assert(content =~= d.push(content.last()));
        assert(p + t.push(content.last()) =~= (p + t).push(content.last()));
        assert(content.skip(p.len() as int) =~= t.push(content.last()));
        assert(content =~= p + content.skip(p.len() as int));
        assert(!content.skip(p.len() as int).contains('\n')) by {
            let u = content.skip(p.len() as int);
            if u.contains('\n') {
                let k = choose|k: int| 0 <= k < u.len() && u[k] == '\n';
                if k < t.len() {
                    assert(t[k] == '\n');
                } else {
                    assert(u[k] == content.last());
                }
            }
        }
    }
}

/// Loading a session file whose last entry was cut off by a crash gives the
/// lines of its complete part, and after the file is cut back to that part,
/// a newly appended line is read back after them: the lines stay aligned.
pub proof fn law_repaired_file_takes_appends(content: Seq<char>, line: Seq<char>)
    requires
        !line.contains('\n'),
        line.len() == 0 || line.last() != '\r',
    ensures
        session_lines_of(complete_prefix(content)) == session_lines_of(content),
        session_lines_of(complete_prefix(content) + line + "\n"@) == session_lines_of(content).push(
            line,
        ),
{
    lemma_complete_prefix(content);
    let p = complete_prefix(content);
    let tail = content.skip(p.len() as int);
    law_truncated_tail_is_ignored(p, tail);
    law_appended_line_is_read_back(p, line);
}

/// The error for a session file without its header line.
pub fn empty_session_error(session_id: &str) -> (r: AgentError)
    ensures
        r matches AgentError::JsonParseError(m) && m@ == "Session file for "@ + session_id@
            + " is empty (missing header line)"@,
{
    AgentError::JsonParseError(
        concat3("Session file for ", session_id, " is empty (missing header line)"),
    )
}

/// The error for a session file whose header line does not parse; `detail`
/// is the parser's message.
pub fn invalid_header_error(session_id: &str, detail: &str) -> (r: AgentError)
    ensures
        r matches AgentError::JsonParseError(m) && m@ == "Invalid session header for "@
            + session_id@ + ": "@ + detail@,
{
    let head = concat3("Invalid session header for ", session_id, ": ");
    AgentError::JsonParseError(concat2(head.as_str(), detail))
}

/// The error for an entry line that does not parse. `index` counts the
/// entries from 0; the header is line 1 of the file, so the entry stands on
/// line `index + 2`. `detail` is the parser's message.
pub fn invalid_entry_error(index: usize, session_id: &str, detail: &str) -> (r: AgentError)
    requires
        index + 2 <= usize::MAX,
    ensures
        r matches AgentError::JsonParseError(m) && m@ == "Invalid entry at line "@ + int_decimal(
            index + 2,
        ) + " of session "@ + session_id@ + ": "@ + detail@,
{
    let line_no = usize_to_string(index + 2);
    let head = concat3("Invalid entry at line ", line_no.as_str(), " of session ");
    let mid = concat3(head.as_str(), session_id, ": ");
    AgentError::JsonParseError(concat2(mid.as_str(), detail))
}

/// What context building reads of a log entry: a message entry's id, or a
/// compaction's summary and the id of the first message it keeps.
pub enum EntryHead {
    /// A finalized chat message.
    Message {
        /// Unique entry id.
        id: String,
    },
    /// A non-destructive compaction marker.
    Compaction {
        /// Summary of the history preceding `first_kept_id`.
        summary: String,
        /// Entry id of the first message kept verbatim.
        first_kept_id: String,
    },
}

/// Which entries make up the context sent to the model: an optional
/// summary text that opens it (as a user message), then the messages of the
/// listed entries, in order.
pub struct ContextPlan {
    /// The text of the leading summary message, after a compaction.
    pub summary: Option<String>,
    /// Positions of the message entries to include, in order.
    pub messages: Vec<usize>,
}

/// Position of the last compaction entry, if any.
pub open spec fn last_compaction(entries: Seq<EntryHead>) -> Option<int>
    decreases entries.len(),
{
    if entries.len() == 0 {
        None
    } else if entries.last() is Compaction {
        Some(entries.len() - 1)
    } else {
        last_compaction(entries.drop_last())
    }
}

/// Position of the first message entry with id `id`, if any.
pub open spec fn first_message_with_id(entries: Seq<EntryHead>, id: Seq<char>) -> Option<int>
    decreases entries.len(),
{
    if entries.len() == 0 {
        None
    } else {
        match first_message_with_id(entries.drop_last(), id) {
            Some(p) => Some(p),
            None => match entries.last() {
                EntryHead::Message { id: m } => if m@ == id {
                    Some(entries.len() - 1)
                } else {
                    None
                },
                _ => None,
            },
        }
    }
}

/// Positions, in order, of the message entries at or after `from`.
pub open spec fn messages_from(entries: Seq<EntryHead>, from: int) -> Seq<int>
    decreases entries.len(),
{
    if entries.len() == 0 {
        Seq::empty()
    } else {
        let r = messages_from(entries.drop_last(), from);
        if entries.last() is Message && entries.len() - 1 >= from {
            r.push(entries.len() - 1)
        } else {
            r
        }
    }
}

/// The context of an entry log. Without a compaction: every message, in
/// order. Otherwise the last compaction wins: a summary message
/// `[Conversation summary]\n<summary>` opens the context, followed by every
/// message from the one whose id is the compaction's `first_kept_id`, or,
/// when no message has that id, every message after the compaction.
pub open spec fn context_plan(entries: Seq<EntryHead>) -> (Option<Seq<char>>, Seq<int>) {
    match last_compaction(entries) {
        None => (None, messages_from(entries, 0)),
        Some(c) => match entries[c] {
            EntryHead::Compaction { summary, first_kept_id } => {
                let start = match first_message_with_id(entries, first_kept_id@) {
                    Some(p) => p,
                    None => c + 1,
                };
                (Some("[Conversation summary]\n"@ + summary@), messages_from(entries, start))
            },
            _ => (None, Seq::empty()),
        },
    }
}

/// Builds the plan of the LLM context from a session's entry log, honoring
/// the most recent compaction. Entries before the cut are left out of the
/// context only; the log itself keeps the full history.
pub fn plan_context(entries: &Vec<EntryHead>) -> (r: ContextPlan)
    ensures
        (r.summary.deep_view(), r.messages@.map_values(|p: usize| p as int)) == context_plan(
            entries@,
        ),
{
    let n = entries.len();
    // The last compaction, searched from the end.
    let mut c = n;
    assert(entries@.take(n as int) =~= entries@);
    while c > 0 && !entries[c - 1].is_compaction()
        invariant
            c <= n == entries@.len(),
            last_compaction(entries@) == last_compaction(entries@.take(c as int)),
        decreases c,
    {
        assert(entries@.take(c as int).drop_last() =~= entries@.take(c - 1));
        c = c - 1;
    }
    proof {
        if c == n {
            assert(entries@.take(n as int) =~= entries@);
        }
    }
    assert(entries@.take(n as int) =~= entries@);
    let (summary, start) = if c == 0 {
        assert(last_compaction(entries@.take(0)) is None);
        (None, 0)
    } else {
        assert(entries@.take(c as int).last() == entries@[c - 1]);
        match &entries[c - 1] {
            EntryHead::Compaction { summary, first_kept_id } => {
                let mut p: usize = 0;
                let mut found = false;
                while p < n && !found
                    invariant
                        p <= n == entries@.len(),
                        found ==> p < n && first_message_with_id(entries@.take(p + 1), first_kept_id@)
                            == Some(p as int),
                        !found ==> first_message_with_id(entries@.take(p as int), first_kept_id@)
                            is None,
                    decreases 2 * (n - p) + (if found { 0int } else { 1int }),
                {
                    assert(entries@.take(p + 1).drop_last() =~= entries@.take(p as int));
                    assert(entries@.take(p + 1).last() == entries@[p as int]);
                    let hit = match &entries[p] {
                        EntryHead::Message { id } => str_eq(id.as_str(), first_kept_id.as_str()),
                        _ => false,
                    };
                    if hit {
                        found = true;
                    } else {
                        p = p + 1;
                    }
                }
                proof {
                    if found {
                        lemma_first_message_extends(entries@, first_kept_id@, p + 1);
                    } else {
                        assert(entries@.take(n as int) =~= entries@);
                    }
                }
                let start = if found {
                    p
                } else {
                    c
                };
                (Some(concat2("[Conversation summary]\n", summary.as_str())), start)
            },
            EntryHead::Message { .. } => {
                assert(false);
                (None, 0)
            },
        }
    };
    let mut messages: Vec<usize> = Vec::new();
    let mut i: usize = start;
    assert(messages_from(entries@.take(start as int), start as int) =~= Seq::<int>::empty()) by {
        lemma_messages_before(entries@.take(start as int), start as int);
    }
    while i < n
        invariant
            start <= i <= n == entries@.len(),
            messages@.map_values(|p: usize| p as int) == messages_from(
                entries@.take(i as int),
                start as int,
            ),
        decreases n - i,
    {
        assert(entries@.take(i + 1).drop_last() =~= entries@.take(i as int));
        let is_message = match &entries[i] {
            EntryHead::Message { .. } => true,
            _ => false,
        };
        if is_message {
            let ghost prev = messages@.map_values(|p: usize| p as int);
            messages.push(i);
            assert(messages@.map_values(|p: usize| p as int) =~= prev.push(i as int));
        }
        i = i + 1;
    }
    ContextPlan { summary, messages }
}

/// A message found in a prefix of the log is the first one of the log.
proof fn lemma_first_message_extends(entries: Seq<EntryHead>, id: Seq<char>, k: int)
    requires
        0 <= k <= entries.len(),
        first_message_with_id(entries.take(k), id) is Some,
    ensures
        first_message_with_id(entries, id) == first_message_with_id(entries.take(k), id),
    decreases entries.len(),
{
    if k == entries.len() {
        assert(entries.take(k) =~= entries);
    } else {
        assert(entries.drop_last().take(k) =~= entries.take(k));
        lemma_first_message_extends(entries.drop_last(), id, k);
    }
}

impl EntryHead {
    /// Whether the entry is a compaction marker.
    pub fn is_compaction(&self) -> (r: bool)
        ensures
            r == (self is Compaction),
    {
        match self {
            EntryHead::Compaction { .. } => true,
            _ => false,
        }
    }
}

/// No message of a log shorter than `from` is at or after `from`.
proof fn lemma_messages_before(entries: Seq<EntryHead>, from: int)
    requires
        entries.len() <= from,
    ensures
        messages_from(entries, from) == Seq::<int>::empty(),
    decreases entries.len(),
{
    if entries.len() > 0 {
        lemma_messages_before(entries.drop_last(), from);
    }
}
} // verus!
