//! Tool metadata checks and the scheduling of tool-call batches.

use vstd::prelude::*;
use vstd::string::StringSliceAdditionalSpecFns;
use crate::connections::{entries_map, entry_keys, inserted, key_index, lemma_inserted, lemma_lookup_at};
use crate::error::AgentError;
use crate::text::{
    chars_of, concat2, concat3, i64_to_string, int_decimal, lemma_split_step, split_on, str_eq,
    string_from_chars, strs_view, trim, trim_str, join_strings, join_with,
};
use crate::tracking::{has_key, keys_unique, lookup};
use crate::value::{
    AgentValue, ValueView, fields_view, items_view, json_of, lemma_fields_view, lemma_items_view, value_view,
};

verus! {

/// How a tool may be scheduled relative to other calls in the same batch.
///
/// Tools with side effects (database writes, message posting, workflow
/// invocations) must stay [`Sequential`](ExecutionMode::Sequential) so their
/// effects happen one at a time and in input order.
/// [`Parallel`](ExecutionMode::Parallel) is opt-in for independent,
/// read-only tools where concurrent execution is safe.
#[derive(Clone, Copy, Debug, PartialEq, Eq, Structural)]
pub enum ExecutionMode {
    /// Never runs concurrently with any other tool call (the default).
    Sequential,
    /// May run concurrently with adjacent `Parallel` calls.
    Parallel,
}

impl Default for ExecutionMode {
    fn default() -> (r: Self)
        ensures
            r == ExecutionMode::Sequential,
    {
        ExecutionMode::Sequential
    }
}

/// Minimum description length (in characters) below which registration warns.
pub const MIN_DESCRIPTION_CHARS: usize = 10;

/// A byte allowed in a tool name: ASCII letter or digit, `_` or `-`.
pub open spec fn is_tool_name_byte(b: u8) -> bool {
    ||| (0x61 <= b <= 0x7A)  // a-z
    ||| (0x41 <= b <= 0x5A)  // A-Z
    ||| (0x30 <= b <= 0x39)  // 0-9
    ||| b == 0x5F  // _
    ||| b == 0x2D  // -
}

/// The `^[a-zA-Z0-9_-]{1,64}$` pattern required by the function-calling
/// APIs of LLM providers, over the UTF-8 bytes of the name.
pub open spec fn valid_tool_name(bytes: Seq<u8>) -> bool {
    &&& 1 <= bytes.len() <= 64
    &&& forall|i: int| 0 <= i < bytes.len() ==> is_tool_name_byte(#[trigger] bytes[i])
}

/// Returns whether a tool name satisfies the `^[a-zA-Z0-9_-]{1,64}$` pattern
/// required by the function-calling APIs.
pub fn is_valid_tool_name(name: &str) -> (r: bool)
    ensures
        r == valid_tool_name(name.spec_bytes()),
{
    let bytes = name.as_bytes();
    let len = bytes.len();
    if len < 1 || len > 64 {
        return false;
    }
    let mut i: usize = 0;
    while i < len
        invariant
            len == bytes@.len(),
            bytes@ == name.spec_bytes(),
            i <= len,
            forall|j: int| 0 <= j < i ==> is_tool_name_byte(#[trigger] bytes@[j]),
        decreases len - i,
    {
        let b = bytes[i];
        let ok = (0x61 <= b && b <= 0x7A) || (0x41 <= b && b <= 0x5A) || (0x30 <= b && b <= 0x39)
            || b == 0x5F || b == 0x2D;
        if !ok {
            return false;
        }
        i = i + 1;
    }
    true
}

/// Formats a string slice with `{:?}`: a quoted, escaped form.
pub uninterp spec fn debug_str(s: Seq<char>) -> Seq<char>;

/// `format!("{:?}", s)` for a string slice. The contract names the result
/// [`debug_str`] of the characters of `s`: Rust's Debug escaping is a
/// function of the string alone.
#[verifier::external_body]
fn debug_quoted(s: &str) -> (r: String)
    ensures
        r@ == debug_str(s@),
{
    format!("{:?}", s)
}

/// The warning for a tool registered with an empty or whitespace-only
/// description.
pub open spec fn missing_description_warning(name: Seq<char>) -> Seq<char> {
    "Tool '"@ + name
        + "' is registered without a description; the description is the most important factor for tool-calling performance and should explain what the tool does, when to use it, and what its parameters mean"@
}

/// The warning for a tool whose trimmed description is too short.
pub open spec fn short_description_warning(name: Seq<char>, trimmed: Seq<char>) -> Seq<char> {
    "Tool '"@ + name + "' has a very short description "@ + debug_str(trimmed)
        + "; detailed descriptions (3-4+ sentences) significantly improve tool-calling performance"@
}

/// What [`description_warning`] returns: a warning for a description that is
/// empty or whitespace-only, or shorter than [`MIN_DESCRIPTION_CHARS`]
/// characters once trimmed; `None` when it is adequate.
pub open spec fn spec_description_warning(name: Seq<char>, description: Seq<char>) -> Option<
    Seq<char>,
> {
    let trimmed = trim(description);
    if trimmed.len() == 0 {
        Some(missing_description_warning(name))
    } else if trimmed.len() < MIN_DESCRIPTION_CHARS {
        Some(short_description_warning(name, trimmed))
    } else {
        None
    }
}

/// Returns a warning message when a tool description is too weak to guide
/// tool selection — missing, whitespace-only, or shorter than
/// [`MIN_DESCRIPTION_CHARS`] characters — or `None` when it is adequate.
pub fn description_warning(name: &str, description: &str) -> (r: Option<String>)
    ensures
        r.deep_view() == spec_description_warning(name@, description@),
{
    let trimmed = trim_str(description);
    let count = trimmed.as_str().unicode_len();
    if count == 0 {
        let mut msg = String::from_str("Tool '");
        msg.append(name);
        msg.append(
            "' is registered without a description; the description is the most important factor for tool-calling performance and should explain what the tool does, when to use it, and what its parameters mean",
        );
        Some(msg)
    } else if count < MIN_DESCRIPTION_CHARS {
        let quoted = debug_quoted(trimmed.as_str());
        let mut msg = String::from_str("Tool '");
        msg.append(name);
        msg.append("' has a very short description ");
        msg.append(quoted.as_str());
        msg.append(
            "; detailed descriptions (3-4+ sentences) significantly improve tool-calling performance",
        );
        Some(msg)
    } else {
        None
    }
}

/// One step of running a batch of tool calls: the calls `start..end`, run
/// concurrently when `parallel`, else the single call `start` alone.
#[derive(Clone, Copy, Debug, PartialEq, Eq, Structural)]
pub struct ToolStep {
    /// First call of the step.
    pub start: usize,
    /// One past the last call of the step.
    pub end: usize,
    /// Whether the calls of the step run concurrently.
    pub parallel: bool,
}

/// Whether `steps` is the schedule of calls with the given modes: the steps
/// cover the calls in input order, each exactly once; a sequential step is
/// one `Sequential` call run alone; a parallel step is a run of `Parallel`
/// calls, and no parallel step directly follows another (a run is never
/// split).
pub open spec fn is_schedule(modes: Seq<ExecutionMode>, steps: Seq<ToolStep>) -> bool {
    &&& steps.len() == 0 <==> modes.len() == 0
    &&& steps.len() > 0 ==> steps[0].start == 0 && steps.last().end == modes.len()
    &&& forall|k: int| 0 <= k < steps.len() - 1 ==> #[trigger] steps[k].end == steps[k + 1].start
    &&& forall|k: int|
        0 <= k < steps.len() ==> {
            let st = #[trigger] steps[k];
            &&& st.start < st.end
            &&& !st.parallel ==> st.end == st.start + 1 && modes[st.start as int]
                == ExecutionMode::Sequential
            &&& st.parallel ==> forall|i: int|
                st.start <= i < st.end ==> modes[i] == ExecutionMode::Parallel
        }
    &&& forall|k: int|
        0 <= k < steps.len() - 1 ==> #[trigger] steps[k].parallel ==> !steps[k + 1].parallel
}

/// Schedules a batch of tool calls by their tools' execution modes:
/// consecutive `Parallel` calls form one concurrent step, and each
/// `Sequential` call (the default, including tools not found in the
/// registry) is a barrier that runs alone after everything before it.
pub fn plan_tool_steps(modes: &Vec<ExecutionMode>) -> (r: Vec<ToolStep>)
    ensures
        is_schedule(modes@, r@),
{
    let n = modes.len();
    let mut steps: Vec<ToolStep> = Vec::new();
    let mut i: usize = 0;
    while i < n
        invariant
            n == modes@.len(),
            i <= n,
            steps@.len() == 0 <==> i == 0,
            steps@.len() > 0 ==> steps@[0].start == 0 && steps@.last().end == i,
            forall|k: int| 0 <= k < steps@.len() - 1 ==> #[trigger] steps@[k].end == steps@[k + 1].start,
            forall|k: int|
                0 <= k < steps@.len() ==> {
                    let st = #[trigger] steps@[k];
                    &&& st.start < st.end
                    &&& !st.parallel ==> st.end == st.start + 1 && modes@[st.start as int]
                        == ExecutionMode::Sequential
                    &&& st.parallel ==> forall|j: int|
                        st.start <= j < st.end ==> modes@[j] == ExecutionMode::Parallel
                },
            forall|k: int|
                0 <= k < steps@.len() - 1 ==> #[trigger] steps@[k].parallel ==> !steps@[k + 1].parallel,
            steps@.len() > 0 && steps@.last().parallel ==> (i == n || modes@[i as int]
                == ExecutionMode::Sequential),
        decreases n - i,
    {
        match modes[i] {
            ExecutionMode::Sequential => {
                steps.push(ToolStep { start: i, end: i + 1, parallel: false });
                i = i + 1;
            },
            ExecutionMode::Parallel => {
                let start = i;
                while i < n && modes[i] == ExecutionMode::Parallel
                    invariant
                        n == modes@.len(),
                        start < n,
                        start <= i <= n,
                        modes@[start as int] == ExecutionMode::Parallel,
                        forall|j: int| start <= j < i ==> modes@[j] == ExecutionMode::Parallel,
                    decreases n - i,
                {
                    i = i + 1;
                }
                proof {
                    if steps@.len() > 0 {
                        assert(!steps@.last().parallel);
                    }
                }
                steps.push(ToolStep { start, end: i, parallel: true });
            },
        }
    }
    steps
}

/// The concurrency bound actually used: values below 1 are treated as 1.
pub open spec fn concurrency_bound(max_concurrency: int) -> int {
    if max_concurrency < 1 {
        1
    } else {
        max_concurrency
    }
}

/// The bound on concurrently running `Parallel` calls for a
/// `max_concurrency` setting; values below 1 are treated as 1.
pub fn effective_concurrency(max_concurrency: usize) -> (r: usize)
    ensures
        r == concurrency_bound(max_concurrency as int),
{
    if max_concurrency < 1 {
        1
    } else {
        max_concurrency
    }
}

/// The `max_concurrency` config value as a bound: values below 1 are
/// treated as 1, and the value is converted with `as usize`.
pub fn concurrency_from_config(value: i64) -> (r: usize)
    ensures
        r == (concurrency_bound(value as int) as i64) as usize,
{
    let v: i64 = if value < 1 {
        1
    } else {
        value
    };
    v as usize
}
/// The entries after removing the entry of `key`, if any, keeping the order
/// of the others.
pub open spec fn without_key<T>(s: Seq<(Seq<char>, T)>, key: Seq<char>) -> Seq<(Seq<char>, T)> {
    if has_key(s, key) {
        s.remove(key_index(s, key))
    } else {
        s
    }
}

/// Removing an entry keeps keys unique and removes from the map view.
pub proof fn lemma_without_key<T>(s: Seq<(Seq<char>, T)>, key: Seq<char>)
    requires
        keys_unique(s),
    ensures
        keys_unique(without_key(s, key)),
        entries_map(without_key(s, key)) == entries_map(s).remove(key),
{
    let r = without_key(s, key);
    if has_key(s, key) {
        let i = key_index(s, key);
        assert forall|a: int| 0 <= a < r.len() implies #[trigger] r[a] == (if a < i {
            s[a]
        } else {
            s[a + 1]
        }) by {}
        assert forall|a: int, b: int| 0 <= a < b < r.len() implies #[trigger] r[a].0
            != #[trigger] r[b].0 by {
            let pa = if a < i {
                a
            } else {
                a + 1
            };
            let pb = if b < i {
                b
            } else {
                b + 1
            };
            assert(r[a] == s[pa]);
            assert(r[b] == s[pb]);
        }
        assert forall|k: Seq<char>| #[trigger] has_key(r, k) == (has_key(s, k) && k != key) by {
            if has_key(r, k) {
                let j = choose|j: int| 0 <= j < r.len() && #[trigger] r[j].0 == k;
                let pj = if j < i {
                    j
                } else {
                    j + 1
                };
                assert(r[j] == s[pj]);
            }
            if has_key(s, k) && k != key {
                let j = choose|j: int| 0 <= j < s.len() && #[trigger] s[j].0 == k;
                assert(j != i);
                if j < i {
                    assert(r[j].0 == k);
                } else {
                    assert(r[j - 1].0 == k);
                }
            }
        }
        assert forall|k: Seq<char>| has_key(r, k) implies #[trigger] lookup(r, k) == lookup(s, k) by {
            let j = choose|j: int| 0 <= j < r.len() && #[trigger] r[j].0 == k;
            let pj = if j < i {
                j
            } else {
                j + 1
            };
            lemma_lookup_at(r, j);
            lemma_lookup_at(s, pj);
        }
        assert(entries_map(r) =~= entries_map(s).remove(key));
    } else {
        assert(entries_map(r) =~= entries_map(s).remove(key));
    }
}

/// The registry of callable tools: each tool under its unique name, in the
/// order of first registration.
pub struct ToolRegistry<T> {
    tools: Vec<(String, T)>,
}

impl<T> View for ToolRegistry<T> {
    type V = Seq<(Seq<char>, T)>;

    closed spec fn view(&self) -> Seq<(Seq<char>, T)> {
        self.tools@.map_values(|e: (String, T)| (e.0@, e.1))
    }
}

impl<T> ToolRegistry<T> {
    /// The registry invariant: no name is registered twice.
    pub open spec fn wf(&self) -> bool {
        keys_unique(self@)
    }

    /// The registered tools by name.
    pub open spec fn tool_map(&self) -> Map<Seq<char>, T> {
        entries_map(self@)
    }

    /// An empty registry.
    pub fn new() -> (r: Self)
        ensures
            r.wf(),
            r@ == Seq::<(Seq<char>, T)>::empty(),
    {
        let r = ToolRegistry { tools: Vec::new() };
        assert(r@ =~= Seq::<(Seq<char>, T)>::empty());
        r
    }

    /// Number of registered tools.
    pub fn len(&self) -> (n: usize)
        ensures
            n == self@.len(),
    {
        self.tools.len()
    }

    /// Position of the tool `name`.
    fn position(&self, name: &str) -> (r: Option<usize>)
        requires
            self.wf(),
        ensures
            match r {
                Some(i) => i < self@.len() && self@[i as int].0 == name@ && key_index(self@, name@)
                    == i,
                None => !has_key(self@, name@),
            },
    {
        let mut i: usize = 0;
        while i < self.tools.len()
            invariant
                i <= self.tools@.len(),
                self.wf(),
                self@.len() == self.tools@.len(),
                forall|j: int| 0 <= j < i ==> #[trigger] self@[j].0 != name@,
            decreases self.tools@.len() - i,
        {
            if str_eq(self.tools[i].0.as_str(), name) {
                proof {
                    lemma_lookup_at(self@, i as int);
                }
                return Some(i);
            }
            i = i + 1;
        }
        None
    }

    /// Registers `tool` under `name`, replacing a tool of the same name in
    /// place. Returns the warning to log when the description is too weak
    /// to guide tool selection (see [`description_warning`]); the tool is
    /// registered either way.
    pub fn register_tool(&mut self, name: String, description: &str, tool: T) -> (r: Option<String>)
        requires
            old(self).wf(),
        ensures
            final(self).wf(),
            final(self)@ == inserted(old(self)@, name@, tool),
            final(self).tool_map() == old(self).tool_map().insert(name@, tool),
            r.deep_view() == spec_description_warning(name@, description@),
    {
        let warning = description_warning(name.as_str(), description);
        let ghost before = self@;
        proof {
            lemma_inserted(before, name@, tool);
        }
        match self.position(name.as_str()) {
            Some(i) => {
                let ghost nv = name@;
                self.tools.set(i, (name, tool));
                assert(self@ =~= before.update(i as int, (nv, tool)));
            },
            None => {
                let ghost nv = name@;
                self.tools.push((name, tool));
                assert(self@ =~= before.push((nv, tool)));
            },
        }
        warning
    }

    /// Removes the tool `name`, if registered.
    pub fn unregister_tool(&mut self, name: &str)
        requires
            old(self).wf(),
        ensures
            final(self).wf(),
            final(self)@ == without_key(old(self)@, name@),
            final(self).tool_map() == old(self).tool_map().remove(name@),
    {
        let ghost before = self@;
        proof {
            lemma_without_key(before, name@);
        }
        match self.position(name) {
            Some(i) => {
                self.tools.remove(i);
                assert(self@ =~= before.remove(i as int));
            },
            None => {},
        }
    }

    /// The tool registered as `name`, if any.
    pub fn get_tool(&self, name: &str) -> (r: Option<&T>)
        requires
            self.wf(),
        ensures
            match r {
                Some(t) => self.tool_map().contains_key(name@) && self.tool_map()[name@] == *t,
                None => !self.tool_map().contains_key(name@),
            },
    {
        match self.position(name) {
            Some(i) => {
                proof {
                    lemma_lookup_at(self@, i as int);
                }
                Some(&self.tools[i].1)
            },
            None => None,
        }
    }

    /// The names of the registered tools, in registry order.
    pub fn names(&self) -> (r: Vec<String>)
        ensures
            strs_view(r@) == entry_keys(self@),
    {
        let mut out: Vec<String> = Vec::new();
        let mut i: usize = 0;
        while i < self.tools.len()
            invariant
                i <= self.tools@.len(),
                self@.len() == self.tools@.len(),
                strs_view(out@) == entry_keys(self@).take(i as int),
            decreases self.tools@.len() - i,
        {
            let ghost prev = strs_view(out@);
            out.push(self.tools[i].0.clone());
            assert(self@[i as int].0 == self.tools@[i as int].0@);
            assert(entry_keys(self@)[i as int] == self@[i as int].0);
            assert(strs_view(out@) =~= prev.push(self.tools@[i as int].0@));
            assert(strs_view(out@) =~= entry_keys(self@).take(i + 1));
            i = i + 1;
        }
        assert(entry_keys(self@).take(self@.len() as int) =~= entry_keys(self@));
        out
    }
}

/// Registering a tool makes it the one found under its name; unregistering
/// a name leaves no tool under it; other names are unaffected either way.
pub proof fn law_registry_get_after_update<T>(
    reg: Seq<(Seq<char>, T)>,
    name: Seq<char>,
    tool: T,
    other: Seq<char>,
)
    requires
        keys_unique(reg),
        other != name,
    ensures
        entries_map(inserted(reg, name, tool))[name] == tool,
        !entries_map(without_key(reg, name)).contains_key(name),
        entries_map(inserted(reg, name, tool)).contains_key(other) == entries_map(reg).contains_key(
            other,
        ),
        entries_map(without_key(reg, name)).contains_key(other) == entries_map(reg).contains_key(
            other,
        ),
        entries_map(reg).contains_key(other) ==> entries_map(inserted(reg, name, tool))[other]
            == entries_map(reg)[other] && entries_map(without_key(reg, name))[other] == entries_map(
            reg,
        )[other],
{
    lemma_inserted(reg, name, tool);
    lemma_without_key(reg, name);
}

/// The error text of a timed-out preset tool call.
pub open spec fn timeout_text(timeout_secs: int) -> Seq<char> {
    "Tool call timed out after "@ + int_decimal(timeout_secs) + " seconds"@
}

/// Why a tool call produced no real result.
pub enum CallFailure {
    /// The provider's argument string was not valid JSON; holds the
    /// parser's message. The call was not executed.
    UnparsedArguments(String),
    /// The arguments failed the tool's parameter schema; holds the
    /// validation errors. The call was not executed.
    InvalidArguments(String),
    /// The call was cancelled before it produced a result.
    Aborted,
    /// The tool failed; holds its error text.
    Failed(String),
}

/// The content of the error tool result reported for a failed call.
pub open spec fn failure_text(f: CallFailure) -> Seq<char> {
    match f {
        CallFailure::UnparsedArguments(e) =>
            "Tool call arguments could not be parsed as JSON; the call was not executed. Re-issue the call with valid JSON arguments. "@
                + e@,
        CallFailure::InvalidArguments(e) =>
            "Tool call arguments failed schema validation; the call was not executed. Re-issue the call with corrected arguments. Errors: "@
                + e@,
        CallFailure::Aborted => "Operation aborted"@,
        CallFailure::Failed(e) => e@,
    }
}

/// The content of the error tool result reported for a failed call.
pub fn failure_result_text(f: &CallFailure) -> (r: String)
    ensures
        r@ == failure_text(*f),
{
    match f {
        CallFailure::UnparsedArguments(e) => concat2(
            "Tool call arguments could not be parsed as JSON; the call was not executed. Re-issue the call with valid JSON arguments. ",
            e.as_str(),
        ),
        CallFailure::InvalidArguments(e) => concat2(
            "Tool call arguments failed schema validation; the call was not executed. Re-issue the call with corrected arguments. Errors: ",
            e.as_str(),
        ),
        CallFailure::Aborted => String::from_str("Operation aborted"),
        CallFailure::Failed(e) => e.clone(),
    }
}

/// The results of a batch of tool calls, one per call and in the calls'
/// order: the real result where the call produced one, and the aborted
/// result of the call elsewhere (a call cancelled before it finished, or
/// one never started because an earlier step was cancelled).
pub fn assemble_step_results<M>(slots: Vec<Option<M>>, aborted: Vec<M>) -> (r: Vec<M>)
    requires
        aborted@.len() == slots@.len(),
    ensures
        r@.len() == slots@.len(),
        forall|i: int|
            0 <= i < r@.len() ==> r@[i] == match slots@[i] {
                Some(m) => m,
                None => aborted@[i],
            },
{
    let ghost s0 = slots@;
    let ghost a0 = aborted@;
    let mut slots = slots;
    let mut aborted = aborted;
    let mut out: Vec<M> = Vec::new();
    let ghost mut k: int = 0;
    while slots.len() > 0
        invariant
            0 <= k <= s0.len(),
            s0.len() == a0.len(),
            slots@ == s0.skip(k),
            aborted@ == a0.skip(k),
            out@.len() == k,
            forall|i: int|
                0 <= i < k ==> out@[i] == match s0[i] {
                    Some(m) => m,
                    None => a0[i],
                },
        decreases slots@.len(),
    {
        let slot = slots.remove(0);
        let fallback = aborted.remove(0);
        proof {
            assert(slot == s0[k]);
            assert(fallback == a0[k]);
        }
        match slot {
            Some(m) => out.push(m),
            None => out.push(fallback),
        }
        proof {
            assert(slots@ =~= s0.skip(k + 1));
            assert(aborted@ =~= a0.skip(k + 1));
            k = k + 1;
        }
    }
    out
}

/// The message of the `Timeout` error of a preset tool call that got no
/// result within `timeout_secs` seconds.
pub fn timeout_message(timeout_secs: i64) -> (r: String)
    ensures
        r@ == timeout_text(timeout_secs as int),
{
    let n = i64_to_string(timeout_secs);
    concat3("Tool call timed out after ", n.as_str(), " seconds")
}

/// How long a preset tool call waits for the workflow's result: `None`
/// (indefinitely) for a `timeout_secs` of zero or less, else that many
/// seconds.
pub fn timeout_limit(timeout_secs: i64) -> (r: Option<u64>)
    ensures
        match r {
            Some(s) => timeout_secs > 0 && s == timeout_secs,
            None => timeout_secs <= 0,
        },
{
    if timeout_secs <= 0 {
        None
    } else {
        Some(timeout_secs as u64)
    }
}
/// The trimmed, non-empty entries of `segments`, in order.
pub open spec fn nonblank_trimmed(segments: Seq<Seq<char>>) -> Seq<Seq<char>>
    decreases segments.len(),
{
    if segments.len() == 0 {
        Seq::empty()
    } else {
        let r = nonblank_trimmed(segments.drop_last());
        if trim(segments.last()).len() > 0 {
            r.push(trim(segments.last()))
        } else {
            r
        }
    }
}

/// The regex patterns of a newline-separated pattern text: each line
/// trimmed, blank lines dropped.
pub open spec fn pattern_list(text: Seq<char>) -> Seq<Seq<char>> {
    nonblank_trimmed(split_on(text, '\n'))
}

/// Splits a pattern text into its patterns: one per line, trimmed, blank
/// lines dropped.
pub fn pattern_lines(text: &str) -> (r: Vec<String>)
    ensures
        strs_view(r@) == pattern_list(text@),
{
    let chars = chars_of(text);
    let mut out: Vec<String> = Vec::new();
    let mut start: usize = 0;
    let mut i: usize = 0;
    while i < chars.len()
        invariant
            start <= i <= chars@.len(),
            chars@ == text@,
            split_on(chars@.take(i as int), '\n').len() >= 1,
            split_on(chars@.take(i as int), '\n').last() == chars@.subrange(start as int, i as int),
            strs_view(out@) == nonblank_trimmed(split_on(chars@.take(i as int), '\n').drop_last()),
        decreases chars@.len() - i,
    {
        proof {
            lemma_split_step(chars@, '\n', i as int);
        }
        let ghost prev = split_on(chars@.take(i as int), '\n');
        let ghost next = split_on(chars@.take(i + 1), '\n');
        if chars[i] == '\n' {
            let seg = string_from_chars(&chars, start, i);
            let t = trim_str(seg.as_str());
            proof {
                assert(next.drop_last() =~= prev);
                assert(prev =~= prev.drop_last().push(prev.last()));
            }
            if t.as_str().unicode_len() > 0 {
                let ghost before = strs_view(out@);
                out.push(t);
                assert(strs_view(out@) =~= before.push(trim(prev.last())));
            }
            start = i + 1;
            assert(next.last() =~= chars@.subrange(start as int, i + 1));
        } else {
            proof {
                assert(next.last() =~= chars@.subrange(start as int, i + 1));
                assert(next.drop_last() =~= prev.drop_last());
            }
        }
        i = i + 1;
    }
    assert(chars@.take(chars@.len() as int) =~= chars@);
    let seg = string_from_chars(&chars, start, chars.len());
    let t = trim_str(seg.as_str());
    let ghost all = split_on(text@, '\n');
    proof {
        assert(all =~= all.drop_last().push(all.last()));
    }
    if t.as_str().unicode_len() > 0 {
        let ghost before = strs_view(out@);
        out.push(t);
        assert(strs_view(out@) =~= before.push(trim(all.last())));
    }
    out
}

/// Whether `RegexSet::new` accepts the patterns.
pub uninterp spec fn regex_set_accepts(patterns: Seq<Seq<char>>) -> bool;

/// Whether the regex set of the patterns matches `text`
/// (`RegexSet::is_match`).
pub uninterp spec fn regex_set_matches(patterns: Seq<Seq<char>>, text: Seq<char>) -> bool;

/// The message of the error `RegexSet::new` reports for the patterns.
pub uninterp spec fn regex_error_text(patterns: Seq<Seq<char>>) -> Seq<char>;

/// `regex::RegexSet::new(patterns)` and, when it compiles,
/// `RegexSet::is_match` on each text; the error is turned into its message.
/// Compiling and matching are functions of the patterns and texts alone,
/// so their results are named. An empty set compiles and matches nothing
/// (`is_match` holds exactly when one of the set's regexes matches).
#[verifier::external_body]
fn regex_set_match_each(patterns: &Vec<String>, texts: &Vec<String>) -> (r: Result<Vec<bool>, String>)
    ensures
        match r {
            Ok(v) => {
                &&& regex_set_accepts(strs_view(patterns@))
                &&& v@.len() == texts@.len()
                &&& forall|i: int|
                    0 <= i < v@.len() ==> #[trigger] v@[i] == regex_set_matches(
                        strs_view(patterns@),
                        texts@[i]@,
                    )
            },
            Err(e) => !regex_set_accepts(strs_view(patterns@)) && e@ == regex_error_text(
                strs_view(patterns@),
            ),
        },
        patterns@.len() == 0 ==> r is Ok && forall|i: int|
            0 <= i < texts@.len() ==> !#[trigger] regex_set_matches(
                strs_view(patterns@),
                texts@[i]@,
            ),
{
    match regex::RegexSet::new(patterns) {
        Ok(set) => Ok(texts.iter().map(|t| set.is_match(t)).collect()),
        Err(e) => Err(e.to_string()),
    }
}

/// The names, in order, that one of the patterns matches.
pub open spec fn names_matching(patterns: Seq<Seq<char>>, names: Seq<Seq<char>>) -> Seq<Seq<char>>
    decreases names.len(),
{
    if names.len() == 0 {
        Seq::empty()
    } else {
        let r = names_matching(patterns, names.drop_last());
        if regex_set_matches(patterns, names.last()) {
            r.push(names.last())
        } else {
            r
        }
    }
}

/// The tool names a pattern text selects: patterns are newline-separated
/// regular expressions, and a name is selected when any of them matches
/// it. Fails with the regex error message when a pattern is invalid.
pub fn tool_names_matching(patterns: &str, names: &Vec<String>) -> (r: Result<Vec<String>, String>)
    ensures
        ({
            let p = pattern_list(patterns@);
            match r {
                Ok(v) => regex_set_accepts(p) && strs_view(v@) == names_matching(
                    p,
                    strs_view(names@),
                ),
                Err(e) => !regex_set_accepts(p) && e@ == regex_error_text(p),
            }
        }),
{
    let list = pattern_lines(patterns);
    let hits = match regex_set_match_each(&list, names) {
        Ok(v) => v,
        Err(e) => return Err(e),
    };
    let ghost p = strs_view(list@);
    let ghost nv = strs_view(names@);
    let mut out: Vec<String> = Vec::new();
    let mut i: usize = 0;
    while i < names.len()
        invariant
            i <= names@.len() == hits@.len(),
            p == strs_view(list@),
            nv == strs_view(names@),
            forall|k: int| 0 <= k < hits@.len() ==> #[trigger] hits@[k] == regex_set_matches(p, nv[k]),
            strs_view(out@) == names_matching(p, nv.take(i as int)),
        decreases names@.len() - i,
    {
        assert(nv.take(i + 1).drop_last() =~= nv.take(i as int));
        assert(nv.take(i + 1).last() == nv[i as int]);
        if hits[i] {
            let ghost before = strs_view(out@);
            out.push(names[i].clone());
            assert(strs_view(out@) =~= before.push(nv[i as int]));
        }
        i = i + 1;
    }
    assert(nv.take(nv.len() as int) =~= nv);
    Ok(out)
}

/// The error an agent reports for invalid tool patterns.
pub fn invalid_patterns_error(message: &str) -> (r: AgentError)
    ensures
        r matches AgentError::InvalidValue(m) && m@ == "Invalid regex patterns: "@ + message@,
{
    AgentError::InvalidValue(concat2("Invalid regex patterns: ", message))
}

/// The value of a string of decimal digits.
pub open spec fn digits_value(s: Seq<char>) -> int
    decreases s.len(),
{
    if s.len() == 0 {
        0
    } else {
        digits_value(s.drop_last()) * 10 + (s.last() as int - 48)
    }
}

/// Whether every character is an ASCII digit.
pub open spec fn all_digits(s: Seq<char>) -> bool {
    forall|i: int| 0 <= i < s.len() ==> '0' <= #[trigger] s[i] <= '9'
}

/// What `str::parse::<i64>` yields: an optional `+` or `-` sign followed by
/// at least one ASCII digit and nothing else, within the range of `i64`.
pub open spec fn parsed_i64(s: Seq<char>) -> Option<int> {
    let neg = s.len() > 0 && s[0] == '-';
    let body = if s.len() > 0 && (s[0] == '-' || s[0] == '+') {
        s.drop_first()
    } else {
        s
    };
    let v = if neg {
        -digits_value(body)
    } else {
        digits_value(body)
    };
    if body.len() == 0 || !all_digits(body) || v < i64::MIN || v > i64::MAX {
        None
    } else {
        Some(v)
    }
}

/// A digit string's value is never negative.
proof fn lemma_digits_nonneg(s: Seq<char>)
    requires
        all_digits(s),
    ensures
        digits_value(s) >= 0,
    decreases s.len(),
{
    if s.len() > 0 {
        assert forall|i: int| 0 <= i < s.drop_last().len() implies '0' <= #[trigger] s.drop_last()[i]
            <= '9' by {
            assert(s.drop_last()[i] == s[i]);
        }
        lemma_digits_nonneg(s.drop_last());
        assert('0' <= s[s.len() - 1] <= '9');
    }
}

/// Values beyond this are out of range for `i64` whatever the sign.
pub const PARSE_CAP: u128 = 9223372036854775809;

/// Parses a decimal `i64` the way `str::parse::<i64>` does.
pub fn parse_i64(s: &str) -> (r: Option<i64>)
    ensures
        match r {
            Some(v) => parsed_i64(s@) == Some(v as int),
            None => parsed_i64(s@) is None,
        },
{
    let chars = chars_of(s);
    let n = chars.len();
    let mut start: usize = 0;
    let mut neg = false;
    if n > 0 && (chars[0] == '-' || chars[0] == '+') {
        neg = chars[0] == '-';
        start = 1;
    }
    let ghost body = if n > 0 && (s@[0] == '-' || s@[0] == '+') {
        s@.drop_first()
    } else {
        s@
    };
    assert(body =~= chars@.subrange(start as int, n as int));
    if start == n {
        return None;
    }
    let mut acc: u128 = 0;
    let mut i: usize = start;
    while i < n
        invariant
            start <= i <= n == chars@.len(),
            chars@ == s@,
            body == chars@.subrange(start as int, n as int),
            body == (if s@.len() > 0 && (s@[0] == '-' || s@[0] == '+') {
                s@.drop_first()
            } else {
                s@
            }),
            all_digits(chars@.subrange(start as int, i as int)),
            acc as int == if digits_value(chars@.subrange(start as int, i as int))
                < PARSE_CAP as int {
                digits_value(chars@.subrange(start as int, i as int))
            } else {
                PARSE_CAP as int
            },
        decreases n - i,
    {
        let c = chars[i];
        if c < '0' || c > '9' {
            proof {
                assert(body[i - start] == c);
            }
            return None;
        }
        let d = (c as u32 - 48) as u128;
        let ghost pre = chars@.subrange(start as int, i as int);
        let ghost next = chars@.subrange(start as int, i + 1);
        assert(next.drop_last() =~= pre);
        assert(next.last() == c);
        proof {
            lemma_digits_nonneg(pre);
        }
        let grown = acc * 10 + d;
        acc = if grown < PARSE_CAP {
            grown
        } else {
            PARSE_CAP
        };
        assert forall|j: int| 0 <= j < next.len() implies '0' <= #[trigger] next[j] <= '9' by {
            if j < pre.len() {
                assert(next[j] == pre[j]);
            }
        }
        i = i + 1;
    }
    assert(chars@.subrange(start as int, n as int) == body);
    proof {
        lemma_digits_nonneg(body);
    }
    if neg {
        if acc > 9223372036854775808 {
            None
        } else if acc == 9223372036854775808 {
            Some(i64::MIN)
        } else {
            Some(-(acc as i64))
        }
    } else {
        if acc > 9223372036854775807 {
            None
        } else {
            Some(acc as i64)
        }
    }
}

/// A primitive a string argument is coerced to.
#[derive(Clone, Copy, Debug, PartialEq, Eq, Structural)]
pub enum Coerced {
    /// An integer (schema type `integer`).
    Integer(i64),
    /// A boolean (schema type `boolean`).
    Boolean(bool),
}

/// What a string argument becomes under a schema `type`: `integer` takes
/// exactly what `str::parse::<i64>` accepts, so `"42.5"` is never silently
/// truncated; `boolean` takes `"true"` and `"false"`. Anything else is left
/// alone.
pub open spec fn coerced(schema_type: Seq<char>, s: Seq<char>) -> Option<Coerced> {
    if schema_type == "integer"@ {
        match parsed_i64(s) {
            Some(v) => Some(Coerced::Integer(v as i64)),
            None => None,
        }
    } else if schema_type == "boolean"@ {
        if s == "true"@ {
            Some(Coerced::Boolean(true))
        } else if s == "false"@ {
            Some(Coerced::Boolean(false))
        } else {
            None
        }
    } else {
        None
    }
}

/// Coerces a string-encoded integer or boolean argument toward its schema
/// type, as LLMs frequently emit numbers and booleans as JSON strings.
pub fn coerce_string(schema_type: &str, s: &str) -> (r: Option<Coerced>)
    ensures
        r == coerced(schema_type@, s@),
{
    if str_eq(schema_type, "integer") {
        match parse_i64(s) {
            Some(v) => Some(Coerced::Integer(v)),
            None => None,
        }
    } else if str_eq(schema_type, "boolean") {
        if str_eq(s, "true") {
            Some(Coerced::Boolean(true))
        } else if str_eq(s, "false") {
            Some(Coerced::Boolean(false))
        } else {
            None
        }
    } else {
        None
    }
}
/// Every step of a schedule ends within the batch.
proof fn lemma_schedule_ends(modes: Seq<ExecutionMode>, steps: Seq<ToolStep>, k: int)
    requires
        is_schedule(modes, steps),
        0 <= k < steps.len(),
    ensures
        steps[k].end <= modes.len(),
    decreases steps.len() - k,
{
    if k < steps.len() - 1 {
        lemma_schedule_ends(modes, steps, k + 1);
        assert(steps[k].end == steps[k + 1].start);
        assert(steps[k + 1].start < steps[k + 1].end);
    }
}

/// Two schedules of the same batch agree on every step both have.
proof fn lemma_schedule_steps_agree(
    modes: Seq<ExecutionMode>,
    a: Seq<ToolStep>,
    b: Seq<ToolStep>,
    k: int,
)
    requires
        is_schedule(modes, a),
        is_schedule(modes, b),
        0 <= k < a.len(),
        k < b.len(),
    ensures
        a[k] == b[k],
    decreases k,
{
    if k > 0 {
        lemma_schedule_steps_agree(modes, a, b, k - 1);
        assert(a[k - 1].end == a[k].start);
        assert(b[k - 1].end == b[k].start);
    }
    let st = a[k].start;
    assert(b[k].start == st);
    let sa = a[k];
    let sb = b[k];
    lemma_schedule_ends(modes, a, k);
    lemma_schedule_ends(modes, b, k);
    if modes[st as int] == ExecutionMode::Sequential {
        assert(!sa.parallel);
        assert(!sb.parallel);
    } else {
        assert(sa.parallel);
        assert(sb.parallel);
        if sa.end < sb.end {
            assert(modes[sa.end as int] == ExecutionMode::Parallel);
            assert(sa.end < modes.len());
            assert(k < a.len() - 1);
            assert(a[k + 1].start == sa.end);
            assert(!a[k + 1].parallel);
        }
        if sb.end < sa.end {
            assert(modes[sb.end as int] == ExecutionMode::Parallel);
            assert(sb.end < modes.len());
            assert(k < b.len() - 1);
            assert(b[k + 1].start == sb.end);
            assert(!b[k + 1].parallel);
        }
    }
}

/// A batch has exactly one schedule: the steps are determined by the
/// execution modes of its calls.
pub proof fn law_schedule_is_unique(modes: Seq<ExecutionMode>, a: Seq<ToolStep>, b: Seq<ToolStep>)
    requires
        is_schedule(modes, a),
        is_schedule(modes, b),
    ensures
        a == b,
{
    if a.len() < b.len() {
        let k = a.len() - 1;
        lemma_schedule_steps_agree(modes, a, b, k);
        assert(b[k].end == modes.len());
        assert(b[k + 1].start == modes.len());
        lemma_schedule_ends(modes, b, k + 1);
    } else if b.len() < a.len() {
        let k = b.len() - 1;
        lemma_schedule_steps_agree(modes, a, b, k);
        assert(a[k].end == modes.len());
        assert(a[k + 1].start == modes.len());
        lemma_schedule_ends(modes, a, k + 1);
    }
    assert forall|k: int| 0 <= k < a.len() implies a[k] == b[k] by {
        lemma_schedule_steps_agree(modes, a, b, k);
    }
    assert(a =~= b);
}

/// Whether a JSON Schema compiles.
pub uninterp spec fn schema_compiles(schema: ValueView) -> bool;

/// Whether a schema compiles and accepts the value.
pub uninterp spec fn schema_accepts(schema: ValueView, value: ValueView) -> bool;

/// The errors a compiled schema reports for a value, in order, each as the
/// instance path and the message.
pub uninterp spec fn schema_errors(schema: ValueView, value: ValueView) -> Seq<(Seq<char>, Seq<char>)>;

/// `jsonschema::validator_for` and `Validator::is_valid`: whether the schema
/// compiles and accepts the value.
#[verifier::external_body]
fn accepts(schema: &AgentValue, value: &AgentValue) -> (r: bool)
    ensures
        r == schema_accepts(value_view(*schema), value_view(*value)),
{
    jsonschema::validator_for(&json_of(schema)).map_or(false, |v| v.is_valid(&json_of(value)))
}

/// `jsonschema::validator_for` and `Validator::iter_errors`: `None` when
/// the schema does not compile; otherwise the errors for the value, in
/// order, each as its instance path and its message.
#[verifier::external_body]
fn schema_error_list(schema: &AgentValue, value: &AgentValue) -> (r: Option<Vec<(String, String)>>)
    ensures
        match r {
            None => !schema_compiles(value_view(*schema)),
            Some(errors) => schema_compiles(value_view(*schema)) && pairs_view(errors@)
                == schema_errors(value_view(*schema), value_view(*value)),
        },
{
    let validator = jsonschema::validator_for(&json_of(schema)).ok()?;
    let instance = json_of(value);
    Some(validator.iter_errors(&instance).map(|e| (e.instance_path().to_string(), e.to_string())).collect())
}


/// The characters of each pair of strings.
pub open spec fn pairs_view(pairs: Seq<(String, String)>) -> Seq<(Seq<char>, Seq<char>)> {
    pairs.map_values(|e: (String, String)| (e.0@, e.1@))
}

/// The position of the first field named `key`, or -1.
pub open spec fn field_pos(fields: Seq<(Seq<char>, ValueView)>, key: Seq<char>) -> int
    decreases fields.len(),
{
    if fields.len() == 0 {
        -1
    } else if fields.last().0 == key && field_pos(fields.drop_last(), key) == -1 {
        fields.len() - 1
    } else {
        field_pos(fields.drop_last(), key)
    }
}

/// Whether some variant accepts the value as it is.
pub open spec fn some_variant_accepts(variants: Seq<ValueView>, v: ValueView) -> bool {
    exists|i: int| 0 <= i < variants.len() && #[trigger] schema_accepts(variants[i], v)
}

/// The value coerced toward a JSON Schema, as tool arguments are before
/// validation: string-encoded primitives the model sent are turned into the
/// type the schema asks for. Only an object schema does anything:
/// - `anyOf` (or else `oneOf`): when no variant accepts the value as it is,
///   it becomes its coercion toward the first variant that accepts that
///   coercion (unchanged when none does);
/// - `type`: a string becomes a number (`"number"`, through `number`), an
///   integer or a boolean (see [`coerced`]);
/// - `properties`: each named property present in an object value is
///   coerced toward its schema, in the schema's order;
/// - `items`: each element of an array value is coerced toward it.
///
/// `number` gives what a string becomes under `"number"`, if anything.
pub open spec fn coerced_by_schema(
    v: ValueView,
    schema: ValueView,
    number: spec_fn(Seq<char>) -> Option<ValueView>,
) -> ValueView
    decreases schema, 0nat,
{
    match schema {
        ValueView::Object(sf) => {
            let a = field_pos(sf, "anyOf"@);
            let o = field_pos(sf, "oneOf"@);
            let v1 = if 0 <= a < sf.len() && sf[a].1 is Array {
                if some_variant_accepts(sf[a].1->Array_0, v) {
                    v
                } else {
                    first_accepted(v, sf[a].1->Array_0, 0, number)
                }
            } else if 0 <= o < sf.len() && sf[o].1 is Array {
                if some_variant_accepts(sf[o].1->Array_0, v) {
                    v
                } else {
                    first_accepted(v, sf[o].1->Array_0, 0, number)
                }
            } else {
                v
            };
            let t = field_pos(sf, "type"@);
            let v2 = if 0 <= t < sf.len() && sf[t].1 is String && v1 is String {
                if sf[t].1->String_0 == "number"@ {
                    match number(v1->String_0) {
                        Some(n) => n,
                        None => v1,
                    }
                } else {
                    match coerced(sf[t].1->String_0, v1->String_0) {
                        Some(Coerced::Integer(i)) => ValueView::Integer(i),
                        Some(Coerced::Boolean(b)) => ValueView::Boolean(b),
                        None => v1,
                    }
                }
            } else {
                v1
            };
            let p = field_pos(sf, "properties"@);
            let v3 = if 0 <= p < sf.len() && sf[p].1 is Object && v2 is Object {
                ValueView::Object(with_properties(v2->Object_0, sf[p].1->Object_0, 0, number))
            } else {
                v2
            };
            let it = field_pos(sf, "items"@);
            if 0 <= it < sf.len() && v3 is Array {
                ValueView::Array(coerced_items(v3->Array_0, sf[it].1, number))
            } else {
                v3
            }
        },
        _ => v,
    }
}

/// The coercion of `v` toward the first of the variants from `i` on that
/// accepts it; `v` itself when none does.
pub open spec fn first_accepted(
    v: ValueView,
    variants: Seq<ValueView>,
    i: int,
    number: spec_fn(Seq<char>) -> Option<ValueView>,
) -> ValueView
    decreases variants, variants.len() - i,
{
    if 0 <= i < variants.len() {
        let c = coerced_by_schema(v, variants[i], number);
        if schema_accepts(variants[i], c) {
            c
        } else {
            first_accepted(v, variants, i + 1, number)
        }
    } else {
        v
    }
}

/// The fields of an object value with the properties from the `k`-th on
/// coerced toward their schemas: each property present among the fields
/// (its first field of that name).
pub open spec fn with_properties(
    fields: Seq<(Seq<char>, ValueView)>,
    props: Seq<(Seq<char>, ValueView)>,
    k: int,
    number: spec_fn(Seq<char>) -> Option<ValueView>,
) -> Seq<(Seq<char>, ValueView)>
    decreases props, props.len() - k,
{
    if 0 <= k < props.len() {
        let j = field_pos(fields, props[k].0);
        let next = if 0 <= j < fields.len() {
            fields.update(j, (fields[j].0, coerced_by_schema(fields[j].1, props[k].1, number)))
        } else {
            fields
        };
        with_properties(next, props, k + 1, number)
    } else {
        fields
    }
}

/// The elements of an array value, each coerced toward the `items` schema.
pub open spec fn coerced_items(
    items: Seq<ValueView>,
    schema: ValueView,
    number: spec_fn(Seq<char>) -> Option<ValueView>,
) -> Seq<ValueView>
    decreases schema, items.len(),
{
    if items.len() == 0 {
        Seq::empty()
    } else {
        coerced_items(items.drop_last(), schema, number).push(
            coerced_by_schema(items.last(), schema, number),
        )
    }
}


/// `field_pos` is the first position of the key, or -1 without one.
proof fn lemma_field_pos(fields: Seq<(Seq<char>, ValueView)>, key: Seq<char>)
    ensures
        -1 <= field_pos(fields, key) < fields.len(),
        field_pos(fields, key) >= 0 ==> fields[field_pos(fields, key)].0 == key,
        forall|j: int|
            0 <= j < fields.len() && (field_pos(fields, key) == -1 || j < field_pos(fields, key))
                ==> #[trigger] fields[j].0 != key,
    decreases fields.len(),
{
    if fields.len() > 0 {
        lemma_field_pos(fields.drop_last(), key);
        assert forall|j: int|
            0 <= j < fields.len() && (field_pos(fields, key) == -1 || j < field_pos(fields, key))
                implies #[trigger] fields[j].0 != key by {
            if j < fields.len() - 1 {
                assert(fields[j] == fields.drop_last()[j]);
            }
        }
    }
}

/// The position of the first field named `key`.
fn field_index(fields: &Vec<(String, AgentValue)>, key: &str) -> (r: Option<usize>)
    ensures
        match r {
            Some(j) => j as int == field_pos(fields_view(fields@), key@),
            None => field_pos(fields_view(fields@), key@) == -1,
        },
{
    proof {
        lemma_fields_view(fields@);
        lemma_field_pos(fields_view(fields@), key@);
    }
    let ghost fv = fields_view(fields@);
    let mut i: usize = 0;
    while i < fields.len()
        invariant
            i <= fields@.len(),
            fv == fields_view(fields@),
            fv.len() == fields@.len(),
            forall|j: int| 0 <= j < fields@.len() ==> #[trigger] fv[j] == (fields@[j].0@, value_view(fields@[j].1)),
            forall|j: int| 0 <= j < i ==> #[trigger] fv[j].0 != key@,
            -1 <= field_pos(fv, key@) < fv.len(),
            field_pos(fv, key@) >= 0 ==> fv[field_pos(fv, key@)].0 == key@,
            forall|j: int|
                0 <= j < fv.len() && (field_pos(fv, key@) == -1 || j < field_pos(fv, key@))
                    ==> #[trigger] fv[j].0 != key@,
        decreases fields@.len() - i,
    {
        if str_eq(fields[i].0.as_str(), key) {
            assert(fv[i as int].0 == key@);
            return Some(i);
        }
        assert(fv[i as int].0 != key@);
        i = i + 1;
    }
    None
}

/// A copy of a value.
fn copy_value(v: &AgentValue) -> (r: AgentValue)
    ensures
        value_view(r) == value_view(*v),
    decreases *v,
{
    match v {
        AgentValue::Unit => AgentValue::Unit,
        AgentValue::Boolean(b) => AgentValue::Boolean(*b),
        AgentValue::Integer(i) => AgentValue::Integer(*i),
        AgentValue::Number(t) => AgentValue::Number(t.clone()),
        AgentValue::String(t) => AgentValue::String(t.clone()),
        AgentValue::Image(t) => AgentValue::Image(t.clone()),
        AgentValue::Array(items) => {
            let mut out: Vec<AgentValue> = Vec::new();
            let mut i: usize = 0;
            proof {
                lemma_items_view(items@);
            }
            while i < items.len()
                invariant
                    i <= items@.len(),
                    *v == AgentValue::Array(*items),
                    out@.len() == i,
                    forall|j: int| 0 <= j < i ==> #[trigger] value_view(out@[j]) == value_view(items@[j]),
                decreases items@.len() - i,
            {
                proof {
                    let its = v->Array_0;
                    assert(decreases_to!(*v => its));
                    assert(decreases_to!(its => its@));
                    assert(decreases_to!(its@ => its@[i as int]));
                    assert(decreases_to!(*v => items@[i as int]));
                }
                let c = copy_value(&items[i]);
                out.push(c);
                i = i + 1;
            }
            proof {
                lemma_items_view(out@);
                assert(items_view(out@) =~= items_view(items@));
            }
            AgentValue::Array(out)
        },
        AgentValue::Object(fields) => {
            let mut out: Vec<(String, AgentValue)> = Vec::new();
            let mut i: usize = 0;
            proof {
                lemma_fields_view(fields@);
            }
            while i < fields.len()
                invariant
                    i <= fields@.len(),
                    *v == AgentValue::Object(*fields),
                    out@.len() == i,
                    forall|j: int|
                        0 <= j < i ==> #[trigger] out@[j].0@ == fields@[j].0@ && value_view(out@[j].1)
                            == value_view(fields@[j].1),
                decreases fields@.len() - i,
            {
                proof {
                    let fs = v->Object_0;
                    assert(decreases_to!(*v => fs));
                    assert(decreases_to!(fs => fs@));
                    assert(decreases_to!(fs@ => fs@[i as int]));
                    assert(decreases_to!(fs@[i as int] => fs@[i as int].1));
                    assert(decreases_to!(*v => fields@[i as int].1));
                }
                let c = copy_value(&fields[i].1);
                out.push((fields[i].0.clone(), c));
                i = i + 1;
            }
            proof {
                lemma_fields_view(out@);
                assert(fields_view(out@) =~= fields_view(fields@));
            }
            AgentValue::Object(out)
        },
    }
}


/// The view of an optional value.
pub open spec fn opt_value_view(r: Option<AgentValue>) -> Option<ValueView> {
    match r {
        Some(x) => Some(value_view(x)),
        None => None,
    }
}

/// Whether a number-coercion function can be called on any text and gives
/// one result per text.
pub open spec fn number_ok<F: Fn(&str) -> Option<AgentValue>>(number: F) -> bool {
    &&& forall|t: &str| #[trigger] call_requires(number, (t,))
    &&& forall|t1: &str, t2: &str, r1: Option<AgentValue>, r2: Option<AgentValue>|
        #![trigger call_ensures(number, (t1,), r1), call_ensures(number, (t2,), r2)]
        t1@ == t2@ && call_ensures(number, (t1,), r1) && call_ensures(number, (t2,), r2)
            ==> opt_value_view(r1) == opt_value_view(r2)
}

/// Whether the number-coercion function may give `r` for the text `s`.
pub open spec fn number_gives<F: Fn(&str) -> Option<AgentValue>>(number: F, s: Seq<char>, r: Option<AgentValue>) -> bool {
    exists|t: &str| t@ == s && #[trigger] call_ensures(number, (t,), r)
}

/// What a number-coercion function gives for a text.
pub open spec fn number_spec<F: Fn(&str) -> Option<AgentValue>>(number: F) -> spec_fn(Seq<char>) -> Option<ValueView> {
    |s: Seq<char>|
        opt_value_view(
            choose|r: Option<AgentValue>| #[trigger] number_gives(number, s, r),
        )
}

/// The result of one call of the number-coercion function is its spec.
proof fn lemma_number_spec<F: Fn(&str) -> Option<AgentValue>>(number: F, t: &str, r: Option<AgentValue>)
    requires
        number_ok(number),
        call_ensures(number, (t,), r),
    ensures
        (number_spec(number))(t@) == opt_value_view(r),
{
    assert(number_gives(number, t@, r));
    let r2 = choose|r2: Option<AgentValue>| #[trigger] number_gives(number, t@, r2);
    let t2 = choose|t2: &str| t2@ == t@ && #[trigger] call_ensures(number, (t2,), r2);
    assert(call_ensures(number, (t2,), r2) && call_ensures(number, (t,), r));
}

/// A string value coerced toward a schema `type`: through `number` for
/// `"number"`, by [`coerce_string`] otherwise.
fn coerce_type<F: Fn(&str) -> Option<AgentValue>>(v: AgentValue, schema_type: &str, number: &F) -> (r: AgentValue)
    requires
        number_ok(*number),
    ensures
        value_view(r) == (if value_view(v) is String {
            if schema_type@ == "number"@ {
                match (number_spec(*number))(value_view(v)->String_0) {
                    Some(n) => n,
                    None => value_view(v),
                }
            } else {
                match coerced(schema_type@, value_view(v)->String_0) {
                    Some(Coerced::Integer(i)) => ValueView::Integer(i),
                    Some(Coerced::Boolean(b)) => ValueView::Boolean(b),
                    None => value_view(v),
                }
            }
        } else {
            value_view(v)
        }),
{
    let replacement = match &v {
        AgentValue::String(s) => {
            if str_eq(schema_type, "number") {
                let text = s.as_str();
                let n = number(text);
                proof {
                    lemma_number_spec(*number, text, n);
                }
                n
            } else {
                match coerce_string(schema_type, s.as_str()) {
                    Some(Coerced::Integer(i)) => Some(AgentValue::Integer(i)),
                    Some(Coerced::Boolean(b)) => Some(AgentValue::Boolean(b)),
                    None => None,
                }
            }
        },
        _ => None,
    };
    match replacement {
        Some(n) => n,
        None => v,
    }
}

/// A value coerced toward the variants of `anyOf` or `oneOf`: unchanged
/// when a variant accepts it as it is, else its coercion toward the first
/// variant that accepts that coercion.
fn coerce_variants<F: Fn(&str) -> Option<AgentValue>>(
    v: AgentValue,
    variants: &Vec<AgentValue>,
    number: &F,
) -> (r: AgentValue)
    requires
        number_ok(*number),
    ensures
        value_view(r) == (if some_variant_accepts(items_view(variants@), value_view(v)) {
            value_view(v)
        } else {
            first_accepted(value_view(v), items_view(variants@), 0, number_spec(*number))
        }),
    decreases *variants, 0nat,
{
    proof {
        lemma_items_view(variants@);
    }
    let ghost vv = items_view(variants@);
    let ghost v0 = value_view(v);
    let mut i: usize = 0;
    while i < variants.len()
        invariant
            i <= variants@.len(),
            vv == items_view(variants@),
            vv.len() == variants@.len(),
            forall|j: int| 0 <= j < variants@.len() ==> #[trigger] vv[j] == value_view(variants@[j]),
            v0 == value_view(v),
            forall|j: int| 0 <= j < i ==> !#[trigger] schema_accepts(vv[j], v0),
        decreases variants@.len() - i,
    {
        if accepts(&variants[i], &v) {
            assert(schema_accepts(vv[i as int], v0));
            return v;
        }
        i = i + 1;
    }
    let ghost num = number_spec(*number);
    let mut k: usize = 0;
    while k < variants.len()
        invariant
            k <= variants@.len(),
            vv == items_view(variants@),
            vv.len() == variants@.len(),
            forall|j: int| 0 <= j < variants@.len() ==> #[trigger] vv[j] == value_view(variants@[j]),
            v0 == value_view(v),
            !some_variant_accepts(vv, v0),
            num == number_spec(*number),
            number_ok(*number),
            first_accepted(v0, vv, 0, num) == first_accepted(v0, vv, k as int, num),
        decreases variants@.len() - k,
    {
        proof {
            assert(decreases_to!(*variants => variants@));
            assert(decreases_to!(variants@ => variants@[k as int]));
        }
        let candidate = coerce_value(copy_value(&v), &variants[k], number);
        if accepts(&variants[k], &candidate) {
            return candidate;
        }
        k = k + 1;
    }
    v
}

/// The fields of an object value with its properties coerced toward their
/// schemas, in the schema's order.
fn coerce_properties<F: Fn(&str) -> Option<AgentValue>>(
    fields: Vec<(String, AgentValue)>,
    props: &Vec<(String, AgentValue)>,
    number: &F,
) -> (r: Vec<(String, AgentValue)>)
    requires
        number_ok(*number),
    ensures
        fields_view(r@) == with_properties(fields_view(fields@), fields_view(props@), 0, number_spec(*number)),
    decreases *props, 0nat,
{
    proof {
        lemma_fields_view(props@);
    }
    let ghost pv = fields_view(props@);
    let ghost num = number_spec(*number);
    let ghost f0 = fields_view(fields@);
    let mut fields = fields;
    let mut k: usize = 0;
    while k < props.len()
        invariant
            k <= props@.len(),
            pv == fields_view(props@),
            pv.len() == props@.len(),
            forall|j: int| 0 <= j < props@.len() ==> #[trigger] pv[j] == (props@[j].0@, value_view(props@[j].1)),
            num == number_spec(*number),
            number_ok(*number),
            with_properties(f0, pv, 0, num) == with_properties(fields_view(fields@), pv, k as int, num),
        decreases props@.len() - k,
    {
        let ghost before = fields@;
        proof {
            lemma_fields_view(before);
        }
        match field_index(&fields, props[k].0.as_str()) {
            Some(j) => {
                proof {
                    lemma_field_pos(fields_view(before), props@[k as int].0@);
                    assert(decreases_to!(*props => props@));
                    assert(decreases_to!(props@ => props@[k as int]));
                    assert(decreases_to!(props@[k as int] => props@[k as int].1));
                }
                let (name, val) = fields.remove(j);
                let c = coerce_value(val, &props[k].1, number);
                fields.insert(j, (name, c));
                proof {
                    assert(fields@ =~= before.update(j as int, (name, c)));
                    lemma_fields_view(fields@);
                    assert(fields_view(fields@) =~= fields_view(before).update(
                        j as int,
                        (fields_view(before)[j as int].0, coerced_by_schema(fields_view(before)[j as int].1, pv[k as int].1, num)),
                    ));
                }
            },
            None => {},
        }
        k = k + 1;
    }
    fields
}

/// The elements of an array value, each coerced toward the `items` schema.
fn coerce_items<F: Fn(&str) -> Option<AgentValue>>(
    items: Vec<AgentValue>,
    schema: &AgentValue,
    number: &F,
) -> (r: Vec<AgentValue>)
    requires
        number_ok(*number),
    ensures
        items_view(r@) == coerced_items(items_view(items@), value_view(*schema), number_spec(*number)),
    decreases *schema, 1nat,
{
    let ghost orig = items@;
    let ghost num = number_spec(*number);
    let ghost sv = value_view(*schema);
    let mut rest = items;
    let mut out: Vec<AgentValue> = Vec::new();
    let ghost mut k: int = 0;
    proof {
        assert(orig.skip(0) =~= orig);
        assert(items_view(orig.take(0)) =~= Seq::<ValueView>::empty());
    }
    while rest.len() > 0
        invariant
            0 <= k <= orig.len(),
            rest@ == orig.skip(k),
            num == number_spec(*number),
            sv == value_view(*schema),
            number_ok(*number),
            items_view(out@) == coerced_items(items_view(orig.take(k)), sv, num),
        decreases rest@.len(),
    {
        let x = rest.remove(0);
        proof {
            assert(x == orig[k]);
        }
        let c = coerce_value(x, schema, number);
        let ghost before = out@;
        out.push(c);
        proof {
            assert(orig.take(k + 1).drop_last() =~= orig.take(k));
            assert(items_view(orig.take(k + 1)) == items_view(orig.take(k)).push(value_view(x)));
            assert(out@.drop_last() =~= before);
            assert(items_view(out@) == items_view(before).push(value_view(c)));
            let l = items_view(orig.take(k + 1));
            assert(l.drop_last() =~= items_view(orig.take(k)));
            assert(l.last() == value_view(x));
            assert(coerced_items(l, sv, num) == coerced_items(items_view(orig.take(k)), sv, num).push(
                coerced_by_schema(value_view(x), sv, num),
            ));
            assert(rest@ =~= orig.skip(k + 1));
            k = k + 1;
        }
    }
    proof {
        assert(orig.take(k) =~= orig);
    }
    out
}

/// A value coerced toward a JSON Schema (see [`coerced_by_schema`]);
/// `number` gives what a string becomes under the type `"number"`.
fn coerce_value<F: Fn(&str) -> Option<AgentValue>>(v: AgentValue, schema: &AgentValue, number: &F) -> (r: AgentValue)
    requires
        number_ok(*number),
    ensures
        value_view(r) == coerced_by_schema(value_view(v), value_view(*schema), number_spec(*number)),
    decreases *schema, 0nat,
{
    let sf = match schema {
        AgentValue::Object(sf) => sf,
        _ => return v,
    };
    proof {
        lemma_fields_view(sf@);
    }
    let ghost sv = fields_view(sf@);
    let ghost num = number_spec(*number);
    let ghost v0 = value_view(v);
    let mut v = v;
    proof {
        lemma_field_pos(sv, "anyOf"@);
        lemma_field_pos(sv, "oneOf"@);
        lemma_field_pos(sv, "type"@);
        lemma_field_pos(sv, "properties"@);
        lemma_field_pos(sv, "items"@);
        assert(decreases_to!(*schema => *sf));
        assert(decreases_to!(*sf => sf@));
    }
    // anyOf, or else oneOf
    let a = field_index(sf, "anyOf");
    let mut done = false;
    match a {
        Some(j) => match &sf[j].1 {
            AgentValue::Array(vs) => {
                proof {
                    assert(decreases_to!(sf@ => sf@[j as int]));
                    assert(decreases_to!(sf@[j as int] => sf@[j as int].1));
                    assert(sv[j as int].1 == ValueView::Array(items_view(vs@)));
                }
                v = coerce_variants(v, vs, number);
                done = true;
            },
            _ => {},
        },
        None => {},
    }
    if !done {
        match field_index(sf, "oneOf") {
            Some(j) => match &sf[j].1 {
                AgentValue::Array(vs) => {
                    proof {
                        assert(decreases_to!(sf@ => sf@[j as int]));
                        assert(decreases_to!(sf@[j as int] => sf@[j as int].1));
                        assert(sv[j as int].1 == ValueView::Array(items_view(vs@)));
                    }
                    v = coerce_variants(v, vs, number);
                },
                _ => {},
            },
            None => {},
        }
    }
    let ghost v1 = value_view(v);
    assert(v1 == (if 0 <= field_pos(sv, "anyOf"@) < sv.len() && sv[field_pos(sv, "anyOf"@)].1 is Array {
        if some_variant_accepts(sv[field_pos(sv, "anyOf"@)].1->Array_0, v0) {
            v0
        } else {
            first_accepted(v0, sv[field_pos(sv, "anyOf"@)].1->Array_0, 0, num)
        }
    } else if 0 <= field_pos(sv, "oneOf"@) < sv.len() && sv[field_pos(sv, "oneOf"@)].1 is Array {
        if some_variant_accepts(sv[field_pos(sv, "oneOf"@)].1->Array_0, v0) {
            v0
        } else {
            first_accepted(v0, sv[field_pos(sv, "oneOf"@)].1->Array_0, 0, num)
        }
    } else {
        v0
    }));
    // type
    match field_index(sf, "type") {
        Some(t) => match &sf[t].1 {
            AgentValue::String(ty) => {
                v = coerce_type(v, ty.as_str(), number);
            },
            _ => {},
        },
        None => {},
    }
    let ghost v2 = value_view(v);
    // properties
    match field_index(sf, "properties") {
        Some(p) => match &sf[p].1 {
            AgentValue::Object(props) => {
                proof {
                    assert(decreases_to!(sf@ => sf@[p as int]));
                    assert(decreases_to!(sf@[p as int] => sf@[p as int].1));
                    assert(sv[p as int].1 == ValueView::Object(fields_view(props@)));
                }
                v = match v {
                    AgentValue::Object(fields) => AgentValue::Object(coerce_properties(fields, props, number)),
                    other => other,
                };
            },
            _ => {},
        },
        None => {},
    }
    let ghost v3 = value_view(v);
    // items
    match field_index(sf, "items") {
        Some(it) => {
            proof {
                assert(decreases_to!(sf@ => sf@[it as int]));
                assert(decreases_to!(sf@[it as int] => sf@[it as int].1));
            }
            v = match v {
                AgentValue::Array(items) => AgentValue::Array(coerce_items(items, &sf[it].1, number)),
                other => other,
            };
        },
        None => {},
    }
    v
}


/// `jsonschema::validator_for`: whether the schema compiles.
#[verifier::external_body]
fn compiles(schema: &AgentValue) -> (r: bool)
    ensures
        r == schema_compiles(value_view(*schema)),
{
    jsonschema::validator_for(&json_of(schema)).is_ok()
}

/// Coerces tool-call arguments toward a JSON Schema in place (see
/// [`coerced_by_schema`]); `number` gives what a string becomes under the
/// type `"number"`.
pub fn coerce_by_schema<F: Fn(&str) -> Option<AgentValue>>(value: &mut AgentValue, schema: &AgentValue, number: &F)
    requires
        number_ok(*number),
    ensures
        value_view(*final(value)) == coerced_by_schema(
            value_view(*old(value)),
            value_view(*schema),
            number_spec(*number),
        ),
{
    let mut taken = AgentValue::Unit;
    std::mem::swap(&mut taken, value);
    *value = coerce_value(taken, schema, number);
}

/// One validation error as reported: `at '<instance path>': <message>`.
pub open spec fn error_line(e: (Seq<char>, Seq<char>)) -> Seq<char> {
    "at '"@ + e.0 + "': "@ + e.1
}

/// The reported validation errors, joined by `"; "`.
pub open spec fn errors_text(errors: Seq<(Seq<char>, Seq<char>)>) -> Seq<char> {
    join_with(errors.map_values(|e: (Seq<char>, Seq<char>)| error_line(e)), "; "@)
}

/// Validates tool-call arguments against the tool's JSON Schema after
/// coercing them toward it. A schema that does not compile skips both:
/// the arguments stay as they are and the call goes ahead. Otherwise the
/// arguments are coerced, and the result is an error exactly when the
/// schema reports errors for them, its text the errors joined by `"; "`.
pub fn validate_tool_args<F: Fn(&str) -> Option<AgentValue>>(
    schema: &AgentValue,
    args: &mut AgentValue,
    number: &F,
) -> (r: Result<(), String>)
    requires
        number_ok(*number),
    ensures
        !schema_compiles(value_view(*schema)) ==> r is Ok && *final(args) == *old(args),
        schema_compiles(value_view(*schema)) ==> {
            &&& value_view(*final(args)) == coerced_by_schema(
                value_view(*old(args)),
                value_view(*schema),
                number_spec(*number),
            )
            &&& match r {
                Ok(()) => schema_errors(value_view(*schema), value_view(*final(args))).len() == 0,
                Err(e) => schema_errors(value_view(*schema), value_view(*final(args))).len() > 0
                    && e@ == errors_text(schema_errors(value_view(*schema), value_view(*final(args)))),
            }
        },
{
    if !compiles(schema) {
        return Ok(());
    }
    coerce_by_schema(args, schema, number);
    let errors = match schema_error_list(schema, args) {
        Some(errors) => errors,
        None => return Ok(()),
    };
    if errors.len() == 0 {
        return Ok(());
    }
    let ghost ev = pairs_view(errors@);
    let mut lines: Vec<String> = Vec::new();
    let mut i: usize = 0;
    while i < errors.len()
        invariant
            i <= errors@.len(),
            ev == pairs_view(errors@),
            lines@.len() == i,
            forall|j: int| 0 <= j < i ==> #[trigger] lines@[j]@ == error_line(ev[j]),
        decreases errors@.len() - i,
    {
        let line = concat3("at '", errors[i].0.as_str(), "': ");
        let line = concat2(line.as_str(), errors[i].1.as_str());
        lines.push(line);
        i = i + 1;
    }
    proof {
        assert(strs_view(lines@) =~= ev.map_values(|e: (Seq<char>, Seq<char>)| error_line(e)));
    }
    Err(join_strings(&lines, "; "))
}


/// The coercion toward variants from `k` on is the coercion toward the
/// first of them that accepts its coercion.
proof fn lemma_first_accepted(
    v: ValueView,
    variants: Seq<ValueView>,
    k: int,
    i: int,
    number: spec_fn(Seq<char>) -> Option<ValueView>,
)
    requires
        0 <= k <= i < variants.len(),
        schema_accepts(variants[i], coerced_by_schema(v, variants[i], number)),
        forall|j: int|
            k <= j < i ==> !#[trigger] schema_accepts(variants[j], coerced_by_schema(v, variants[j], number)),
    ensures
        first_accepted(v, variants, k, number) == coerced_by_schema(v, variants[i], number),
    decreases i - k,
{
    if k < i {
        assert(!schema_accepts(variants[k], coerced_by_schema(v, variants[k], number)));
        lemma_first_accepted(v, variants, k + 1, i, number);
    } else {
        assert(schema_accepts(variants[k], coerced_by_schema(v, variants[k], number)));
    }
}

/// Under a schema that is only `anyOf` or only `oneOf`, a value that some
/// variant accepts as it is stays as it is; otherwise it becomes its
/// coercion toward the first variant that accepts its coercion.
pub proof fn law_variants_pick_the_first_accepting_coercion(
    v: ValueView,
    variants: Seq<ValueView>,
    i: int,
    number: spec_fn(Seq<char>) -> Option<ValueView>,
)
    requires
        0 <= i < variants.len(),
    ensures
        ({
            let any_of = ValueView::Object(seq![("anyOf"@, ValueView::Array(variants))]);
            let one_of = ValueView::Object(seq![("oneOf"@, ValueView::Array(variants))]);
            &&& schema_accepts(variants[i], v) ==> coerced_by_schema(v, any_of, number) == v
                && coerced_by_schema(v, one_of, number) == v
            &&& (forall|j: int| 0 <= j < variants.len() ==> !#[trigger] schema_accepts(variants[j], v))
                && schema_accepts(variants[i], coerced_by_schema(v, variants[i], number)) && (forall|j: int|
                0 <= j < i ==> !#[trigger] schema_accepts(
                    variants[j],
                    coerced_by_schema(v, variants[j], number),
                )) ==> coerced_by_schema(v, any_of, number) == coerced_by_schema(v, variants[i], number)
                && coerced_by_schema(v, one_of, number) == coerced_by_schema(v, variants[i], number)
        }),
{
    reveal_strlit("anyOf");
    reveal_strlit("oneOf");
    reveal_strlit("type");
    reveal_strlit("properties");
    reveal_strlit("items");
    assert("anyOf"@.len() == 5 && "oneOf"@.len() == 5 && "type"@.len() == 4 && "properties"@.len() == 10
        && "items"@.len() == 5);
    assert("anyOf"@[0] == 'a' && "oneOf"@[0] == 'o' && "items"@[0] == 'i');
    let any_of_fields = seq![("anyOf"@, ValueView::Array(variants))];
    let one_of_fields = seq![("oneOf"@, ValueView::Array(variants))];
    assert(any_of_fields.drop_last() =~= Seq::<(Seq<char>, ValueView)>::empty());
    assert(one_of_fields.drop_last() =~= Seq::<(Seq<char>, ValueView)>::empty());
    let empty = Seq::<(Seq<char>, ValueView)>::empty();
    assert(field_pos(empty, "anyOf"@) == -1);
    assert(field_pos(empty, "oneOf"@) == -1);
    assert(field_pos(empty, "type"@) == -1);
    assert(field_pos(empty, "properties"@) == -1);
    assert(field_pos(empty, "items"@) == -1);
    assert(any_of_fields.last().0 == "anyOf"@);
    assert(one_of_fields.last().0 == "oneOf"@);
    assert(field_pos(any_of_fields, "anyOf"@) == 0);
    assert(field_pos(any_of_fields, "type"@) == -1);
    assert(field_pos(any_of_fields, "properties"@) == -1);
    assert(field_pos(any_of_fields, "items"@) == -1);
    assert(field_pos(one_of_fields, "anyOf"@) == -1);
    assert(field_pos(one_of_fields, "oneOf"@) == 0);
    assert(field_pos(one_of_fields, "type"@) == -1);
    assert(field_pos(one_of_fields, "properties"@) == -1);
    assert(field_pos(one_of_fields, "items"@) == -1);
    if schema_accepts(variants[i], v) {
        assert(some_variant_accepts(variants, v));
    }
    if (forall|j: int| 0 <= j < variants.len() ==> !#[trigger] schema_accepts(variants[j], v))
        && schema_accepts(variants[i], coerced_by_schema(v, variants[i], number)) && (forall|j: int|
        0 <= j < i ==> !#[trigger] schema_accepts(variants[j], coerced_by_schema(v, variants[j], number))) {
        lemma_first_accepted(v, variants, 0, i, number);
    }
}


/// The field positions of a one-field schema: the field's own name is at
/// position 0, every other schema keyword is absent.
proof fn lemma_one_field_schema(name: Seq<char>, x: ValueView)
    requires
        name == "anyOf"@ || name == "oneOf"@ || name == "type"@ || name == "properties"@ || name
            == "items"@,
    ensures
        field_pos(seq![(name, x)], name) == 0,
        forall|other: Seq<char>| other != name ==> field_pos(seq![(name, x)], other) == -1,
{
    let f = seq![(name, x)];
    assert(f.drop_last() =~= Seq::<(Seq<char>, ValueView)>::empty());
    assert forall|other: Seq<char>| other != name implies field_pos(f, other) == -1 by {
        assert(field_pos(Seq::<(Seq<char>, ValueView)>::empty(), other) == -1);
    }
    assert(field_pos(Seq::<(Seq<char>, ValueView)>::empty(), name) == -1);
}

/// The schema keywords are different names.
proof fn lemma_keywords_differ()
    ensures
        "anyOf"@ != "oneOf"@,
        "anyOf"@ != "type"@,
        "anyOf"@ != "properties"@,
        "anyOf"@ != "items"@,
        "oneOf"@ != "type"@,
        "oneOf"@ != "properties"@,
        "oneOf"@ != "items"@,
        "type"@ != "properties"@,
        "type"@ != "items"@,
        "properties"@ != "items"@,
{
    reveal_strlit("anyOf");
    reveal_strlit("oneOf");
    reveal_strlit("type");
    reveal_strlit("properties");
    reveal_strlit("items");
    assert("anyOf"@.len() == 5 && "oneOf"@.len() == 5 && "type"@.len() == 4 && "properties"@.len() == 10
        && "items"@.len() == 5);
    assert("anyOf"@[0] == 'a' && "oneOf"@[0] == 'o' && "items"@[0] == 'i');
}

/// Under a schema that is only a `type`, a string becomes an integer when
/// the type is `integer` and the text is a decimal `i64`, a boolean when
/// the type is `boolean` and the text is `true` or `false`, and what
/// `number` gives for it when the type is `number`; anything else stays as
/// it is.
pub proof fn law_type_coerces_strings(
    v: ValueView,
    t: Seq<char>,
    number: spec_fn(Seq<char>) -> Option<ValueView>,
)
    ensures
        ({
            let r = coerced_by_schema(v, ValueView::Object(seq![("type"@, ValueView::String(t))]), number);
            &&& !(v is String) ==> r == v
            &&& v matches ValueView::String(x) ==> {
                &&& t == "integer"@ ==> r == match parsed_i64(x) {
                    Some(n) => ValueView::Integer(n as i64),
                    None => v,
                }
                &&& t == "boolean"@ ==> r == (if x == "true"@ {
                    ValueView::Boolean(true)
                } else if x == "false"@ {
                    ValueView::Boolean(false)
                } else {
                    v
                })
                &&& t == "number"@ ==> r == match number(x) {
                    Some(n) => n,
                    None => v,
                }
                &&& t != "integer"@ && t != "boolean"@ && t != "number"@ ==> r == v
            }
        }),
{
    lemma_keywords_differ();
    lemma_one_field_schema("type"@, ValueView::String(t));
    reveal_strlit("integer");
    reveal_strlit("boolean");
    reveal_strlit("number");
    assert("integer"@.len() == 7 && "boolean"@.len() == 7 && "number"@.len() == 6);
    assert("integer"@[0] == 'i' && "boolean"@[0] == 'b');
}

/// Under a schema that is only `items`, an array becomes the array of its
/// elements each coerced toward the `items` schema, in order; anything
/// else stays as it is.
pub proof fn law_items_coerce_each_element(
    v: ValueView,
    item_schema: ValueView,
    number: spec_fn(Seq<char>) -> Option<ValueView>,
)
    ensures
        ({
            let r = coerced_by_schema(v, ValueView::Object(seq![("items"@, item_schema)]), number);
            &&& !(v is Array) ==> r == v
            &&& v matches ValueView::Array(xs) ==> {
                &&& r is Array
                &&& r->Array_0.len() == xs.len()
                &&& forall|j: int|
                    0 <= j < xs.len() ==> #[trigger] r->Array_0[j] == coerced_by_schema(xs[j], item_schema, number)
            }
        }),
{
    lemma_keywords_differ();
    lemma_one_field_schema("items"@, item_schema);
    if let ValueView::Array(xs) = v {
        lemma_coerced_items(xs, item_schema, number);
    }
}

/// Each element of an array coerced toward `items` is the coercion of the
/// element at the same position.
proof fn lemma_coerced_items(
    xs: Seq<ValueView>,
    schema: ValueView,
    number: spec_fn(Seq<char>) -> Option<ValueView>,
)
    ensures
        coerced_items(xs, schema, number).len() == xs.len(),
        forall|j: int|
            0 <= j < xs.len() ==> #[trigger] coerced_items(xs, schema, number)[j] == coerced_by_schema(
                xs[j],
                schema,
                number,
            ),
    decreases xs.len(),
{
    if xs.len() > 0 {
        lemma_coerced_items(xs.drop_last(), schema, number);
        assert forall|j: int| 0 <= j < xs.len() implies #[trigger] coerced_items(xs, schema, number)[j]
            == coerced_by_schema(xs[j], schema, number) by {
            if j < xs.len() - 1 {
                assert(xs[j] == xs.drop_last()[j]);
            }
        }
    }
}


/// What a field becomes once the properties before the `k`-th are applied:
/// coerced toward its property's schema when one of those names it.
pub open spec fn property_target(
    field: (Seq<char>, ValueView),
    props: Seq<(Seq<char>, ValueView)>,
    k: int,
    number: spec_fn(Seq<char>) -> Option<ValueView>,
) -> ValueView {
    if has_key(props.take(k), field.0) {
        coerced_by_schema(field.1, lookup(props, field.0)->0, number)
    } else {
        field.1
    }
}

/// With unique names, the value found under a property's name is that
/// property's.
proof fn lemma_lookup_unique(props: Seq<(Seq<char>, ValueView)>, k: int)
    requires
        keys_unique(props),
        0 <= k < props.len(),
    ensures
        lookup(props, props[k].0) == Some(props[k].1),
{
    assert(has_key(props, props[k].0));
    let i = choose|i: int| 0 <= i < props.len() && #[trigger] props[i].0 == props[k].0;
    if i != k {
        if i < k {
            assert(props[i].0 != props[k].0);
        } else {
            assert(props[k].0 != props[i].0);
        }
    }
}

proof fn lemma_with_properties(
    f0: Seq<(Seq<char>, ValueView)>,
    cur: Seq<(Seq<char>, ValueView)>,
    props: Seq<(Seq<char>, ValueView)>,
    k: int,
    number: spec_fn(Seq<char>) -> Option<ValueView>,
)
    requires
        0 <= k <= props.len(),
        keys_unique(f0),
        keys_unique(props),
        cur.len() == f0.len(),
        forall|j: int|
            0 <= j < f0.len() ==> #[trigger] cur[j] == (f0[j].0, property_target(f0[j], props, k, number)),
    ensures
        with_properties(cur, props, k, number).len() == f0.len(),
        forall|j: int|
            0 <= j < f0.len() ==> #[trigger] with_properties(cur, props, k, number)[j] == (
                f0[j].0,
                property_target(f0[j], props, props.len() as int, number),
            ),
    decreases props.len() - k,
{
    if k < props.len() {
        let key = props[k].0;
        lemma_field_pos(cur, key);
        let jpos = field_pos(cur, key);
        let next = if 0 <= jpos < cur.len() {
            cur.update(jpos, (cur[jpos].0, coerced_by_schema(cur[jpos].1, props[k].1, number)))
        } else {
            cur
        };
        lemma_lookup_unique(props, k);
        assert forall|j: int| 0 <= j < f0.len() implies #[trigger] next[j] == (
            f0[j].0,
            property_target(f0[j], props, k + 1, number),
        ) by {
            let name = f0[j].0;
            assert(cur[j].0 == name);
            if has_key(props.take(k + 1), name) {
                let q = choose|q: int| 0 <= q < k + 1 && #[trigger] props.take(k + 1)[q].0 == name;
                if q < k {
                    assert(props.take(k)[q].0 == name);
                    assert(has_key(props.take(k), name));
                }
            }
            if has_key(props.take(k), name) {
                let q = choose|q: int| 0 <= q < k && #[trigger] props.take(k)[q].0 == name;
                assert(props.take(k + 1)[q].0 == name);
                assert(has_key(props.take(k + 1), name));
            }
            if name == key {
                assert(props.take(k + 1)[k].0 == name);
                assert(has_key(props.take(k + 1), name));
                if has_key(props.take(k), name) {
                    let q = choose|q: int| 0 <= q < k && #[trigger] props.take(k)[q].0 == name;
                    assert(props[q].0 == props[k].0);
                }
                assert(jpos != -1);
                if jpos != j {
                    if jpos < j {
                        assert(f0[jpos].0 != f0[j].0);
                    } else {
                        assert(f0[j].0 != f0[jpos].0);
                    }
                }
            } else {
                if has_key(props.take(k + 1), name) {
                    let q = choose|q: int| 0 <= q < k + 1 && #[trigger] props.take(k + 1)[q].0 == name;
                    assert(q != k);
                    assert(props.take(k)[q].0 == name);
                }
                if 0 <= jpos < cur.len() {
                    assert(jpos != j);
                }
            }
        }
        lemma_with_properties(f0, next, props, k + 1, number);
    } else {
        assert(props.take(k) =~= props);
    }
}

/// Under a schema that is only `properties` with distinct names, an object
/// with distinct field names keeps its fields in order, each named one
/// coerced toward its property's schema and the others as they are.
pub proof fn law_properties_coerce_named_fields(
    fields: Seq<(Seq<char>, ValueView)>,
    props: Seq<(Seq<char>, ValueView)>,
    number: spec_fn(Seq<char>) -> Option<ValueView>,
)
    requires
        keys_unique(props),
        keys_unique(fields),
    ensures
        ({
            let r = coerced_by_schema(
                ValueView::Object(fields),
                ValueView::Object(seq![("properties"@, ValueView::Object(props))]),
                number,
            );
            &&& r is Object
            &&& r->Object_0.len() == fields.len()
            &&& forall|j: int|
                0 <= j < fields.len() ==> #[trigger] r->Object_0[j] == (fields[j].0, if has_key(props, fields[j].0) {
                    coerced_by_schema(fields[j].1, lookup(props, fields[j].0)->0, number)
                } else {
                    fields[j].1
                })
        }),
{
    lemma_keywords_differ();
    lemma_one_field_schema("properties"@, ValueView::Object(props));
    assert forall|j: int| 0 <= j < fields.len() implies #[trigger] fields[j] == (
        fields[j].0,
        property_target(fields[j], props, 0, number),
    ) by {
        if has_key(props.take(0), fields[j].0) {
            let q = choose|q: int| 0 <= q < 0 && #[trigger] props.take(0)[q].0 == fields[j].0;
        }
    }
    lemma_with_properties(fields, fields, props, 0, number);
    assert(props.take(props.len() as int) =~= props);
}


/// The report of validation errors: one error reads `at '<path>': <message>`,
/// and each further error is added after `"; "`.
pub proof fn law_errors_are_reported_in_order(errors: Seq<(Seq<char>, Seq<char>)>, e: (Seq<char>, Seq<char>))
    ensures
        errors_text(seq![e]) == "at '"@ + e.0 + "': "@ + e.1,
        errors.len() > 0 ==> errors_text(errors.push(e)) == errors_text(errors) + "; "@ + ("at '"@ + e.0
            + "': "@ + e.1),
{
    let f = |x: (Seq<char>, Seq<char>)| error_line(x);
    assert(seq![e].map_values(f) =~= seq![error_line(e)]);
    assert(errors.push(e).map_values(f) =~= errors.map_values(f).push(error_line(e)));
    assert(errors.map_values(f).push(error_line(e)).drop_last() =~= errors.map_values(f));
}

} // verus!
