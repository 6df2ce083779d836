//! Per-flow bookkeeping of the tool-call agents: a bounded, insertion-ordered
//! table keyed by flow (`ctx_key`), the iteration counter of the loop guard
//! and the record of executed tool-call ids.

use vstd::prelude::*;
use crate::text::{concat3, i64_to_string, int_decimal, str_eq};

verus! {

/// Upper bound on tracked flows; the oldest entry is evicted when exceeded.
pub const MAX_TRACKED_CTX_KEYS: usize = 1024;

/// Whether no key occurs twice in the entries.
pub open spec fn keys_unique<T>(s: Seq<(Seq<char>, T)>) -> bool {
    forall|i: int, j: int| 0 <= i < j < s.len() ==> #[trigger] s[i].0 != #[trigger] s[j].0
}

/// Whether `key` occurs in the entries.
pub open spec fn has_key<T>(s: Seq<(Seq<char>, T)>, key: Seq<char>) -> bool {
    exists|i: int| 0 <= i < s.len() && #[trigger] s[i].0 == key
}

/// The value stored under `key`, if any (the first entry with that key).
pub open spec fn lookup<T>(s: Seq<(Seq<char>, T)>, key: Seq<char>) -> Option<T> {
    if has_key(s, key) {
        let i = choose|i: int| 0 <= i < s.len() && #[trigger] s[i].0 == key;
        Some(s[i].1)
    } else {
        None
    }
}

/// The entries after recording `value` under `key`: an existing key keeps its
/// position and gets the new value; a new key is appended, first evicting the
/// oldest entry when [`MAX_TRACKED_CTX_KEYS`] entries are tracked.
pub open spec fn recorded<T>(s: Seq<(Seq<char>, T)>, key: Seq<char>, value: T) -> Seq<(Seq<char>, T)> {
    if has_key(s, key) {
        let i = choose|i: int| 0 <= i < s.len() && #[trigger] s[i].0 == key;
        s.update(i, (key, value))
    } else if s.len() >= MAX_TRACKED_CTX_KEYS {
        s.drop_first().push((key, value))
    } else {
        s.push((key, value))
    }
}

/// The entries with every value transformed by `f`.
pub open spec fn map_entries<A, B>(s: Seq<(Seq<char>, A)>, f: spec_fn(A) -> B) -> Seq<(Seq<char>, B)> {
    s.map_values(|e: (Seq<char>, A)| (e.0, f(e.1)))
}

/// Transforming the values keeps the keys, and so what is found under them.
pub proof fn lemma_map_entries<A, B>(s: Seq<(Seq<char>, A)>, f: spec_fn(A) -> B, key: Seq<char>)
    ensures
        map_entries(s, f).len() == s.len(),
        has_key(map_entries(s, f), key) == has_key(s, key),
        keys_unique(s) ==> keys_unique(map_entries(s, f)),
        keys_unique(s) ==> lookup(map_entries(s, f), key) == match lookup(s, key) {
            Some(v) => Some(f(v)),
            None => None,
        },
{
    let t = map_entries(s, f);
    assert forall|i: int| 0 <= i < s.len() implies #[trigger] t[i].0 == s[i].0 by {}
    if has_key(s, key) {
        let i = choose|i: int| 0 <= i < s.len() && #[trigger] s[i].0 == key;
        assert(t[i].0 == key);
    }
    if has_key(t, key) {
        let j = choose|j: int| 0 <= j < t.len() && #[trigger] t[j].0 == key;
        assert(s[j].0 == key);
    }
    if keys_unique(s) {
        assert forall|a: int, b: int| 0 <= a < b < t.len() implies #[trigger] t[a].0
            != #[trigger] t[b].0 by {
            assert(t[a].0 == s[a].0);
            assert(t[b].0 == s[b].0);
        }
        if has_key(s, key) {
            let i = choose|i: int| 0 <= i < s.len() && #[trigger] s[i].0 == key;
            let j = choose|j: int| 0 <= j < t.len() && #[trigger] t[j].0 == key;
            assert(s[j].0 == key);
        }
    }
}

/// Recording commutes with transforming the values.
pub proof fn lemma_recorded_map<A, B>(
    s: Seq<(Seq<char>, A)>,
    f: spec_fn(A) -> B,
    key: Seq<char>,
    v: A,
)
    requires
        keys_unique(s),
    ensures
        map_entries(recorded(s, key, v), f) == recorded(map_entries(s, f), key, f(v)),
{
    lemma_map_entries(s, f, key);
    let t = map_entries(s, f);
    if has_key(s, key) {
        let i = choose|i: int| 0 <= i < s.len() && #[trigger] s[i].0 == key;
        let j = choose|j: int| 0 <= j < t.len() && #[trigger] t[j].0 == key;
        assert(s[j].0 == key);
        assert(i == j);
        assert(map_entries(s.update(i, (key, v)), f) =~= t.update(i, (key, f(v))));
    } else if s.len() >= MAX_TRACKED_CTX_KEYS {
        assert(map_entries(s.drop_first().push((key, v)), f) =~= t.drop_first().push((key, f(v))));
    } else {
        assert(map_entries(s.push((key, v)), f) =~= t.push((key, f(v))));
    }
}

/// A bounded table of per-flow state, keyed by `ctx_key` and kept in the
/// order in which the keys were first recorded.
pub struct FlowTable<T> {
    entries: Vec<(String, T)>,
}

impl<T> View for FlowTable<T> {
    type V = Seq<(Seq<char>, T)>;

    closed spec fn view(&self) -> Seq<(Seq<char>, T)> {
        self.entries@.map_values(|e: (String, T)| (e.0@, e.1))
    }
}

impl<T> FlowTable<T> {
    /// The table invariant: keys are unique and at most
    /// [`MAX_TRACKED_CTX_KEYS`] flows are tracked.
    pub open spec fn wf(&self) -> bool {
        &&& keys_unique(self@)
        &&& self@.len() <= MAX_TRACKED_CTX_KEYS
    }

    /// Creates an empty table.
    pub fn new() -> (r: Self)
        ensures
            r.wf(),
            r@ == Seq::<(Seq<char>, T)>::empty(),
    {
        let r = FlowTable { entries: Vec::new() };
        assert(r@ =~= Seq::<(Seq<char>, T)>::empty());
        r
    }

    /// Number of tracked flows.
    pub fn len(&self) -> (n: usize)
        ensures
            n == self@.len(),
    {
        self.entries.len()
    }

    /// Position of `key` in the table.
    fn position(&self, key: &str) -> (r: Option<usize>)
        requires
            self.wf(),
        ensures
            match r {
                Some(i) => i < self@.len() && self@[i as int].0 == key@,
                None => !has_key(self@, key@),
            },
    {
        let mut i: usize = 0;
        while i < self.entries.len()
            invariant
                i <= self.entries@.len(),
                self@.len() == self.entries@.len(),
                forall|j: int| 0 <= j < i ==> #[trigger] self@[j].0 != key@,
            decreases self.entries@.len() - i,
        {
            if str_eq(self.entries[i].0.as_str(), key) {
                return Some(i);
            }
            i = i + 1;
        }
        None
    }

    /// The state stored for `key`, if the flow is tracked.
    pub fn get(&self, key: &str) -> (r: Option<&T>)
        requires
            self.wf(),
        ensures
            match r {
                Some(v) => lookup(self@, key@) == Some(*v),
                None => lookup(self@, key@) is None,
            },
    {
        match self.position(key) {
            Some(i) => {
                proof {
                    assert(has_key(self@, key@));
                    let k = choose|k: int| 0 <= k < self@.len() && #[trigger] self@[k].0 == key@;
                    assert(k == i);
                }
                Some(&self.entries[i].1)
            },
            None => None,
        }
    }

    /// Records `value` for `key`. A new key is appended after evicting the
    /// oldest tracked flow when the table is full; an existing key keeps its
    /// position.
    pub fn record(&mut self, key: &str, value: T)
        requires
            old(self).wf(),
        ensures
            final(self).wf(),
            final(self)@ == recorded(old(self)@, key@, value),
    {
        let ghost old_view = self@;
        match self.position(key) {
            Some(i) => {
                proof {
                    let k = choose|k: int| 0 <= k < old_view.len() && #[trigger] old_view[k].0 == key@;
                    assert(k == i);
                }
                let mut e = self.entries.remove(i);
                e.1 = value;
                self.entries.insert(i, e);
                assert(self@ =~= old_view.update(i as int, (key@, value)));
            },
            None => {
                if self.entries.len() >= MAX_TRACKED_CTX_KEYS {
                    self.entries.remove(0);
                    assert(self@ =~= old_view.drop_first());
                }
                self.entries.push((key.to_owned(), value));
                proof {
                    if old_view.len() >= MAX_TRACKED_CTX_KEYS {
                        assert(self@ =~= old_view.drop_first().push((key@, value)));
                    } else {
                        assert(self@ =~= old_view.push((key@, value)));
                    }
                    assert forall|a: int, b: int| 0 <= a < b < self@.len() implies #[trigger] self@[a].0
                        != #[trigger] self@[b].0 by {
                        if b == self@.len() - 1 {
                            if old_view.len() >= MAX_TRACKED_CTX_KEYS {
                                assert(self@[a] == old_view[a + 1]);
                            } else {
                                assert(self@[a] == old_view[a]);
                            }
                        } else if old_view.len() >= MAX_TRACKED_CTX_KEYS {
                            assert(self@[a] == old_view[a + 1]);
                            assert(self@[b] == old_view[b + 1]);
                        } else {
                            assert(self@[a] == old_view[a]);
                            assert(self@[b] == old_view[b]);
                        }
                    }
                }
            },
        }
    }

    /// Forgets every tracked flow.
    pub fn clear(&mut self)
        ensures
            final(self).wf(),
            final(self)@ == Seq::<(Seq<char>, T)>::empty(),
    {
        self.entries.clear();
        assert(self@ =~= Seq::<(Seq<char>, T)>::empty());
    }
}

} // verus!

verus! {

/// Whether a value passing the loop guard is a counted tool-call iteration:
/// a final (non-streaming) assistant message that requests at least one tool
/// call.
pub open spec fn is_countable(role: Seq<char>, streaming: bool, tool_call_count: nat) -> bool {
    role == "assistant"@ && !streaming && tool_call_count > 0
}

/// What the loop guard reads of a message value.
pub struct LoopInput {
    /// The sender's role.
    pub role: String,
    /// Whether the message is a partial streaming response.
    pub streaming: bool,
    /// How many tool calls it carries (0 without any).
    pub tool_call_count: usize,
    /// The message id, if any.
    pub id: Option<String>,
}

/// Whether the guard counts the value: a final assistant message with tool
/// calls.
pub open spec fn input_countable(message: Option<&LoopInput>) -> bool {
    match message {
        Some(m) => is_countable(m.role@, m.streaming, m.tool_call_count as nat),
        None => false,
    }
}

/// The id of a message value.
pub open spec fn input_id(message: Option<&LoopInput>) -> Option<Seq<char>> {
    match message {
        Some(m) => m.id.deep_view(),
        None => None,
    }
}

/// What the loop guard does with one incoming value.
#[derive(Debug, Clone, Copy, PartialEq, Eq)]
pub enum LoopAction {
    /// Forward the value unchanged on the `message` port.
    Forward,
    /// Swallow the value (a re-delivery of an already blocked message).
    Drop,
    /// Do not forward; emit the limit notice on `limit_exceeded`.
    LimitExceeded,
}

/// Whether `count` exceeds a positive `max_iterations` (a limit `<= 0` is
/// disabled).
pub open spec fn over_limit(count: int, max_iterations: int) -> bool {
    max_iterations > 0 && count > max_iterations
}

/// `u32::saturating_add(1)`.
pub open spec fn bump(count: u32) -> u32 {
    if count == u32::MAX { u32::MAX } else { (count + 1) as u32 }
}

/// The per-flow `(count, last counted message id)` before a message arrives.
pub open spec fn flow_count(s: Seq<(Seq<char>, (u32, Option<Seq<char>>))>, key: Seq<char>) -> (
    u32,
    Option<Seq<char>>,
) {
    match lookup(s, key) {
        Some(c) => c,
        None => (0u32, None),
    }
}

/// Whether a countable message is a re-delivery of the last counted one.
pub open spec fn is_redelivery(last: Option<Seq<char>>, id: Option<Seq<char>>) -> bool {
    id is Some && last == id
}

/// The guard's decision for a message: uncounted values and re-deliveries of
/// a forwarded message pass, a re-delivery of a blocked message is dropped,
/// and a new countable message is counted and blocked once the count exceeds
/// the limit.
pub open spec fn loop_decision(
    s: Seq<(Seq<char>, (u32, Option<Seq<char>>))>,
    key: Seq<char>,
    countable: bool,
    id: Option<Seq<char>>,
    max_iterations: int,
) -> LoopAction {
    let (count, last) = flow_count(s, key);
    if !countable {
        LoopAction::Forward
    } else if is_redelivery(last, id) {
        if over_limit(count as int, max_iterations) {
            LoopAction::Drop
        } else {
            LoopAction::Forward
        }
    } else if over_limit(bump(count) as int, max_iterations) {
        LoopAction::LimitExceeded
    } else {
        LoopAction::Forward
    }
}

/// The per-flow counters after the guard saw a message: only a new countable
/// message changes them, recording the bumped count and its id.
pub open spec fn loop_counts_after(
    s: Seq<(Seq<char>, (u32, Option<Seq<char>>))>,
    key: Seq<char>,
    countable: bool,
    id: Option<Seq<char>>,
) -> Seq<(Seq<char>, (u32, Option<Seq<char>>))> {
    let (count, last) = flow_count(s, key);
    if !countable || is_redelivery(last, id) {
        s
    } else {
        recorded(s, key, (bump(count), id))
    }
}

/// The counters of the loop guard: per flow, the number of counted tool-call
/// iterations and the id of the last counted message.
pub struct LoopCounts {
    counts: FlowTable<(u32, Option<String>)>,
}

impl View for LoopCounts {
    type V = Seq<(Seq<char>, (u32, Option<Seq<char>>))>;

    closed spec fn view(&self) -> Seq<(Seq<char>, (u32, Option<Seq<char>>))> {
        counts_view(self.counts@)
    }
}

/// The counters with message ids taken by their characters.
pub open spec fn counts_view(s: Seq<(Seq<char>, (u32, Option<String>))>) -> Seq<
    (Seq<char>, (u32, Option<Seq<char>>)),
> {
    map_entries(s, |c: (u32, Option<String>)| (c.0, c.1.deep_view()))
}

/// `Option<String>` equality by characters.
fn opt_str_eq(a: &Option<String>, b: &Option<String>) -> (r: bool)
    ensures
        r == (a.deep_view() == b.deep_view()),
{
    match (a, b) {
        (Some(x), Some(y)) => str_eq(x.as_str(), y.as_str()),
        (None, None) => true,
        _ => false,
    }
}

impl LoopCounts {
    /// Whether the counters are well formed.
    pub closed spec fn wf(&self) -> bool {
        self.counts.wf()
    }

    /// Fresh counters with no tracked flow.
    pub fn new() -> (r: Self)
        ensures
            r.wf(),
            r@ == Seq::<(Seq<char>, (u32, Option<Seq<char>>))>::empty(),
    {
        let r = LoopCounts { counts: FlowTable::new() };
        assert(r@ =~= Seq::<(Seq<char>, (u32, Option<Seq<char>>))>::empty());
        r
    }

    /// Number of tracked flows.
    pub fn len(&self) -> (n: usize)
        ensures
            n == self@.len(),
    {
        self.counts.len()
    }

    /// The `(count, last counted id)` of a flow, if tracked.
    pub fn get(&self, ctx_key: &str) -> (r: Option<(u32, Option<String>)>)
        requires
            self.wf(),
        ensures
            match r {
                Some(c) => lookup(self@, ctx_key@) == Some((c.0, c.1.deep_view())),
                None => lookup(self@, ctx_key@) is None,
            },
    {
        proof {
            self.lemma_lookup(ctx_key@);
        }
        match self.counts.get(ctx_key) {
            Some(c) => Some((c.0, c.1.clone())),
            None => None,
        }
    }

    proof fn lemma_lookup(&self, key: Seq<char>)
        requires
            self.wf(),
        ensures
            lookup(self@, key) == match lookup(self.counts@, key) {
                Some(c) => Some((c.0, c.1.deep_view())),
                None => None,
            },
            keys_unique(self@),
            self@.len() == self.counts@.len(),
    {
        lemma_map_entries(self.counts@, |c: (u32, Option<String>)| (c.0, c.1.deep_view()), key);
    }

    /// Decides what the guard does with one value and updates the counters.
    ///
    /// `message` holds what the guard reads of the value when it is a
    /// message; `None` for any other value. Only final assistant messages
    /// with tool calls are counted (see [`is_countable`]); everything else
    /// passes through. A counted re-delivery of the last counted message is
    /// never re-counted: it is forwarded if it was forwarded the first time
    /// and dropped otherwise. Any other counted message bumps the flow's
    /// count (saturating) and is blocked once the count exceeds a positive
    /// `max_iterations`.
    pub fn observe(&mut self, ctx_key: &str, message: Option<&LoopInput>, max_iterations: i64) -> (r:
        LoopAction)
        requires
            old(self).wf(),
        ensures
            final(self).wf(),
            r == loop_decision(
                old(self)@,
                ctx_key@,
                input_countable(message),
                input_id(message),
                max_iterations as int,
            ),
            final(self)@ == loop_counts_after(
                old(self)@,
                ctx_key@,
                input_countable(message),
                input_id(message),
            ),
    {
        let (countable, message_id) = match message {
            Some(m) => (
                str_eq(m.role.as_str(), "assistant") && !m.streaming && m.tool_call_count > 0,
                m.id.clone(),
            ),
            None => (false, None),
        };
        self.observe_counted(ctx_key, countable, message_id, max_iterations)
    }

    /// [`LoopCounts::observe`] on what it reads of the value: whether it is
    /// counted, and the message id.
    fn observe_counted(
        &mut self,
        ctx_key: &str,
        countable: bool,
        message_id: Option<String>,
        max_iterations: i64,
    ) -> (r: LoopAction)
        requires
            old(self).wf(),
        ensures
            final(self).wf(),
            r == loop_decision(old(self)@, ctx_key@, countable, message_id.deep_view(), max_iterations as int),
            final(self)@ == loop_counts_after(old(self)@, ctx_key@, countable, message_id.deep_view()),
    {
        if !countable {
            return LoopAction::Forward;
        }
        proof {
            self.lemma_lookup(ctx_key@);
        }
        let (count, last) = match self.counts.get(ctx_key) {
            Some(c) => (c.0, c.1.clone()),
            None => (0u32, None),
        };
        if message_id.is_some() && opt_str_eq(&last, &message_id) {
            if max_iterations > 0 && (count as i64) > max_iterations {
                return LoopAction::Drop;
            }
            return LoopAction::Forward;
        }
        let count = count.saturating_add(1);
        let ghost old_counts = self.counts@;
        let ghost message_id_copy = message_id;
        self.counts.record(ctx_key, (count, message_id));
        proof {
            lemma_recorded_map(
                old_counts,
                |c: (u32, Option<String>)| (c.0, c.1.deep_view()),
                ctx_key@,
                (count, message_id_copy),
            );
        }
        if max_iterations > 0 && (count as i64) > max_iterations {
            LoopAction::LimitExceeded
        } else {
            LoopAction::Forward
        }
    }

    /// Forgets every flow (the guard stopped).
    pub fn clear(&mut self)
        ensures
            final(self).wf(),
            final(self)@ == Seq::<(Seq<char>, (u32, Option<Seq<char>>))>::empty(),
    {
        self.counts.clear();
        assert(self@ =~= Seq::<(Seq<char>, (u32, Option<Seq<char>>))>::empty());
    }
}

} // verus!

verus! {

/// The ids held in `v`, by their characters.
pub open spec fn id_set(v: Vec<String>) -> Set<Seq<char>> {
    v@.map_values(|s: String| s@).to_set()
}

/// The tool-call ids already executed for a flow.
pub open spec fn executed_ids(s: Seq<(Seq<char>, Set<Seq<char>>)>, key: Seq<char>) -> Set<
    Seq<char>,
> {
    match lookup(s, key) {
        Some(ids) => ids,
        None => Set::empty(),
    }
}

/// The executed ids after marking `id` for the flow `key`.
pub open spec fn marked(s: Seq<(Seq<char>, Set<Seq<char>>)>, key: Seq<char>, id: Seq<char>) -> Seq<
    (Seq<char>, Set<Seq<char>>),
> {
    recorded(s, key, executed_ids(s, key).insert(id))
}

/// Tool-call ids already executed, per flow, guarding against a streaming
/// turn re-delivering the same final message.
pub struct ExecutedCalls {
    executed: FlowTable<Vec<String>>,
}

impl View for ExecutedCalls {
    type V = Seq<(Seq<char>, Set<Seq<char>>)>;

    closed spec fn view(&self) -> Seq<(Seq<char>, Set<Seq<char>>)> {
        map_entries(self.executed@, |v: Vec<String>| id_set(v))
    }
}

/// Whether `v` holds a string equal to `id`.
fn vec_contains_str(v: &Vec<String>, id: &str) -> (r: bool)
    ensures
        r == id_set(*v).contains(id@),
{
    let mut i: usize = 0;
    while i < v.len()
        invariant
            i <= v@.len(),
            forall|j: int| 0 <= j < i ==> #[trigger] v@[j]@ != id@,
        decreases v@.len() - i,
    {
        if str_eq(v[i].as_str(), id) {
            proof {
                assert(v@.map_values(|s: String| s@)[i as int] == id@);
            }
            return true;
        }
        i = i + 1;
    }
    proof {
        let m = v@.map_values(|s: String| s@);
        if m.to_set().contains(id@) {
            let k = choose|k: int| 0 <= k < m.len() && m[k] == id@;
            assert(v@[k]@ == id@);
        }
    }
    false
}

impl ExecutedCalls {
    /// Whether the table is well formed.
    pub closed spec fn wf(&self) -> bool {
        self.executed.wf()
    }

    /// An empty record.
    pub fn new() -> (r: Self)
        ensures
            r.wf(),
            r@ == Seq::<(Seq<char>, Set<Seq<char>>)>::empty(),
    {
        let r = ExecutedCalls { executed: FlowTable::new() };
        assert(r@ =~= Seq::<(Seq<char>, Set<Seq<char>>)>::empty());
        r
    }

    /// Number of tracked flows.
    pub fn len(&self) -> (n: usize)
        ensures
            n == self@.len(),
    {
        self.executed.len()
    }

    /// A well-formed table names each flow at most once and tracks at most
    /// [`MAX_TRACKED_CTX_KEYS`] flows.
    pub proof fn lemma_table_view(&self)
        requires
            self.wf(),
        ensures
            keys_unique(self@),
            self@.len() <= MAX_TRACKED_CTX_KEYS,
    {
        self.lemma_view(Seq::empty());
    }

    proof fn lemma_view(&self, key: Seq<char>)
        requires
            self.wf(),
        ensures
            keys_unique(self@),
            self@.len() == self.executed@.len(),
            self@.len() <= MAX_TRACKED_CTX_KEYS,
            lookup(self@, key) == match lookup(self.executed@, key) {
                Some(v) => Some(id_set(v)),
                None => None,
            },
    {
        lemma_map_entries(self.executed@, |v: Vec<String>| id_set(v), key);
    }

    /// Whether the call `id` was already executed in the flow `ctx_key`.
    pub fn is_executed(&self, ctx_key: &str, id: &str) -> (r: bool)
        requires
            self.wf(),
        ensures
            r == executed_ids(self@, ctx_key@).contains(id@),
    {
        proof {
            self.lemma_view(ctx_key@);
        }
        match self.executed.get(ctx_key) {
            Some(ids) => vec_contains_str(ids, id),
            None => false,
        }
    }

    /// Records `id` as executed in the flow `ctx_key`. A flow seen for the
    /// first time is appended, evicting the oldest tracked flow when
    /// [`MAX_TRACKED_CTX_KEYS`] flows are tracked.
    pub fn mark_executed(&mut self, ctx_key: &str, id: String)
        requires
            old(self).wf(),
        ensures
            final(self).wf(),
            final(self)@ == marked(old(self)@, ctx_key@, id@),
    {
        proof {
            self.lemma_view(ctx_key@);
        }
        let mut ids: Vec<String> = match self.executed.get(ctx_key) {
            Some(v) => {
                let c = v.clone();
                proof {
                    assert forall|j: int| 0 <= j < c@.len() implies c@[j] == v@[j] by {
                        assert(cloned::<String>(v[j], c[j]));
                    }
                    assert(c@ =~= v@);
                }
                c
            },
            None => Vec::new(),
        };
        let ghost before = id_set(ids);
        assert(before =~= executed_ids(self@, ctx_key@)) by {
            match lookup(self.executed@, ctx_key@) {
                Some(v) => {},
                None => {
                    assert(ids@.map_values(|s: String| s@) =~= Seq::<Seq<char>>::empty());
                },
            }
        }
        let ghost idv = id@;
        if !vec_contains_str(&ids, id.as_str()) {
            let ghost prev = ids@;
            ids.push(id);
            proof {
                let m = prev.map_values(|s: String| s@);
                assert(ids@.map_values(|s: String| s@) =~= m.push(idv));
                m.lemma_push_to_set_commute(idv);
            }
        } else {
            assert(before.insert(idv) =~= before);
        }
        assert(id_set(ids) == before.insert(idv));
        let ghost old_table = self.executed@;
        self.executed.record(ctx_key, ids);
        proof {
            lemma_recorded_map(old_table, |v: Vec<String>| id_set(v), ctx_key@, ids);
        }
    }

    /// Forgets every flow (the agent stopped).
    pub fn clear(&mut self)
        ensures
            final(self).wf(),
            final(self)@ == Seq::<(Seq<char>, Set<Seq<char>>)>::empty(),
    {
        self.executed.clear();
        assert(self@ =~= Seq::<(Seq<char>, Set<Seq<char>>)>::empty());
    }
}

} // verus!

verus! {

/// A tool call as the dispatcher sees it: the tool's name and the call id.
pub struct CallRef {
    /// Name of the tool to invoke.
    pub name: String,
    /// Provider-assigned call id, if any.
    pub id: Option<String>,
}

/// The name and id of a call, by their characters.
pub open spec fn call_key(c: CallRef) -> (Seq<char>, Option<Seq<char>>) {
    (c.name@, c.id.deep_view())
}

/// Whether a call passes the tool filter (`None`: every tool is allowed) and
/// was not already executed in its flow (calls without an id always pass).
pub open spec fn call_passes(
    allowed: Option<Seq<Seq<char>>>,
    executed: Set<Seq<char>>,
    call: (Seq<char>, Option<Seq<char>>),
) -> bool {
    &&& match allowed {
        Some(names) => names.contains(call.0),
        None => true,
    }
    &&& match call.1 {
        Some(id) => !executed.contains(id),
        None => true,
    }
}

/// The positions, in order, of the calls that pass.
pub open spec fn kept_positions(
    calls: Seq<(Seq<char>, Option<Seq<char>>)>,
    allowed: Option<Seq<Seq<char>>>,
    executed: Set<Seq<char>>,
) -> Seq<int>
    decreases calls.len(),
{
    if calls.len() == 0 {
        Seq::empty()
    } else {
        let prev = kept_positions(calls.drop_last(), allowed, executed);
        if call_passes(allowed, executed, calls.last()) {
            prev.push(calls.len() - 1)
        } else {
            prev
        }
    }
}

/// The ids of the calls at `positions`, in order, skipping calls without one.
pub open spec fn ids_at(calls: Seq<(Seq<char>, Option<Seq<char>>)>, positions: Seq<int>) -> Seq<
    Seq<char>,
>
    decreases positions.len(),
{
    if positions.len() == 0 {
        Seq::empty()
    } else {
        let prev = ids_at(calls, positions.drop_last());
        match calls[positions.last()].1 {
            Some(id) => prev.push(id),
            None => prev,
        }
    }
}

/// The executed ids after marking `ids`, one after the other, in flow `key`.
pub open spec fn mark_all(
    s: Seq<(Seq<char>, Set<Seq<char>>)>,
    key: Seq<char>,
    ids: Seq<Seq<char>>,
) -> Seq<(Seq<char>, Set<Seq<char>>)>
    decreases ids.len(),
{
    if ids.len() == 0 {
        s
    } else {
        marked(mark_all(s, key, ids.drop_last()), key, ids.last())
    }
}

/// The string names as character sequences.
pub open spec fn names_view(v: Vec<String>) -> Seq<Seq<char>> {
    v@.map_values(|s: String| s@)
}

/// Whether `names` holds a string equal to `name`.
fn names_contain(names: &Vec<String>, name: &str) -> (r: bool)
    ensures
        r == names_view(*names).contains(name@),
{
    let mut i: usize = 0;
    while i < names.len()
        invariant
            i <= names@.len(),
            forall|j: int| 0 <= j < i ==> #[trigger] names@[j]@ != name@,
        decreases names@.len() - i,
    {
        if str_eq(names[i].as_str(), name) {
            assert(names_view(*names)[i as int] == name@);
            return true;
        }
        i = i + 1;
    }
    proof {
        if names_view(*names).contains(name@) {
            let k = choose|k: int| 0 <= k < names_view(*names).len() && names_view(*names)[k] == name@;
            assert(names@[k]@ == name@);
        }
    }
    false
}

/// Selects the tool calls of a final assistant message to execute in the
/// flow `ctx_key` and records their ids as executed.
///
/// With `allowed` set (the agent's tool patterns resolved to tool names),
/// calls to other tools are dropped. Calls whose id was already executed in
/// this flow are skipped: a streaming turn may re-deliver the same final
/// message, and skipping a retry is safer than running a side-effecting tool
/// twice. Calls without an id always run. The ids of the selected calls are
/// recorded before anything is executed.
///
/// Returns the positions of the selected calls, in order.
pub fn select_tool_calls(
    executed: &mut ExecutedCalls,
    ctx_key: &str,
    calls: &Vec<CallRef>,
    allowed: Option<&Vec<String>>,
) -> (r: Vec<usize>)
    requires
        old(executed).wf(),
    ensures
        final(executed).wf(),
        r@.map_values(|i: usize| i as int) == kept_positions(
            calls@.map_values(|c: CallRef| call_key(c)),
            match allowed {
                Some(a) => Some(names_view(*a)),
                None => None,
            },
            executed_ids(old(executed)@, ctx_key@),
        ),
        final(executed)@ == mark_all(
            old(executed)@,
            ctx_key@,
            ids_at(calls@.map_values(|c: CallRef| call_key(c)), r@.map_values(|i: usize| i as int)),
        ),
{
    let ghost keys = calls@.map_values(|c: CallRef| call_key(c));
    let ghost allowed_view = match allowed {
        Some(a) => Some(names_view(*a)),
        None => None,
    };
    let ghost done = executed_ids(executed@, ctx_key@);
    let mut kept: Vec<usize> = Vec::new();
    let mut i: usize = 0;
    while i < calls.len()
        invariant
            i <= calls@.len(),
            executed.wf(),
            keys == calls@.map_values(|c: CallRef| call_key(c)),
            done == executed_ids(executed@, ctx_key@),
            allowed_view == match allowed {
                Some(a) => Some(names_view(*a)),
                None => None,
            },
            kept@.map_values(|k: usize| k as int) == kept_positions(
                keys.take(i as int),
                allowed_view,
                done,
            ),
            forall|j: int| 0 <= j < kept@.len() ==> kept@[j] < i,
        decreases calls@.len() - i,
    {
        let call = &calls[i];
        let name_ok = match allowed {
            Some(a) => names_contain(a, call.name.as_str()),
            None => true,
        };
        let fresh = match &call.id {
            Some(id) => !executed.is_executed(ctx_key, id.as_str()),
            None => true,
        };
        proof {
            assert(keys.take(i + 1).drop_last() =~= keys.take(i as int));
            assert(keys.take(i + 1).last() == keys[i as int]);
            assert(keys[i as int] == call_key(calls@[i as int]));
        }
        if name_ok && fresh {
            let ghost prev = kept@;
            kept.push(i);
            assert(kept@.map_values(|k: usize| k as int) =~= prev.map_values(|k: usize| k as int).push(
                i as int,
            ));
        }
        i = i + 1;
    }
    assert(keys.take(calls@.len() as int) =~= keys);
    let ghost start = executed@;
    let mut j: usize = 0;
    while j < kept.len()
        invariant
            j <= kept@.len(),
            executed.wf(),
            keys == calls@.map_values(|c: CallRef| call_key(c)),
            forall|k: int| 0 <= k < kept@.len() ==> kept@[k] < calls@.len(),
            executed@ == mark_all(
                start,
                ctx_key@,
                ids_at(keys, kept@.map_values(|k: usize| k as int).take(j as int)),
            ),
        decreases kept@.len() - j,
    {
        let ghost positions = kept@.map_values(|k: usize| k as int);
        assert(positions.take(j + 1).drop_last() =~= positions.take(j as int));
        assert(positions.take(j + 1).last() == kept@[j as int] as int);
        let k = kept[j];
        assert(keys[k as int] == call_key(calls@[k as int]));
        let ghost before = ids_at(keys, positions.take(j as int));
        match &calls[k].id {
            Some(id) => {
                assert(keys[k as int].1 == Some(id@));
                assert(ids_at(keys, positions.take(j + 1)) == before.push(id@));
                assert(before.push(id@).drop_last() =~= before);
                executed.mark_executed(ctx_key, id.clone());
            },
            None => {
                assert(ids_at(keys, positions.take(j + 1)) == before);
            },
        }
        j = j + 1;
    }
    assert(kept@.map_values(|k: usize| k as int).take(kept@.len() as int) =~= kept@.map_values(
        |k: usize| k as int,
    ));
    kept
}

} // verus!

verus! {

/// Recording a value keeps the table's invariant and makes the value what is
/// found under its key.
pub proof fn lemma_recorded<T>(s: Seq<(Seq<char>, T)>, key: Seq<char>, v: T)
    requires
        keys_unique(s),
        s.len() <= MAX_TRACKED_CTX_KEYS,
    ensures
        keys_unique(recorded(s, key, v)),
        recorded(s, key, v).len() <= MAX_TRACKED_CTX_KEYS,
        lookup(recorded(s, key, v), key) == Some(v),
{
    let r = recorded(s, key, v);
    if has_key(s, key) {
        let i = choose|i: int| 0 <= i < s.len() && #[trigger] s[i].0 == key;
        assert(r[i].0 == key);
        assert forall|a: int, b: int| 0 <= a < b < r.len() implies #[trigger] r[a].0
            != #[trigger] r[b].0 by {
            assert(r[a].0 == s[a].0);
            assert(r[b].0 == s[b].0);
        }
        let j = choose|j: int| 0 <= j < r.len() && #[trigger] r[j].0 == key;
        assert(s[j].0 == key);
    } else {
        let base = if s.len() >= MAX_TRACKED_CTX_KEYS {
            s.drop_first()
        } else {
            s
        };
        assert(r == base.push((key, v)));
        assert forall|a: int| 0 <= a < base.len() implies #[trigger] base[a].0 != key by {
            if s.len() >= MAX_TRACKED_CTX_KEYS {
                assert(base[a] == s[a + 1]);
            }
        }
        assert forall|a: int, b: int| 0 <= a < b < r.len() implies #[trigger] r[a].0
            != #[trigger] r[b].0 by {
            if s.len() >= MAX_TRACKED_CTX_KEYS {
                assert(r[a] == s[a + 1]);
                if b < r.len() - 1 {
                    assert(r[b] == s[b + 1]);
                }
            } else {
                assert(r[a] == s[a]);
            }
        }
        assert(r[r.len() - 1].0 == key);
        let j = choose|j: int| 0 <= j < r.len() && #[trigger] r[j].0 == key;
        assert(j == r.len() - 1);
    }
}

/// Marking ids keeps the table's invariant and never forgets an id of the
/// flow: afterwards the flow's executed ids are the earlier ones and the
/// marked ones.
pub proof fn lemma_mark_all(
    s: Seq<(Seq<char>, Set<Seq<char>>)>,
    key: Seq<char>,
    ids: Seq<Seq<char>>,
)
    requires
        keys_unique(s),
        s.len() <= MAX_TRACKED_CTX_KEYS,
    ensures
        keys_unique(mark_all(s, key, ids)),
        mark_all(s, key, ids).len() <= MAX_TRACKED_CTX_KEYS,
        executed_ids(mark_all(s, key, ids), key) == executed_ids(s, key).union(ids.to_set()),
    decreases ids.len(),
{
    if ids.len() == 0 {
        assert(executed_ids(s, key).union(ids.to_set()) =~= executed_ids(s, key));
    } else {
        let prev = mark_all(s, key, ids.drop_last());
        lemma_mark_all(s, key, ids.drop_last());
        lemma_recorded(prev, key, executed_ids(prev, key).insert(ids.last()));
        assert(ids.drop_last().push(ids.last()) =~= ids);
        ids.drop_last().lemma_push_to_set_commute(ids.last());
        assert(executed_ids(s, key).union(ids.to_set()) =~= executed_ids(s, key).union(
            ids.drop_last().to_set(),
        ).insert(ids.last()));
    }
}

/// What [`kept_positions`] holds: exactly the positions of the passing
/// calls, each once, in increasing order.
pub proof fn lemma_kept_positions(
    calls: Seq<(Seq<char>, Option<Seq<char>>)>,
    allowed: Option<Seq<Seq<char>>>,
    executed: Set<Seq<char>>,
)
    ensures
        forall|j: int|
            0 <= j < kept_positions(calls, allowed, executed).len() ==> {
                let p = #[trigger] kept_positions(calls, allowed, executed)[j];
                0 <= p < calls.len() && call_passes(allowed, executed, calls[p])
            },
        forall|i: int|
            0 <= i < calls.len() && call_passes(allowed, executed, #[trigger] calls[i]) ==> kept_positions(
                calls,
                allowed,
                executed,
            ).contains(i),
        forall|a: int, b: int|
            0 <= a < b < kept_positions(calls, allowed, executed).len() ==> #[trigger] kept_positions(
                calls,
                allowed,
                executed,
            )[a] < #[trigger] kept_positions(calls, allowed, executed)[b],
    decreases calls.len(),
{
    if calls.len() > 0 {
        let init = calls.drop_last();
        lemma_kept_positions(init, allowed, executed);
        let prev = kept_positions(init, allowed, executed);
        let cur = kept_positions(calls, allowed, executed);
        assert forall|j: int| 0 <= j < prev.len() implies init[prev[j]] == calls[prev[j]] by {
            assert(0 <= #[trigger] prev[j] < init.len());
        }
        assert forall|i: int|
            0 <= i < calls.len() && call_passes(allowed, executed, #[trigger] calls[i]) implies cur.contains(
            i,
        ) by {
            if i < calls.len() - 1 {
                assert(init[i] == calls[i]);
                assert(prev.contains(i));
                let j = choose|j: int| 0 <= j < prev.len() && prev[j] == i;
                if call_passes(allowed, executed, calls.last()) {
                    assert(cur[j] == i);
                }
            } else {
                assert(cur[cur.len() - 1] == i);
            }
        }
        assert forall|j: int| 0 <= j < prev.len() implies #[trigger] prev[j] < calls.len() - 1 by {
            assert(0 <= prev[j] < init.len());
        }
    }
}

/// Every id of a call at one of the positions is among the collected ids.
pub proof fn lemma_ids_at(calls: Seq<(Seq<char>, Option<Seq<char>>)>, positions: Seq<int>, j: int)
    requires
        0 <= j < positions.len(),
        calls[positions[j]].1 is Some,
    ensures
        ids_at(calls, positions).contains(calls[positions[j]].1->0),
    decreases positions.len(),
{
    let prev = positions.drop_last();
    if j < positions.len() - 1 {
        assert(prev[j] == positions[j]);
        lemma_ids_at(calls, prev, j);
        let ids = ids_at(calls, prev);
        let k = choose|k: int| 0 <= k < ids.len() && ids[k] == calls[positions[j]].1->0;
        match calls[positions.last()].1 {
            Some(id) => {
                assert(ids_at(calls, positions)[k] == ids[k]);
            },
            None => {},
        }
    } else {
        let ids = ids_at(calls, positions);
        assert(ids[ids.len() - 1] == calls[positions[j]].1->0);
    }
}

/// A re-delivered final message executes no call twice: for every table of
/// executed calls, once the calls selected from a message are recorded,
/// selecting from the same message again in the same flow yields only calls
/// that carry no id.
pub proof fn law_redelivery_executes_nothing_twice(
    table: &ExecutedCalls,
    key: Seq<char>,
    calls: Seq<(Seq<char>, Option<Seq<char>>)>,
    allowed: Option<Seq<Seq<char>>>,
)
    requires
        table.wf(),
    ensures
        ({
            let first = kept_positions(calls, allowed, executed_ids(table@, key));
            let after = mark_all(table@, key, ids_at(calls, first));
            let again = kept_positions(calls, allowed, executed_ids(after, key));
            forall|j: int| 0 <= j < again.len() ==> calls[#[trigger] again[j]].1 is None
        }),
{
    table.lemma_table_view();
    lemma_redelivery_selects_only_unnamed(table@, key, calls, allowed);
}

/// [`law_redelivery_executes_nothing_twice`] over the view of a table.
proof fn lemma_redelivery_selects_only_unnamed(
    s: Seq<(Seq<char>, Set<Seq<char>>)>,
    key: Seq<char>,
    calls: Seq<(Seq<char>, Option<Seq<char>>)>,
    allowed: Option<Seq<Seq<char>>>,
)
    requires
        keys_unique(s),
        s.len() <= MAX_TRACKED_CTX_KEYS,
    ensures
        ({
            let first = kept_positions(calls, allowed, executed_ids(s, key));
            let after = mark_all(s, key, ids_at(calls, first));
            let again = kept_positions(calls, allowed, executed_ids(after, key));
            forall|j: int| 0 <= j < again.len() ==> calls[#[trigger] again[j]].1 is None
        }),
{
    let ex1 = executed_ids(s, key);
    let first = kept_positions(calls, allowed, ex1);
    let ids = ids_at(calls, first);
    let after = mark_all(s, key, ids);
    let ex2 = executed_ids(after, key);
    let again = kept_positions(calls, allowed, ex2);
    lemma_mark_all(s, key, ids);
    lemma_kept_positions(calls, allowed, ex1);
    lemma_kept_positions(calls, allowed, ex2);
    assert forall|j: int| 0 <= j < again.len() implies calls[#[trigger] again[j]].1 is None by {
        let p = again[j];
        if calls[p].1 is Some {
            let id = calls[p].1->0;
            assert(call_passes(allowed, ex2, calls[p]));
            assert(!ex1.contains(id));
            assert(call_passes(allowed, ex1, calls[p]));
            assert(first.contains(p));
            let k = choose|k: int| 0 <= k < first.len() && first[k] == p;
            lemma_ids_at(calls, first, k);
            assert(ids.to_set().contains(id));
            assert(ex2.contains(id));
        }
    }
}

} // verus!

verus! {

/// Recording under one key leaves what is found under every other key,
/// unless that key is the oldest one and is evicted to make room.
pub proof fn lemma_recorded_other<T>(s: Seq<(Seq<char>, T)>, key: Seq<char>, v: T, other: Seq<char>)
    requires
        keys_unique(s),
        other != key,
        !(s.len() >= MAX_TRACKED_CTX_KEYS && !has_key(s, key) && s.len() > 0 && s[0].0 == other),
    ensures
        lookup(recorded(s, key, v), other) == lookup(s, other),
{
    let r = recorded(s, key, v);
    if has_key(s, other) {
        let i = choose|i: int| 0 <= i < s.len() && #[trigger] s[i].0 == other;
        let ri = if !has_key(s, key) && s.len() >= MAX_TRACKED_CTX_KEYS {
            i - 1
        } else {
            i
        };
        assert(r[ri] == s[i]);
        assert(has_key(r, other));
        let j = choose|j: int| 0 <= j < r.len() && #[trigger] r[j].0 == other;
        if !has_key(s, key) && s.len() >= MAX_TRACKED_CTX_KEYS {
            assert(r[j] == s[j + 1]);
        } else if has_key(s, key) {
            let k = choose|k: int| 0 <= k < s.len() && #[trigger] s[k].0 == key;
            assert(j != k);
            assert(r[j] == s[j]);
        } else {
            assert(r[j] == s[j]);
        }
    } else {
        if has_key(r, other) {
            let j = choose|j: int| 0 <= j < r.len() && #[trigger] r[j].0 == other;
            if !has_key(s, key) && s.len() >= MAX_TRACKED_CTX_KEYS {
                assert(r[j] == s[j + 1]);
            } else if has_key(s, key) {
                let k = choose|k: int| 0 <= k < s.len() && #[trigger] s[k].0 == key;
                assert(r[j] == s[j]);
            } else {
                assert(r[j] == s[j]);
            }
        }
    }
}

/// A limit of zero or less disables the guard: every value is forwarded.
pub proof fn law_loop_limit_disabled(
    s: Seq<(Seq<char>, (u32, Option<Seq<char>>))>,
    key: Seq<char>,
    countable: bool,
    id: Option<Seq<char>>,
    max_iterations: int,
)
    requires
        max_iterations <= 0,
    ensures
        loop_decision(s, key, countable, id, max_iterations) == LoopAction::Forward,
{
}

/// Values the guard does not count pass through and leave the counters as
/// they were.
pub proof fn law_uncounted_values_pass_through(
    s: Seq<(Seq<char>, (u32, Option<Seq<char>>))>,
    key: Seq<char>,
    id: Option<Seq<char>>,
    max_iterations: int,
)
    ensures
        loop_decision(s, key, false, id, max_iterations) == LoopAction::Forward,
        loop_counts_after(s, key, false, id) == s,
{
}

/// Once a message with an id has been counted, re-delivering it is neither
/// counted again nor reported again: it is forwarded if the first delivery
/// was, and dropped if the first delivery tripped the limit.
pub proof fn law_redelivered_message_counts_once(
    s: Seq<(Seq<char>, (u32, Option<Seq<char>>))>,
    key: Seq<char>,
    id: Seq<char>,
    max_iterations: int,
)
    requires
        keys_unique(s),
        s.len() <= MAX_TRACKED_CTX_KEYS,
    ensures
        ({
            let first = loop_decision(s, key, true, Some(id), max_iterations);
            let after = loop_counts_after(s, key, true, Some(id));
            let again = loop_decision(after, key, true, Some(id), max_iterations);
            &&& loop_counts_after(after, key, true, Some(id)) == after
            &&& first == LoopAction::LimitExceeded ==> again == LoopAction::Drop
            &&& first == LoopAction::Forward ==> again == LoopAction::Forward
        }),
{
    let (count, last) = flow_count(s, key);
    if !is_redelivery(last, Some(id)) {
        lemma_recorded(s, key, (bump(count), Some(id)));
    }
}

/// Flows are counted independently: a value in one flow leaves the count of
/// every other flow unchanged, unless that flow is the oldest tracked one
/// and is evicted to make room for a new flow.
pub proof fn law_flows_count_independently(
    s: Seq<(Seq<char>, (u32, Option<Seq<char>>))>,
    key: Seq<char>,
    countable: bool,
    id: Option<Seq<char>>,
    other: Seq<char>,
)
    requires
        keys_unique(s),
        other != key,
        !(s.len() >= MAX_TRACKED_CTX_KEYS && !has_key(s, key) && s.len() > 0 && s[0].0 == other),
    ensures
        flow_count(loop_counts_after(s, key, countable, id), other) == flow_count(s, other),
{
    let (count, last) = flow_count(s, key);
    if countable && !is_redelivery(last, id) {
        lemma_recorded_other(s, key, (bump(count), id), other);
    }
}

} // verus!

verus! {

/// Whether a message stopped at the token limit: its stop reason is
/// `"length"`.
pub open spec fn hit_token_limit(stop_reason: Option<&str>) -> bool {
    match stop_reason {
        Some(reason) => reason@ == "length"@,
        None => false,
    }
}

/// What a tool-call node does with one message.
#[derive(Debug, PartialEq, Eq)]
pub enum Dispatch {
    /// Nothing: a streaming partial, or a message without tool calls.
    Ignore,
    /// Report the selected calls (their positions, in order) as not
    /// executed: the response hit the token limit.
    ReportTruncated(Vec<usize>),
    /// Execute the selected calls (their positions, in order).
    Execute(Vec<usize>),
}

/// The positions of the calls a dispatch selected.
pub open spec fn dispatched(d: Dispatch) -> Seq<int> {
    match d {
        Dispatch::Ignore => Seq::empty(),
        Dispatch::ReportTruncated(v) => v@.map_values(|i: usize| i as int),
        Dispatch::Execute(v) => v@.map_values(|i: usize| i as int),
    }
}

/// Decides what a tool-call node does with a message of the flow `ctx_key`,
/// from whether it is a streaming partial, its tool calls (`None` without
/// any) and its stop reason. Only a final message with tool calls is
/// handled: its calls are selected as [`select_tool_calls`] selects them,
/// recording their ids, and they are executed, or, when the response
/// stopped at the token limit (`"length"`), reported as not executed, since
/// their arguments may be truncated. The ids are recorded in both cases, so
/// a re-delivered final message reports nothing twice either.
pub fn dispatch_tool_calls(
    executed: &mut ExecutedCalls,
    ctx_key: &str,
    streaming: bool,
    calls: Option<&Vec<CallRef>>,
    allowed: Option<&Vec<String>>,
    stop_reason: Option<&str>,
) -> (r: Dispatch)
    requires
        old(executed).wf(),
    ensures
        final(executed).wf(),
        (r is Ignore) == (streaming || calls is None),
        r is Ignore ==> final(executed)@ == old(executed)@,
        (r is ReportTruncated) == (!streaming && calls is Some && hit_token_limit(stop_reason)),
        match calls {
            Some(cs) => !streaming ==> {
                &&& dispatched(r) == kept_positions(
                    cs@.map_values(|c: CallRef| call_key(c)),
                    match allowed {
                        Some(a) => Some(names_view(*a)),
                        None => None,
                    },
                    executed_ids(old(executed)@, ctx_key@),
                )
                &&& final(executed)@ == mark_all(
                    old(executed)@,
                    ctx_key@,
                    ids_at(cs@.map_values(|c: CallRef| call_key(c)), dispatched(r)),
                )
            },
            None => true,
        },
{
    if streaming {
        return Dispatch::Ignore;
    }
    let cs = match calls {
        Some(cs) => cs,
        None => return Dispatch::Ignore,
    };
    let selected = select_tool_calls(executed, ctx_key, cs, allowed);
    let truncated = match stop_reason {
        Some(reason) => str_eq(reason, "length"),
        None => false,
    };
    if truncated {
        Dispatch::ReportTruncated(selected)
    } else {
        Dispatch::Execute(selected)
    }
}

/// The tool result reported for a call of a response cut off by the token
/// limit, whose arguments may be truncated.
pub open spec fn truncated_call_text(name: Seq<char>) -> Seq<char> {
    "Tool call \""@ + name
        + "\" was not executed: output hit the token limit; arguments may be truncated. Re-issue with complete arguments."@
}

/// The tool result for a call that is not executed because the response
/// hit the token limit.
pub fn truncated_call_notice(name: &str) -> (r: String)
    ensures
        r@ == truncated_call_text(name@),
{
    concat3(
        "Tool call \"",
        name,
        "\" was not executed: output hit the token limit; arguments may be truncated. Re-issue with complete arguments.",
    )
}

/// The text of the assistant message emitted when the loop guard stops a
/// tool-call cycle.
pub open spec fn loop_limit_text(max_iterations: int) -> Seq<char> {
    "Loop limit reached: the tool-call cycle exceeded the configured max_iterations of "@
        + int_decimal(max_iterations) + " and has been stopped."@
}

/// The text of the notice emitted on `limit_exceeded`.
pub fn loop_limit_notice(max_iterations: i64) -> (r: String)
    ensures
        r@ == loop_limit_text(max_iterations as int),
{
    let n = i64_to_string(max_iterations);
    concat3(
        "Loop limit reached: the tool-call cycle exceeded the configured max_iterations of ",
        n.as_str(),
        " and has been stopped.",
    )
}

} // verus!
