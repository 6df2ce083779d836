//! The specification of an agent instance in a preset, and its update from
//! a patch of JSON fields.

use vstd::prelude::*;
use crate::connections::{entries_map, inserted, lemma_inserted, position_of, same_connection, ConnectionSpec};
use crate::error::AgentError;
use crate::text::{str_eq, strs_view};
use crate::tool::{lemma_without_key, without_key};
use crate::tracking::keys_unique;
use crate::value::AgentValue;

verus! {

/// The extension fields of an agent spec, in insertion order.
pub type ExtensionMap = indexmap::IndexMap<String, AgentValue, fnv::FnvBuildHasher>;

/// What an extension map holds: its entries in the map's order, each a
/// field name by its characters with its value.
pub uninterp spec fn extension_entries(m: ExtensionMap) -> Seq<(Seq<char>, AgentValue)>;

/// `IndexMap::default()`: an empty map.
#[verifier::external_body]
fn extensions_new() -> (m: ExtensionMap)
    ensures
        extension_entries(m) == Seq::<(Seq<char>, AgentValue)>::empty(),
{
    indexmap::IndexMap::default()
}

/// `IndexMap::insert`: replaces the value of an existing key in place, or
/// appends a new entry last.
#[verifier::external_body]
fn extensions_insert(m: &mut ExtensionMap, key: String, value: AgentValue)
    requires
        keys_unique(extension_entries(*old(m))),
    ensures
        extension_entries(*final(m)) == inserted(extension_entries(*old(m)), key@, value),
{
    m.insert(key, value);
}

/// `IndexMap::shift_remove`: removes the entry of `key`, if any, keeping
/// the order of the others.
#[verifier::external_body]
fn extensions_shift_remove(m: &mut ExtensionMap, key: &str)
    requires
        keys_unique(extension_entries(*old(m))),
    ensures
        extension_entries(*final(m)) == without_key(extension_entries(*old(m)), key@),
{
    m.shift_remove(key);
}

/// The runtime specification of an agent instance: its id, the definition
/// it instantiates, its ports (overriding the definition's where set), its
/// config values of type `C` and config specs of type `D` (which the
/// library moves but never reads), whether it is disabled, and extension
/// fields for custom data.
pub struct AgentSpec<C, D> {
    /// Unique identifier of this agent instance.
    pub id: String,
    /// Name of the agent definition this agent is based on.
    pub def_name: String,
    /// Input port names, overriding the definition's if set.
    pub inputs: Option<Vec<String>>,
    /// Output port names, overriding the definition's if set.
    pub outputs: Option<Vec<String>>,
    /// Config values of this agent instance.
    pub configs: Option<C>,
    /// Config specifications.
    pub config_specs: Option<D>,
    /// Whether this agent is disabled (not started).
    pub disabled: bool,
    /// Extension fields for custom data.
    pub extensions: ExtensionMap,
}

/// An agent spec by the characters of its strings.
pub struct AgentSpecView<C, D> {
    /// The id.
    pub id: Seq<char>,
    /// The definition name.
    pub def_name: Seq<char>,
    /// The input ports.
    pub inputs: Option<Seq<Seq<char>>>,
    /// The output ports.
    pub outputs: Option<Seq<Seq<char>>>,
    /// The config values.
    pub configs: Option<C>,
    /// The config specs.
    pub config_specs: Option<D>,
    /// The disabled flag.
    pub disabled: bool,
    /// The extension fields, in order.
    pub extensions: Seq<(Seq<char>, AgentValue)>,
}

/// The view of an optional list of names.
pub open spec fn names_opt(v: Option<Vec<String>>) -> Option<Seq<Seq<char>>> {
    match v {
        Some(names) => Some(strs_view(names@)),
        None => None,
    }
}

impl<C, D> View for AgentSpec<C, D> {
    type V = AgentSpecView<C, D>;

    open spec fn view(&self) -> AgentSpecView<C, D> {
        AgentSpecView {
            id: self.id@,
            def_name: self.def_name@,
            inputs: names_opt(self.inputs),
            outputs: names_opt(self.outputs),
            configs: self.configs,
            config_specs: self.config_specs,
            disabled: self.disabled,
            extensions: extension_entries(self.extensions),
        }
    }
}

/// A value of a spec patch: a JSON value, or, for the `configs` field, the
/// result of parsing it into config values.
pub enum PatchValue<C> {
    /// A JSON value.
    Json(AgentValue),
    /// The parsed `configs` value, or the parser's message.
    Configs(Result<C, String>),
}

/// The strings among `items`, in order.
pub open spec fn texts_in(items: Seq<AgentValue>) -> Seq<Seq<char>>
    decreases items.len(),
{
    if items.len() == 0 {
        Seq::empty()
    } else {
        match items.last() {
            AgentValue::String(s) => texts_in(items.drop_last()).push(s@),
            _ => texts_in(items.drop_last()),
        }
    }
}

/// The text of a string value, nothing for any other value.
pub open spec fn string_item(v: AgentValue) -> Option<Seq<char>> {
    match v {
        AgentValue::String(s) => Some(s@),
        _ => None,
    }
}

/// The texts of the string values among `items`, in order.
pub open spec fn string_items(items: Seq<AgentValue>) -> Seq<Seq<char>> {
    items.filter_map(|v: AgentValue| string_item(v))
}

/// The strings among some values are those values that are strings, in
/// their order.
proof fn lemma_texts_in(items: Seq<AgentValue>)
    ensures
        texts_in(items) == string_items(items),
    decreases items.len(),
{
    if items.len() > 0 {
        lemma_texts_in(items.drop_last());
        let f = |v: AgentValue| string_item(v);
        match items.last() {
            AgentValue::String(s) => {
                assert(items.drop_last().filter_map(f) + seq![s@] =~= items.drop_last().filter_map(f).push(s@));
            },
            _ => {},
        }
    }
}

/// The spec after one patch field, or the error it gives. Known fields are
/// set from values of their type and left as they are otherwise; the
/// `configs` field takes the parsed config values and fails where they do
/// not parse; any other field is an extension field: `null` removes it and
/// another value sets it.
pub open spec fn patched<C, D>(s: AgentSpecView<C, D>, key: Seq<char>, v: PatchValue<C>) -> Result<
    AgentSpecView<C, D>,
    Seq<char>,
> {
    if key == "id"@ {
        match v {
            PatchValue::Json(AgentValue::String(t)) => Ok(AgentSpecView { id: t@, ..s }),
            _ => Ok(s),
        }
    } else if key == "def_name"@ {
        match v {
            PatchValue::Json(AgentValue::String(t)) => Ok(AgentSpecView { def_name: t@, ..s }),
            _ => Ok(s),
        }
    } else if key == "inputs"@ {
        match v {
            PatchValue::Json(AgentValue::Array(items)) => Ok(
                AgentSpecView { inputs: Some(texts_in(items@)), ..s },
            ),
            _ => Ok(s),
        }
    } else if key == "outputs"@ {
        match v {
            PatchValue::Json(AgentValue::Array(items)) => Ok(
                AgentSpecView { outputs: Some(texts_in(items@)), ..s },
            ),
            _ => Ok(s),
        }
    } else if key == "configs"@ {
        match v {
            PatchValue::Configs(Ok(c)) => Ok(AgentSpecView { configs: Some(c), ..s }),
            PatchValue::Configs(Err(e)) => Err(e@),
            _ => Ok(s),
        }
    } else if key == "disabled"@ {
        match v {
            PatchValue::Json(AgentValue::Boolean(b)) => Ok(AgentSpecView { disabled: b, ..s }),
            _ => Ok(s),
        }
    } else {
        match v {
            PatchValue::Json(AgentValue::Unit) => Ok(
                AgentSpecView { extensions: without_key(s.extensions, key), ..s },
            ),
            PatchValue::Json(x) => Ok(
                AgentSpecView { extensions: inserted(s.extensions, key, x), ..s },
            ),
            PatchValue::Configs(_) => Ok(s),
        }
    }
}

/// The spec after applying the patch fields in order, with the error of the
/// first field that gives one. Fields before that one stay applied.
pub open spec fn apply_patch<C, D>(
    s: AgentSpecView<C, D>,
    patch: Seq<(String, PatchValue<C>)>,
) -> (AgentSpecView<C, D>, Option<Seq<char>>)
    decreases patch.len(),
{
    if patch.len() == 0 {
        (s, None)
    } else {
        match patched(s, patch[0].0@, patch[0].1) {
            Err(e) => (s, Some(e)),
            Ok(next) => apply_patch(next, patch.drop_first()),
        }
    }
}

/// The strings among `items`, in order.
fn texts_of(items: &Vec<AgentValue>) -> (r: Vec<String>)
    ensures
        strs_view(r@) == texts_in(items@),
{
    let mut out: Vec<String> = Vec::new();
    let mut i: usize = 0;
    proof {
        assert(items@.take(0) =~= Seq::<AgentValue>::empty());
        assert(strs_view(out@) =~= Seq::<Seq<char>>::empty());
    }
    while i < items.len()
        invariant
            i <= items@.len(),
            strs_view(out@) == texts_in(items@.take(i as int)),
        decreases items@.len() - i,
    {
        proof {
            assert(items@.take(i + 1).drop_last() =~= items@.take(i as int));
            assert(items@.take(i + 1).last() == items@[i as int]);
        }
        match &items[i] {
            AgentValue::String(s) => {
                let ghost before = out@;
                out.push(s.clone());
                proof {
                    assert(strs_view(out@) =~= strs_view(before).push(s@));
                }
            },
            _ => {},
        }
        i = i + 1;
    }
    proof {
        assert(items@.take(i as int) =~= items@);
    }
    out
}

impl<C, D> AgentSpec<C, D> {
    /// Whether the extension fields are well formed: each name at most once.
    pub open spec fn wf(&self) -> bool {
        keys_unique(extension_entries(self.extensions))
    }

    /// A spec of the definition `def_name` with the given id, nothing else
    /// set.
    pub fn new(id: String, def_name: String) -> (r: Self)
        ensures
            r.wf(),
            r@ == (AgentSpecView::<C, D> {
                id: id@,
                def_name: def_name@,
                inputs: None,
                outputs: None,
                configs: None,
                config_specs: None,
                disabled: false,
                extensions: Seq::empty(),
            }),
    {
        AgentSpec {
            id,
            def_name,
            inputs: None,
            outputs: None,
            configs: None,
            config_specs: None,
            disabled: false,
            extensions: extensions_new(),
        }
    }

    /// Sets an extension field: an existing one keeps its place, a new one
    /// comes last.
    pub fn set_extension(&mut self, key: String, value: AgentValue)
        requires
            old(self).wf(),
        ensures
            final(self).wf(),
            final(self)@ == (AgentSpecView {
                extensions: inserted(old(self)@.extensions, key@, value),
                ..old(self)@
            }),
    {
        proof {
            lemma_inserted(extension_entries(self.extensions), key@, value);
        }
        extensions_insert(&mut self.extensions, key, value);
    }

    /// Applies one patch field.
    fn apply_field(&mut self, key: String, v: PatchValue<C>) -> (r: Result<(), AgentError>)
        requires
            old(self).wf(),
        ensures
            final(self).wf(),
            match patched(old(self)@, key@, v) {
                Ok(next) => r is Ok && final(self)@ == next,
                Err(e) => r matches Err(AgentError::SerializationError(m)) && m@ == e
                    && final(self)@ == old(self)@,
            },
    {
        if str_eq(key.as_str(), "id") {
            if let PatchValue::Json(AgentValue::String(t)) = v {
                self.id = t;
            }
        } else if str_eq(key.as_str(), "def_name") {
            if let PatchValue::Json(AgentValue::String(t)) = v {
                self.def_name = t;
            }
        } else if str_eq(key.as_str(), "inputs") {
            if let PatchValue::Json(AgentValue::Array(items)) = v {
                self.inputs = Some(texts_of(&items));
            }
        } else if str_eq(key.as_str(), "outputs") {
            if let PatchValue::Json(AgentValue::Array(items)) = v {
                self.outputs = Some(texts_of(&items));
            }
        } else if str_eq(key.as_str(), "configs") {
            match v {
                PatchValue::Configs(Ok(c)) => {
                    self.configs = Some(c);
                },
                PatchValue::Configs(Err(e)) => {
                    return Err(AgentError::SerializationError(e));
                },
                PatchValue::Json(_) => {},
            }
        } else if str_eq(key.as_str(), "disabled") {
            if let PatchValue::Json(AgentValue::Boolean(b)) = v {
                self.disabled = b;
            }
        } else {
            match v {
                PatchValue::Json(AgentValue::Unit) => {
                    proof {
                        lemma_without_key(extension_entries(self.extensions), key@);
                    }
                    extensions_shift_remove(&mut self.extensions, key.as_str());
                },
                PatchValue::Json(x) => {
                    proof {
                        lemma_inserted(extension_entries(self.extensions), key@, x);
                    }
                    extensions_insert(&mut self.extensions, key, x);
                },
                PatchValue::Configs(_) => {},
            }
        }
        Ok(())
    }

    /// Updates this spec from a patch: its fields in order, as read from a
    /// JSON object (the `configs` field parsed, see [`PatchValue`]).
    ///
    /// Known fields (`id`, `def_name`, `inputs`, `outputs`, `configs`,
    /// `disabled`) are set from values of their type (for the ports, the
    /// string items of an array) and left as they are for values of another
    /// type. A `configs` value that does not parse fails the update with a
    /// serialization error; the fields before it stay applied. Any other
    /// field is an extension field: `null` removes it, another value sets
    /// it.
    pub fn update(&mut self, patch: Vec<(String, PatchValue<C>)>) -> (r: Result<(), AgentError>)
        requires
            old(self).wf(),
        ensures
            final(self).wf(),
            final(self)@ == apply_patch(old(self)@, patch@).0,
            match apply_patch(old(self)@, patch@).1 {
                None => r is Ok,
                Some(e) => r matches Err(AgentError::SerializationError(m)) && m@ == e,
            },
    {
        let ghost start = self@;
        let ghost whole = patch@;
        let mut rest = patch;
        while rest.len() > 0
            invariant
                self.wf(),
                start == old(self)@,
                whole == patch@,
                apply_patch(start, whole) == apply_patch(self@, rest@),
            decreases rest@.len(),
        {
            let ghost before = rest@;
            let ghost cur = self@;
            let (key, v) = rest.remove(0);
            proof {
                assert(rest@ =~= before.drop_first());
                assert(before[0] == (key, v));
            }
            match self.apply_field(key, v) {
                Err(e) => {
                    proof {
                        assert(apply_patch(cur, before) == (cur, Some(patched(cur, key@, v)->Err_0)));
                    }
                    return Err(e);
                },
                Ok(()) => {},
            }
        }
        Ok(())
    }
}


/// The specification of a preset (a workflow): its agents, the
/// connections between them, and extension fields for custom data.
pub struct PresetSpec<C, D> {
    /// The agents of the preset.
    pub agents: Vec<AgentSpec<C, D>>,
    /// The connections between the agents.
    pub connections: Vec<ConnectionSpec>,
    /// Extension fields for custom data.
    pub extensions: ExtensionMap,
}

/// The views of a list of agent specs.
pub open spec fn agents_view<C, D>(agents: Seq<AgentSpec<C, D>>) -> Seq<AgentSpecView<C, D>> {
    agents.map_values(|a: AgentSpec<C, D>| a@)
}

impl<C, D> PresetSpec<C, D> {
    /// An empty preset.
    pub fn new() -> (r: Self)
        ensures
            r.agents@ == Seq::<AgentSpec<C, D>>::empty(),
            r.connections@ == Seq::<ConnectionSpec>::empty(),
            extension_entries(r.extensions) == Seq::<(Seq<char>, AgentValue)>::empty(),
    {
        PresetSpec { agents: Vec::new(), connections: Vec::new(), extensions: extensions_new() }
    }

    /// Adds an agent, last.
    pub fn add_agent(&mut self, agent: AgentSpec<C, D>)
        ensures
            final(self).agents@ == old(self).agents@.push(agent),
            final(self).connections == old(self).connections,
            final(self).extensions == old(self).extensions,
    {
        self.agents.push(agent);
    }

    /// Removes every agent with the id `agent_id`, keeping the order of the
    /// others. Connections are left as they are.
    pub fn remove_agent(&mut self, agent_id: &str)
        ensures
            agents_view(final(self).agents@) == agents_view(old(self).agents@).filter(
                |a: AgentSpecView<C, D>| a.id != agent_id@,
            ),
            final(self).connections == old(self).connections,
            final(self).extensions == old(self).extensions,
    {
        let mut rest: Vec<AgentSpec<C, D>> = Vec::new();
        std::mem::swap(&mut rest, &mut self.agents);
        let ghost orig = rest@;
        let ghost pred = |a: AgentSpecView<C, D>| a.id != agent_id@;
        let ghost mut k: int = 0;
        proof {
            assert(orig.skip(0) =~= orig);
            assert(agents_view(orig.take(0)) =~= Seq::<AgentSpecView<C, D>>::empty());
            assert(agents_view(self.agents@) =~= Seq::<AgentSpecView<C, D>>::empty());
            assert(Seq::<AgentSpecView<C, D>>::empty().filter(pred) =~= Seq::<AgentSpecView<C, D>>::empty());
        }
        while rest.len() > 0
            invariant
                0 <= k <= orig.len(),
                rest@ == orig.skip(k),
                agents_view(self.agents@) == agents_view(orig.take(k)).filter(pred),
                pred == (|a: AgentSpecView<C, D>| a.id != agent_id@),
                self.connections == old(self).connections,
                self.extensions == old(self).extensions,
            decreases rest@.len(),
        {
            let a = rest.remove(0);
            proof {
                assert(a == orig[k]);
                assert(agents_view(orig.take(k + 1)) =~= agents_view(orig.take(k)).push(a@));
                agents_view(orig.take(k)).lemma_filter_push(a@, pred);
            }
            if !str_eq(a.id.as_str(), agent_id) {
                let ghost before = self.agents@;
                self.agents.push(a);
                proof {
                    assert(agents_view(self.agents@) =~= agents_view(before).push(a@));
                }
            }
            proof {
                assert(rest@ =~= orig.skip(k + 1));
                k = k + 1;
            }
        }
        proof {
            assert(orig.take(k) =~= orig);
        }
    }

    /// Adds a connection, last.
    pub fn add_connection(&mut self, connection: ConnectionSpec)
        ensures
            final(self).connections@ == old(self).connections@.push(connection),
            final(self).agents == old(self).agents,
            final(self).extensions == old(self).extensions,
    {
        self.connections.push(connection);
    }

    /// Removes the first connection with the same fields as `connection`
    /// and returns it; `None`, with nothing changed, when there is none.
    pub fn remove_connection(&mut self, connection: &ConnectionSpec) -> (r: Option<ConnectionSpec>)
        ensures
            final(self).agents == old(self).agents,
            final(self).extensions == old(self).extensions,
            match r {
                Some(c) => exists|i: int|
                    0 <= i < old(self).connections@.len() && same_connection(
                        old(self).connections@[i],
                        *connection,
                    ) && (forall|j: int|
                        0 <= j < i ==> !same_connection(#[trigger] old(self).connections@[j], *connection))
                        && c == old(self).connections@[i] && final(self).connections@ == old(
                        self,
                    ).connections@.remove(i),
                None => (forall|j: int|
                    0 <= j < old(self).connections@.len() ==> !same_connection(
                        #[trigger] old(self).connections@[j],
                        *connection,
                    )) && final(self).connections == old(self).connections,
            },
    {
        match position_of(&self.connections, connection) {
            Some(i) => {
                let c = self.connections.remove(i);
                Some(c)
            },
            None => None,
        }
    }
}


/// Patching `inputs` or `outputs` with an array sets those ports to the
/// array's string items, in order, whatever they were before; the other
/// fields stay as they were.
pub proof fn law_ports_take_the_string_items<C, D>(
    s: AgentSpecView<C, D>,
    key: String,
    items: Vec<AgentValue>,
)
    requires
        key@ == "inputs"@ || key@ == "outputs"@,
    ensures
        ({
            let (after, error) = apply_patch(s, seq![(key, PatchValue::<C>::Json(AgentValue::Array(items)))]);
            let names = string_items(items@);
            &&& error is None
            &&& key@ == "inputs"@ ==> after == AgentSpecView { inputs: Some(names), ..s }
            &&& key@ == "outputs"@ ==> after == AgentSpecView { outputs: Some(names), ..s }
        }),
{
    reveal_strlit("inputs");
    reveal_strlit("outputs");
    reveal_strlit("id");
    reveal_strlit("def_name");
    lemma_texts_in(items@);
    assert("inputs"@.len() == 6 && "outputs"@.len() == 7 && "id"@.len() == 2 && "def_name"@.len() == 8);
    let patch = seq![(key, PatchValue::<C>::Json(AgentValue::Array(items)))];
    assert(patch.drop_first() =~= Seq::<(String, PatchValue<C>)>::empty());
    let next = patched(s, key@, PatchValue::<C>::Json(AgentValue::Array(items)));
    assert(next is Ok);
    assert(apply_patch(s, patch) == apply_patch(next->Ok_0, patch.drop_first()));
    assert(apply_patch(s, patch) == (next->Ok_0, Option::<Seq<char>>::None));
    if key@ == "inputs"@ {
        assert(next->Ok_0 == AgentSpecView { inputs: Some(texts_in(items@)), ..s });
    } else {
        assert(key@ != "inputs"@);
        assert(next->Ok_0 == AgentSpecView { outputs: Some(texts_in(items@)), ..s });
    }
}


/// The names of the fields an agent spec patch sets directly.
pub open spec fn is_known_field(key: Seq<char>) -> bool {
    key == "id"@ || key == "def_name"@ || key == "inputs"@ || key == "outputs"@ || key == "configs"@
        || key == "disabled"@
}

/// Applying `a` then `b` is applying `a + b`: the fields apply in order,
/// and a failing field stops the update with the fields before it applied.
pub proof fn law_patches_apply_in_order<C, D>(
    s: AgentSpecView<C, D>,
    a: Seq<(String, PatchValue<C>)>,
    b: Seq<(String, PatchValue<C>)>,
)
    ensures
        apply_patch(s, a + b) == (if apply_patch(s, a).1 is Some {
            apply_patch(s, a)
        } else {
            apply_patch(apply_patch(s, a).0, b)
        }),
    decreases a.len(),
{
    if a.len() > 0 {
        assert((a + b).drop_first() =~= a.drop_first() + b);
        assert((a + b)[0] == a[0]);
        match patched(s, a[0].0@, a[0].1) {
            Ok(next) => {
                law_patches_apply_in_order(next, a.drop_first(), b);
            },
            Err(_) => {},
        }
    } else {
        assert(a + b =~= b);
    }
}

/// One patch field: `id` and `def_name` take a string, `disabled` a
/// boolean, and are left as they are for a value of another type; `configs`
/// takes the parsed config values, and a parse failure fails the update
/// with the parser's message, changing nothing; on any other field, `null`
/// removes the extension field and another value sets it. Nothing else
/// changes.
pub proof fn law_single_field_patch<C, D>(s: AgentSpecView<C, D>, key: String, value: PatchValue<C>)
    requires
        keys_unique(s.extensions),
    ensures
        ({
            let (after, error) = apply_patch(s, seq![(key, value)]);
            &&& key@ == "id"@ ==> error is None && after == (match value {
                PatchValue::Json(AgentValue::String(t)) => AgentSpecView { id: t@, ..s },
                _ => s,
            })
            &&& key@ == "def_name"@ ==> error is None && after == (match value {
                PatchValue::Json(AgentValue::String(t)) => AgentSpecView { def_name: t@, ..s },
                _ => s,
            })
            &&& key@ == "disabled"@ ==> error is None && after == (match value {
                PatchValue::Json(AgentValue::Boolean(b)) => AgentSpecView { disabled: b, ..s },
                _ => s,
            })
            &&& key@ == "configs"@ ==> match value {
                PatchValue::Configs(Ok(c)) => error is None && after == AgentSpecView { configs: Some(c), ..s },
                PatchValue::Configs(Err(e)) => error == Some(e@) && after == s,
                _ => error is None && after == s,
            }
            &&& !is_known_field(key@) ==> {
                &&& error is None
                &&& keys_unique(after.extensions)
                &&& after == AgentSpecView { extensions: after.extensions, ..s }
                &&& entries_map(after.extensions) == match value {
                    PatchValue::Json(AgentValue::Unit) => entries_map(s.extensions).remove(key@),
                    PatchValue::Json(x) => entries_map(s.extensions).insert(key@, x),
                    PatchValue::Configs(_) => entries_map(s.extensions),
                }
            }
        }),
{
    reveal_strlit("inputs");
    reveal_strlit("outputs");
    reveal_strlit("id");
    reveal_strlit("def_name");
    reveal_strlit("configs");
    reveal_strlit("disabled");
    assert("inputs"@.len() == 6 && "outputs"@.len() == 7 && "id"@.len() == 2 && "def_name"@.len() == 8
        && "configs"@.len() == 7 && "disabled"@.len() == 8);
    assert("outputs"@[0] == 'o' && "configs"@[0] == 'c' && "def_name"@[0] == 'd' && "disabled"@[1] == 'i'
        && "def_name"@[1] == 'e');
    let patch = seq![(key, value)];
    assert(patch.drop_first() =~= Seq::<(String, PatchValue<C>)>::empty());
    lemma_inserted(s.extensions, key@, value->Json_0);
    lemma_without_key(s.extensions, key@);
    let p = patched(s, key@, value);
    match p {
        Ok(n) => {
            assert(apply_patch(s, patch) == apply_patch(n, patch.drop_first()));
            assert(apply_patch(s, patch) == (n, Option::<Seq<char>>::None));
        },
        Err(e) => {
            assert(apply_patch(s, patch) == (s, Some(e)));
        },
    }
    if key@ == "id"@ {
    } else if key@ == "def_name"@ {
    } else if key@ == "disabled"@ {
    } else if key@ == "configs"@ {
    } else if !is_known_field(key@) {
        assert(key@ != "inputs"@ && key@ != "outputs"@);
    }
}

} // verus!
