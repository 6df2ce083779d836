//! The checks and messages of the flow-editing MCP server: bearer-token
//! comparison, preset-name validation, config-key and port validation, and
//! the self-correctable error texts returned to the calling agent.

use std::path::PathBuf;
use vstd::prelude::*;
use crate::error::AgentError;
use crate::text::{
    lemma_split_step, split_on, chars_of, concat2, concat3, join_strings, join_with, push_char, str_contains_char, str_eq,
    string_from_chars, strip_prefix_str, stripped, strs_view,
};

verus! {

/// Configuration of the flow-editing MCP server.
#[derive(Clone)]
pub struct McpServerConfig {
    /// TCP port to bind on 127.0.0.1 (endpoint path is `/mcp`).
    pub port: u16,
    /// Root directory where the `save_preset` tool writes preset JSON files
    /// (`<presets_dir>/<name>.json`). When `None`, saving is unavailable.
    pub presets_dir: Option<PathBuf>,
    /// Bearer token required on every request. `None` disables
    /// authentication.
    pub token: Option<String>,
}

/// Constant-time byte comparison: XOR-folds all byte pairs so response
/// timing does not reveal the position of the first mismatch. The length
/// check leaks only the token length.
pub fn constant_time_eq(a: &[u8], b: &[u8]) -> (r: bool)
    ensures
        r == (a@ == b@),
{
    if a.len() != b.len() {
        return false;
    }
    let mut acc: u8 = 0;
    let mut i: usize = 0;
    while i < a.len()
        invariant
            i <= a@.len(),
            a@.len() == b@.len(),
            (acc == 0) == (forall|j: int| 0 <= j < i ==> a@[j] == b@[j]),
        decreases a@.len() - i,
    {
        let x = a[i];
        let y = b[i];
        let next = acc | (x ^ y);
        assert((next == 0) == (acc == 0 && x == y)) by (bit_vector)
            requires
                next == acc | (x ^ y),
        ;
        acc = next;
        i = i + 1;
    }
    assert(a@ =~= b@ <==> forall|j: int| 0 <= j < a@.len() ==> a@[j] == b@[j]);
    acc == 0
}

/// A path segment a preset name may use: not empty, not `.` or `..`, and
/// not ending with `:` (a drive prefix).
pub open spec fn segment_ok(seg: Seq<char>) -> bool {
    &&& seg.len() > 0
    &&& seg != seq!['.']
    &&& seg != seq!['.', '.']
    &&& seg.last() != ':'
}

/// The error of [`validate_preset_name`] for a name, if any.
pub open spec fn preset_name_error(name: Seq<char>) -> Option<Seq<char>> {
    if name.len() == 0 {
        Some("Preset name must not be empty"@)
    } else if name.contains('\\') {
        Some("Preset name must use '/' as the folder separator"@)
    } else if !(forall|i: int|
        0 <= i < split_on(name, '/').len() ==> segment_ok(#[trigger] split_on(name, '/')[i])) {
        Some(
            "Invalid preset name \""@ + name
                + "\": must be a relative path without empty, \".\" or \"..\" components"@,
        )
    } else {
        None
    }
}

/// Whether a segment being built is acceptable.
fn segment_chars_ok(seg: &Vec<char>) -> (r: bool)
    ensures
        r == segment_ok(seg@),
{
    let n = seg.len();
    if n == 0 {
        return false;
    }
    if seg[n - 1] == ':' {
        return false;
    }
    if n == 1 && seg[0] == '.' {
        assert(seg@ =~= seq!['.']);
        return false;
    }
    if n == 2 && seg[0] == '.' && seg[1] == '.' {
        assert(seg@ =~= seq!['.', '.']);
        return false;
    }
    proof {
        if seg@ == seq!['.'] {
            assert(seg@[0] == '.');
        }
        if seg@ == seq!['.', '.'] {
            assert(seg@[0] == '.' && seg@[1] == '.');
        }
    }
    true
}

/// Validates a preset name used as a relative path under the presets
/// directory: not empty, `/` as the only separator, and no empty, `.` or
/// `..` segment (nor one ending with `:`). Names come from an external
/// agent, so this is a boundary check.
pub fn validate_preset_name(name: &str) -> (r: Result<(), String>)
    ensures
        match r {
            Ok(()) => preset_name_error(name@) is None,
            Err(msg) => preset_name_error(name@) == Some(msg@),
        },
{
    let chars = chars_of(name);
    if chars.len() == 0 {
        return Err(String::from_str("Preset name must not be empty"));
    }
    if str_contains_char(name, '\\') {
        return Err(String::from_str("Preset name must use '/' as the folder separator"));
    }
    // Walk the segments: `done_ok` covers the finished ones, `seg` is the
    // one being read.
    let mut done_ok = true;
    let mut seg: Vec<char> = Vec::new();
    let mut i: usize = 0;
    while i < chars.len()
        invariant
            i <= chars@.len(),
            chars@ == name@,
            split_on(chars@.take(i as int), '/').len() >= 1,
            seg@ == split_on(chars@.take(i as int), '/').last(),
            done_ok == (forall|j: int|
                0 <= j < split_on(chars@.take(i as int), '/').len() - 1 ==> segment_ok(
                    #[trigger] split_on(chars@.take(i as int), '/')[j],
                )),
        decreases chars@.len() - i,
    {
        proof {
            lemma_split_step(chars@, '/', i as int);
        }
        let ghost prev = split_on(chars@.take(i as int), '/');
        let ghost next = split_on(chars@.take(i + 1), '/');
        if chars[i] == '/' {
            let ok = segment_chars_ok(&seg);
            proof {
                assert(next == prev.push(Seq::empty()));
                assert forall|j: int| 0 <= j < next.len() - 1 implies #[trigger] next[j] == prev[j] by {}
                if done_ok && ok {
                    assert forall|j: int| 0 <= j < next.len() - 1 implies segment_ok(
                        #[trigger] next[j],
                    ) by {
                        if j < prev.len() - 1 {
                            assert(segment_ok(prev[j]));
                        }
                    }
                }
                if !ok {
                    assert(next[prev.len() - 1] == prev.last());
                }
                if !done_ok {
                    let j = choose|j: int| 0 <= j < prev.len() - 1 && !segment_ok(#[trigger] prev[j]);
                    assert(next[j] == prev[j]);
                }
            }
            done_ok = done_ok && ok;
            seg = Vec::new();
            assert(seg@ =~= next.last());
        } else {
            seg.push(chars[i]);
            proof {
                assert(seg@ =~= next.last());
                assert forall|j: int| 0 <= j < next.len() - 1 implies #[trigger] next[j] == prev[j] by {}
                if !done_ok {
                    let j = choose|j: int| 0 <= j < prev.len() - 1 && !segment_ok(#[trigger] prev[j]);
                    assert(next[j] == prev[j]);
                }
            }
        }
        i = i + 1;
    }
    assert(chars@.take(chars@.len() as int) =~= chars@);
    let last_ok = segment_chars_ok(&seg);
    let ghost parts = split_on(name@, '/');
    proof {
        if done_ok && last_ok {
            assert forall|j: int| 0 <= j < parts.len() implies segment_ok(#[trigger] parts[j]) by {
                if j < parts.len() - 1 {
                    assert(segment_ok(parts[j]));
                }
            }
        }
        if !last_ok {
            assert(!segment_ok(parts[parts.len() - 1]));
        }
        if !done_ok {
            let j = choose|j: int| 0 <= j < parts.len() - 1 && !segment_ok(#[trigger] parts[j]);
        }
    }
    if !(done_ok && last_ok) {
        return Err(
            concat3(
                "Invalid preset name \"",
                name,
                "\": must be a relative path without empty, \".\" or \"..\" components",
            ),
        );
    }
    Ok(())
}

/// The guidance returned for a preset-name error: a taken name points to
/// `list_presets`; other errors are shown as they are.
pub open spec fn preset_error_message(e: AgentError) -> Seq<char> {
    match e {
        AgentError::PresetNameExists(name) => "Preset name \""@ + name@
            + "\" already exists. Use list_presets to see open presets (and their ids), then pick a different name or work with the existing preset."@,
        e => e.spec_message(),
    }
}

/// Maps a preset-name error to guidance the calling agent can act on.
pub fn preset_error_text(e: AgentError) -> (r: String)
    ensures
        r@ == preset_error_message(e),
{
    match e {
        AgentError::PresetNameExists(name) => concat3(
            "Preset name \"",
            name.as_str(),
            "\" already exists. Use list_presets to see open presets (and their ids), then pick a different name or work with the existing preset.",
        ),
        e => e.to_string(),
    }
}

/// Whether `names` holds `name`.
pub open spec fn holds(names: Option<Seq<Seq<char>>>, name: Seq<char>) -> bool {
    match names {
        Some(n) => n.contains(name),
        None => false,
    }
}

/// The error for one candidate config key, if it is rejected.
pub open spec fn config_key_error(
    def_name: Seq<char>,
    global_keys: Option<Seq<Seq<char>>>,
    config_keys: Option<Seq<Seq<char>>>,
    key: Seq<char>,
) -> Option<Seq<char>> {
    if holds(global_keys, key) {
        Some(
            "\""@ + key + "\" is a GLOBAL configuration of "@ + def_name
                + ". Global configs (API keys, tokens, secrets) are set by the user in the application settings and must never be set on an agent instance."@,
        )
    } else if !holds(config_keys, key) {
        Some(
            "Unknown config \""@ + key + "\" for "@ + def_name + ". Valid configs: ["@ + join_with(
                match config_keys {
                    Some(k) => k,
                    None => Seq::empty(),
                },
                ", "@,
            ) + "]"@,
        )
    } else {
        None
    }
}

/// The error for the first rejected key, if any.
pub open spec fn config_keys_error(
    def_name: Seq<char>,
    global_keys: Option<Seq<Seq<char>>>,
    config_keys: Option<Seq<Seq<char>>>,
    keys: Seq<Seq<char>>,
) -> Option<Seq<char>>
    decreases keys.len(),
{
    if keys.len() == 0 {
        None
    } else {
        match config_key_error(def_name, global_keys, config_keys, keys[0]) {
            Some(e) => Some(e),
            None => config_keys_error(def_name, global_keys, config_keys, keys.drop_first()),
        }
    }
}

/// Whether `names` (if any) holds a string equal to `name`.
fn opt_names_contain(names: Option<&Vec<String>>, name: &str) -> (r: bool)
    ensures
        r == holds(
            match names {
                Some(n) => Some(strs_view(n@)),
                None => None,
            },
            name@,
        ),
{
    match names {
        None => false,
        Some(v) => {
            let mut i: usize = 0;
            while i < v.len()
                invariant
                    i <= v@.len(),
                    names == Some(v),
                    forall|j: int| 0 <= j < i ==> #[trigger] v@[j]@ != name@,
                decreases v@.len() - i,
            {
                if str_eq(v[i].as_str(), name) {
                    assert(strs_view(v@)[i as int] == name@);
                    return true;
                }
                i = i + 1;
            }
            proof {
                if strs_view(v@).contains(name@) {
                    let k = choose|k: int| 0 <= k < strs_view(v@).len() && strs_view(v@)[k] == name@;
                    assert(v@[k]@ == name@);
                }
            }
            false
        },
    }
}

/// Checks candidate config keys against an agent definition, given the
/// definition's global config keys and per-instance config keys in their
/// declared order. Rejects global config keys (secrets live in app
/// settings, never on instances) and keys the definition does not declare;
/// the first rejected key decides the error.
pub fn validate_config_keys(
    def_name: &str,
    global_keys: Option<&Vec<String>>,
    config_keys: Option<&Vec<String>>,
    keys: &Vec<String>,
) -> (r: Result<(), String>)
    ensures
        ({
            let g = match global_keys {
                Some(k) => Some(strs_view(k@)),
                None => None,
            };
            let c = match config_keys {
                Some(k) => Some(strs_view(k@)),
                None => None,
            };
            match r {
                Ok(()) => config_keys_error(def_name@, g, c, strs_view(keys@)) is None,
                Err(msg) => config_keys_error(def_name@, g, c, strs_view(keys@)) == Some(msg@),
            }
        }),
{
    let ghost g = match global_keys {
        Some(k) => Some(strs_view(k@)),
        None => None,
    };
    let ghost c = match config_keys {
        Some(k) => Some(strs_view(k@)),
        None => None,
    };
    let ghost all = strs_view(keys@);
    assert(all.skip(0) =~= all);
    let mut i: usize = 0;
    while i < keys.len()
        invariant
            i <= keys@.len(),
            all == strs_view(keys@),
            g == match global_keys {
                Some(k) => Some(strs_view(k@)),
                None => None,
            },
            c == match config_keys {
                Some(k) => Some(strs_view(k@)),
                None => None,
            },
            config_keys_error(def_name@, g, c, all) == config_keys_error(
                def_name@,
                g,
                c,
                all.skip(i as int),
            ),
        decreases keys@.len() - i,
    {
        let key = keys[i].as_str();
        assert(all.skip(i as int)[0] == key@);
        assert(all.skip(i as int).drop_first() =~= all.skip(i + 1));
        if opt_names_contain(global_keys, key) {
            let mut msg = concat3("\"", key, "\" is a GLOBAL configuration of ");
            msg.append(def_name);
            msg.append(
                ". Global configs (API keys, tokens, secrets) are set by the user in the application settings and must never be set on an agent instance.",
            );
            return Err(msg);
        }
        if !opt_names_contain(config_keys, key) {
            let valid = match config_keys {
                Some(k) => join_strings(k, ", "),
                None => {
                    assert(join_with(Seq::<Seq<char>>::empty(), ", "@) == Seq::<char>::empty());
                    String::new()
                },
            };
            let mut msg = concat3("Unknown config \"", key, "\" for ");
            msg.append(def_name);
            msg.append(". Valid configs: [");
            msg.append(valid.as_str());
            msg.append("]");
            return Err(msg);
        }
        i = i + 1;
    }
    assert(all.skip(keys@.len() as int) =~= Seq::<Seq<char>>::empty());
    Ok(())
}

/// The config key a port addresses: `config:<key>` writes into the config
/// `<key>` instead of an input port.
pub fn config_port_key(port: &str) -> (r: Option<String>)
    ensures
        r.deep_view() == stripped(port@, "config:"@),
{
    strip_prefix_str(port, "config:")
}

/// The error for an invalid pair of connection handles, if any: the source
/// handle must be an output of the source agent or `err`; the target handle
/// an input of the target agent or `config:<key>` for one of its config
/// keys.
pub open spec fn connection_ports_error(
    source: Seq<char>,
    source_def: Seq<char>,
    outputs: Seq<Seq<char>>,
    source_handle: Seq<char>,
    target: Seq<char>,
    target_def: Seq<char>,
    inputs: Seq<Seq<char>>,
    config_keys: Seq<Seq<char>>,
    target_handle: Seq<char>,
) -> Option<Seq<char>> {
    if source_handle != "err"@ && !outputs.contains(source_handle) {
        Some(
            "Invalid source_handle \""@ + source_handle + "\" for agent "@ + source + " ("@
                + source_def + "). Valid source handles: ["@ + join_with(outputs, ", "@)
                + "] or \"err\"."@,
        )
    } else if !(match stripped(target_handle, "config:"@) {
        Some(key) => config_keys.contains(key),
        None => inputs.contains(target_handle),
    }) {
        Some(
            "Invalid target_handle \""@ + target_handle + "\" for agent "@ + target + " ("@
                + target_def + "). Valid target handles: ["@ + join_with(inputs, ", "@) + "] or ["@
                + join_with(config_keys.map_values(|k: Seq<char>| "config:"@ + k), ", "@) + "]."@,
        )
    } else {
        None
    }
}

/// Checks the handles of a connection requested by an external agent
/// against the ports of its two agents, so that a wrong port name comes back
/// as a message listing the valid ones.
pub fn check_connection_ports(
    source: &str,
    source_def: &str,
    outputs: &Vec<String>,
    source_handle: &str,
    target: &str,
    target_def: &str,
    inputs: &Vec<String>,
    config_keys: &Vec<String>,
    target_handle: &str,
) -> (r: Result<(), String>)
    ensures
        match r {
            Ok(()) => connection_ports_error(
                source@,
                source_def@,
                strs_view(outputs@),
                source_handle@,
                target@,
                target_def@,
                strs_view(inputs@),
                strs_view(config_keys@),
                target_handle@,
            ) is None,
            Err(msg) => connection_ports_error(
                source@,
                source_def@,
                strs_view(outputs@),
                source_handle@,
                target@,
                target_def@,
                strs_view(inputs@),
                strs_view(config_keys@),
                target_handle@,
            ) == Some(msg@),
        },
{
    if !str_eq(source_handle, "err") && !opt_names_contain(Some(outputs), source_handle) {
        let mut msg = concat3("Invalid source_handle \"", source_handle, "\" for agent ");
        msg.append(source);
        msg.append(" (");
        msg.append(source_def);
        msg.append("). Valid source handles: [");
        msg.append(join_strings(outputs, ", ").as_str());
        msg.append("] or \"err\".");
        return Err(msg);
    }
    let target_valid = match config_port_key(target_handle) {
        Some(key) => opt_names_contain(Some(config_keys), key.as_str()),
        None => opt_names_contain(Some(inputs), target_handle),
    };
    if !target_valid {
        let mut handles: Vec<String> = Vec::new();
        let mut i: usize = 0;
        while i < config_keys.len()
            invariant
                i <= config_keys@.len(),
                strs_view(handles@) == strs_view(config_keys@.take(i as int)).map_values(
                    |k: Seq<char>| "config:"@ + k,
                ),
            decreases config_keys@.len() - i,
        {
            let ghost prev = strs_view(handles@);
            let ghost f = |k: Seq<char>| "config:"@ + k;
            let ghost before = strs_view(config_keys@.take(i as int));
            handles.push(concat2("config:", config_keys[i].as_str()));
            assert(strs_view(handles@) =~= prev.push("config:"@ + config_keys@[i as int]@));
            assert(strs_view(config_keys@.take(i + 1)) =~= before.push(config_keys@[i as int]@));
            assert(before.push(config_keys@[i as int]@).map_values(f) =~= before.map_values(f).push(
                f(config_keys@[i as int]@),
            ));
            i = i + 1;
        }
        assert(config_keys@.take(config_keys@.len() as int) =~= config_keys@);
        let mut msg = concat3("Invalid target_handle \"", target_handle, "\" for agent ");
        msg.append(target);
        msg.append(" (");
        msg.append(target_def);
        msg.append("). Valid target handles: [");
        msg.append(join_strings(inputs, ", ").as_str());
        msg.append("] or [");
        msg.append(join_strings(&handles, ", ").as_str());
        msg.append("].");
        return Err(msg);
    }
    Ok(())
}

/// Width, in characters, beyond which a default value is shortened.
pub const COMPACT_DEFAULT_CHARS: usize = 40;

/// A default value's JSON text, shortened to its first
/// [`COMPACT_DEFAULT_CHARS`] characters and an ellipsis when longer.
pub open spec fn compacted(json: Seq<char>) -> Seq<char> {
    if json.len() > COMPACT_DEFAULT_CHARS {
        json.take(COMPACT_DEFAULT_CHARS as int).push('\u{2026}')
    } else {
        json
    }
}

/// Truncates the JSON text of a long default value so the definition
/// listing stays compact.
pub fn compact_default(json: &str) -> (r: String)
    ensures
        r@ == compacted(json@),
{
    let chars = chars_of(json);
    if chars.len() > COMPACT_DEFAULT_CHARS {
        let mut s = string_from_chars(&chars, 0, COMPACT_DEFAULT_CHARS);
        push_char(&mut s, '\u{2026}');
        s
    } else {
        assert(chars@.subrange(0, chars@.len() as int) =~= json@);
        string_from_chars(&chars, 0, chars.len())
    }
}

/// The part of `s` before its first newline (all of `s` without one).
pub open spec fn before_newline(s: Seq<char>) -> Seq<char>
    decreases s.len(),
{
    if s.len() == 0 {
        s
    } else if s[0] == '\n' {
        Seq::empty()
    } else {
        seq![s[0]] + before_newline(s.drop_first())
    }
}

/// The text of a string option, or `default` when absent.
pub open spec fn or_text(o: Option<String>, default: Seq<char>) -> Seq<char> {
    match o {
        Some(s) => s@,
        None => default,
    }
}

/// One config of an agent definition, as the definition listing shows it.
pub struct ConfigSummary {
    /// Config key.
    pub key: String,
    /// Declared type name, if any.
    pub value_type: Option<String>,
    /// The default value as JSON text (`?` when it cannot be serialized).
    pub default_json: String,
    /// Hidden from the UI.
    pub hidden: bool,
    /// Not editable.
    pub readonly: bool,
}

/// The listing entry of a config: `key:type=default`.
pub open spec fn config_entry(c: ConfigSummary) -> Seq<char> {
    c.key@ + ":"@ + or_text(c.value_type, "any"@) + "="@ + compacted(c.default_json@)
}

/// The entries of the configs that are neither hidden nor read-only, in
/// order.
pub open spec fn config_entries(cs: Seq<ConfigSummary>) -> Seq<Seq<char>>
    decreases cs.len(),
{
    if cs.len() == 0 {
        Seq::empty()
    } else {
        let r = config_entries(cs.drop_last());
        if !cs.last().hidden && !cs.last().readonly {
            r.push(config_entry(cs.last()))
        } else {
            r
        }
    }
}

/// The ports of an optional port list joined with commas.
pub open spec fn ports_text(ports: Option<Vec<String>>) -> Seq<char> {
    match ports {
        Some(p) => join_with(strs_view(p@), ","@),
        None => Seq::empty(),
    }
}

/// One line of the agent-definition listing:
/// `name | title (category) | description | in: ... | out: ... | configs: ...`.
pub open spec fn definition_text(
    name: Seq<char>,
    title: Option<String>,
    category: Option<String>,
    description: Option<String>,
    inputs: Option<Vec<String>>,
    outputs: Option<Vec<String>>,
    configs: Seq<ConfigSummary>,
) -> Seq<char> {
    name + " | "@ + or_text(title, "-"@) + " ("@ + or_text(category, "-"@) + ") | "@
        + crate::text::trim(before_newline(or_text(description, Seq::empty()))) + " | in: "@
        + ports_text(inputs) + " | out: "@ + ports_text(outputs) + " | configs: "@ + join_with(
        config_entries(configs),
        ", "@,
    )
}

/// The part of `s` before its first newline.
fn first_line(s: &str) -> (r: String)
    ensures
        r@ == before_newline(s@),
{
    let chars = chars_of(s);
    let mut i: usize = 0;
    while i < chars.len() && chars[i] != '\n'
        invariant
            i <= chars@.len(),
            chars@ == s@,
            forall|j: int| 0 <= j < i ==> chars@[j] != '\n',
        decreases chars@.len() - i,
    {
        i = i + 1;
    }
    proof {
        lemma_before_newline(s@, i as int);
    }
    string_from_chars(&chars, 0, i)
}

/// `before_newline` stops at the first newline.
proof fn lemma_before_newline(s: Seq<char>, i: int)
    requires
        0 <= i <= s.len(),
        forall|j: int| 0 <= j < i ==> s[j] != '\n',
        i < s.len() ==> s[i] == '\n',
    ensures
        before_newline(s) == s.subrange(0, i),
    decreases s.len(),
{
    if s.len() > 0 && i > 0 {
        assert forall|j: int| 0 <= j < i - 1 implies s.drop_first()[j] != '\n' by {
            assert(s.drop_first()[j] == s[j + 1]);
        }
        if i < s.len() {
            assert(s.drop_first()[i - 1] == s[i]);
        }
        lemma_before_newline(s.drop_first(), i - 1);
        assert(seq![s[0]] + s.drop_first().subrange(0, i - 1) =~= s.subrange(0, i));
    } else if s.len() > 0 {
        assert(s.subrange(0, 0) =~= Seq::<char>::empty());
    } else {
        assert(s.subrange(0, 0) =~= s);
    }
}

/// The text of a string option, or `default` when absent.
fn opt_text(o: &Option<String>, default: &str) -> (r: String)
    ensures
        r@ == or_text(*o, default@),
{
    match o {
        Some(s) => s.clone(),
        None => default.to_owned(),
    }
}

/// Formats one agent definition as a line of the compact listing: ports,
/// the first line of the description, and the configs that are neither
/// hidden nor read-only with their type and (shortened) default.
pub fn definition_line(
    name: &str,
    title: &Option<String>,
    category: &Option<String>,
    description: &Option<String>,
    inputs: &Option<Vec<String>>,
    outputs: &Option<Vec<String>>,
    configs: &Vec<ConfigSummary>,
) -> (r: String)
    ensures
        r@ == definition_text(
            name@,
            *title,
            *category,
            *description,
            *inputs,
            *outputs,
            configs@,
        ),
{
    let desc = match description {
        Some(d) => crate::text::trim_str(first_line(d.as_str()).as_str()),
        None => {
            assert(before_newline(Seq::<char>::empty()) =~= Seq::<char>::empty());
            assert(crate::text::trim(Seq::<char>::empty()) =~= Seq::<char>::empty());
            String::new()
        },
    };
    let ins = match inputs {
        Some(p) => join_strings(p, ","),
        None => String::new(),
    };
    let outs = match outputs {
        Some(p) => join_strings(p, ","),
        None => String::new(),
    };
    let mut entries: Vec<String> = Vec::new();
    let mut i: usize = 0;
    while i < configs.len()
        invariant
            i <= configs@.len(),
            strs_view(entries@) == config_entries(configs@.take(i as int)),
        decreases configs@.len() - i,
    {
        assert(configs@.take(i + 1).drop_last() =~= configs@.take(i as int));
        assert(configs@.take(i + 1).last() == configs@[i as int]);
        let c = &configs[i];
        if !c.hidden && !c.readonly {
            let mut e = concat2(c.key.as_str(), ":");
            e.append(opt_text(&c.value_type, "any").as_str());
            e.append("=");
            e.append(compact_default(c.default_json.as_str()).as_str());
            let ghost prev = strs_view(entries@);
            entries.push(e);
            assert(strs_view(entries@) =~= prev.push(config_entry(configs@[i as int])));
        }
        i = i + 1;
    }
    assert(configs@.take(configs@.len() as int) =~= configs@);
    let mut line = concat3(name, " | ", opt_text(title, "-").as_str());
    line.append(" (");
    line.append(opt_text(category, "-").as_str());
    line.append(") | ");
    line.append(desc.as_str());
    line.append(" | in: ");
    line.append(ins.as_str());
    line.append(" | out: ");
    line.append(outs.as_str());
    line.append(" | configs: ");
    line.append(join_strings(&entries, ", ").as_str());
    line
}

/// What saving a preset under a name amounts to: the name to save under
/// and, when that renames the preset, its former name (whose file is then
/// removed).
pub struct SavePlan {
    /// Name to save the preset as.
    pub name: String,
    /// The preset's former name when the save renames it.
    pub renamed_from: Option<String>,
}

/// The decision of `save_preset`: unavailable without a presets directory;
/// the requested name, else the preset's current one; the name must pass
/// [`validate_preset_name`]; a name other than the current one renames.
pub open spec fn save_plan(
    has_presets_dir: bool,
    requested: Option<Seq<char>>,
    current: Option<Seq<char>>,
) -> Result<(Seq<char>, Option<Seq<char>>), Seq<char>> {
    if !has_presets_dir {
        Err(
            "Saving is unavailable: this MCP server was started without a presets directory."@,
        )
    } else {
        let name = match requested {
            Some(n) => Some(n),
            None => current,
        };
        match name {
            None => Err("Preset has no name; pass the \"name\" parameter to save it."@),
            Some(n) => match preset_name_error(n) {
                Some(e) => Err(e),
                None => Ok(
                    (
                        n,
                        match current {
                            Some(old) => if old != n {
                                Some(old)
                            } else {
                                None
                            },
                            None => None,
                        },
                    ),
                ),
            },
        }
    }
}

/// Decides how `save_preset` saves: which name to use and whether the save
/// renames the preset.
pub fn plan_preset_save(has_presets_dir: bool, requested: Option<String>, current: Option<String>) -> (r:
    Result<SavePlan, String>)
    ensures
        match r {
            Ok(p) => save_plan(has_presets_dir, requested.deep_view(), current.deep_view()) == Ok::<
                (Seq<char>, Option<Seq<char>>),
                Seq<char>,
            >((p.name@, p.renamed_from.deep_view())),
            Err(e) => save_plan(has_presets_dir, requested.deep_view(), current.deep_view()) == Err::<
                (Seq<char>, Option<Seq<char>>),
                Seq<char>,
            >(e@),
        },
        r is Ok ==> r->Ok_0.renamed_from.deep_view() == (if current.deep_view() is Some
            && current.deep_view() != Some(r->Ok_0.name@) {
            current.deep_view()
        } else {
            None
        }),
{
    proof {
        law_save_renames_only_under_a_new_name(has_presets_dir, requested.deep_view(), current.deep_view());
    }
    if !has_presets_dir {
        return Err(
            String::from_str(
                "Saving is unavailable: this MCP server was started without a presets directory.",
            ),
        );
    }
    let name = match requested {
        Some(n) => n,
        None => match &current {
            Some(c) => c.clone(),
            None => {
                return Err(
                    String::from_str("Preset has no name; pass the \"name\" parameter to save it."),
                );
            },
        },
    };
    match validate_preset_name(name.as_str()) {
        Err(e) => return Err(e),
        Ok(()) => {},
    }
    let renamed_from = match current {
        Some(old) => {
            if str_eq(old.as_str(), name.as_str()) {
                None
            } else {
                Some(old)
            }
        },
        None => None,
    };
    Ok(SavePlan { name, renamed_from })
}
/// A save is under the requested name, else the current one, and renames
/// exactly when the preset has a current name other than the name saved
/// under; the former name is then that current name, never the saved one.
pub proof fn law_save_renames_only_under_a_new_name(
    has_presets_dir: bool,
    requested: Option<Seq<char>>,
    current: Option<Seq<char>>,
)
    ensures
        save_plan(has_presets_dir, requested, current) matches Ok((name, renamed_from)) ==> {
            &&& name == match requested {
                Some(n) => n,
                None => current->0,
            }
            &&& renamed_from is Some <==> (current is Some && current->0 != name)
            &&& renamed_from is Some ==> renamed_from == current && renamed_from->0 != name
        },
{
}

/// Whether a request's `Authorization` header value carries the expected
/// bearer token: `Bearer <token>` with exactly the expected token.
pub open spec fn bearer_ok(header: Option<Seq<char>>, expected: Seq<char>) -> bool {
    match header {
        Some(h) => stripped(h, "Bearer "@) == Some(expected),
        None => false,
    }
}

/// Whether a request is authorized: its `Authorization` header (absent
/// when missing or not valid text) must be `Bearer <expected>`. The token is
/// compared in constant time.
pub fn bearer_authorized(header: Option<&str>, expected: &str) -> (r: bool)
    ensures
        r == bearer_ok(
            match header {
                Some(h) => Some(h@),
                None => None,
            },
            expected@,
        ),
{
    match header {
        None => false,
        Some(h) => match strip_prefix_str(h, "Bearer ") {
            None => false,
            Some(token) => {
                let ok = constant_time_eq(token.as_str().as_bytes(), expected.as_bytes());
                proof {
                    vstd::utf8::encode_utf8_decode_utf8(token@);
                    vstd::utf8::encode_utf8_decode_utf8(expected@);
                }
                ok
            },
        },
    }
}
} // verus!
