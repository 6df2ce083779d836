//! Values travelling between agents, as far as the library reads them:
//! scalars, text, arrays and objects with named fields.

use vstd::prelude::*;
use crate::text::str_eq;

verus! {

/// A value sent from one agent's output port to another agent's input.
#[derive(Debug)]
pub enum AgentValue {
    /// No value.
    Unit,
    /// A boolean.
    Boolean(bool),
    /// A signed integer.
    Integer(i64),
    /// A floating-point number, carried as its decimal text.
    Number(String),
    /// A string.
    String(String),
    /// An image, carried as its PNG data URL.
    Image(String),
    /// An ordered array of values.
    Array(Vec<AgentValue>),
    /// An object: named fields, each name at most once.
    Object(Vec<(String, AgentValue)>),
}

/// A value by the characters of its strings and the views of its parts.
pub enum ValueView {
    /// No value.
    Unit,
    /// A boolean.
    Boolean(bool),
    /// A signed integer.
    Integer(i64),
    /// A number by its decimal text.
    Number(Seq<char>),
    /// A string.
    String(Seq<char>),
    /// An image by its PNG data URL.
    Image(Seq<char>),
    /// An array.
    Array(Seq<ValueView>),
    /// An object: its fields in order.
    Object(Seq<(Seq<char>, ValueView)>),
}

/// The view of a value.
pub open spec fn value_view(v: AgentValue) -> ValueView
    decreases v, 0nat,
{
    match v {
        AgentValue::Unit => ValueView::Unit,
        AgentValue::Boolean(b) => ValueView::Boolean(b),
        AgentValue::Integer(i) => ValueView::Integer(i),
        AgentValue::Number(t) => ValueView::Number(t@),
        AgentValue::String(t) => ValueView::String(t@),
        AgentValue::Image(t) => ValueView::Image(t@),
        AgentValue::Array(items) => ValueView::Array(items_view(items@)),
        AgentValue::Object(fields) => ValueView::Object(fields_view(fields@)),
    }
}

/// The views of the values of a sequence.
pub open spec fn items_view(items: Seq<AgentValue>) -> Seq<ValueView>
    decreases items, items.len(),
{
    if items.len() == 0 {
        Seq::empty()
    } else {
        items_view(items.drop_last()).push(value_view(items.last()))
    }
}

/// The views of the fields of an object.
pub open spec fn fields_view(fields: Seq<(String, AgentValue)>) -> Seq<(Seq<char>, ValueView)>
    decreases fields, fields.len(),
{
    if fields.len() == 0 {
        Seq::empty()
    } else {
        fields_view(fields.drop_last()).push((fields.last().0@, value_view(fields.last().1)))
    }
}

/// The views of a sequence of values, element by element.
pub proof fn lemma_items_view(items: Seq<AgentValue>)
    ensures
        items_view(items).len() == items.len(),
        forall|i: int| 0 <= i < items.len() ==> #[trigger] items_view(items)[i] == value_view(items[i]),
    decreases items.len(),
{
    if items.len() > 0 {
        lemma_items_view(items.drop_last());
    }
}

/// The views of the fields of an object, field by field.
pub proof fn lemma_fields_view(fields: Seq<(String, AgentValue)>)
    ensures
        fields_view(fields).len() == fields.len(),
        forall|i: int|
            0 <= i < fields.len() ==> #[trigger] fields_view(fields)[i] == (
                fields[i].0@,
                value_view(fields[i].1),
            ),
    decreases fields.len(),
{
    if fields.len() > 0 {
        lemma_fields_view(fields.drop_last());
    }
}

/// The JSON form of a value: numbers from their decimal text, images as
/// their data URL.
#[verifier::external_body]
pub(crate) fn json_of(v: &AgentValue) -> serde_json::Value {
    match v {
        AgentValue::Unit => serde_json::Value::Null,
        AgentValue::Boolean(b) => serde_json::Value::Bool(*b),
        AgentValue::Integer(i) => serde_json::Value::from(*i),
        AgentValue::Number(t) => t.parse::<serde_json::Number>().map_or(serde_json::Value::Null, serde_json::Value::Number),
        AgentValue::String(t) | AgentValue::Image(t) => serde_json::Value::String(t.clone()),
        AgentValue::Array(items) => serde_json::Value::Array(items.iter().map(json_of).collect()),
        AgentValue::Object(fields) => serde_json::Value::Object(fields.iter().map(|(k, x)| (k.clone(), json_of(x))).collect()),
    }
}

/// The compact JSON text of a value, as `serde_json` writes it.
pub uninterp spec fn json_text(v: ValueView) -> Seq<char>;

/// `serde_json::Value::to_string`: the compact JSON text of a value. A pure
/// function of the value, so its result is named.
#[verifier::external_body]
pub(crate) fn value_json_text(v: &AgentValue) -> (r: String)
    ensures
        r@ == json_text(value_view(*v)),
{
    json_of(v).to_string()
}

/// The value of the first field named `key`, if any.
pub open spec fn field_in(fields: Seq<(String, AgentValue)>, key: Seq<char>) -> Option<AgentValue>
    decreases fields.len(),
{
    if fields.len() == 0 {
        None
    } else if fields[0].0@ == key {
        Some(fields[0].1)
    } else {
        field_in(fields.drop_first(), key)
    }
}

/// The field `key` of an object value; nothing for any other value.
pub open spec fn field_of(v: AgentValue, key: Seq<char>) -> Option<AgentValue> {
    match v {
        AgentValue::Object(fields) => field_in(fields@, key),
        _ => None,
    }
}

/// The text of a string value.
pub open spec fn text_of(v: Option<AgentValue>) -> Option<Seq<char>> {
    match v {
        Some(AgentValue::String(s)) => Some(s@),
        _ => None,
    }
}

/// The truth value of a boolean value.
pub open spec fn bool_of(v: Option<AgentValue>) -> Option<bool> {
    match v {
        Some(AgentValue::Boolean(b)) => Some(b),
        _ => None,
    }
}

impl AgentValue {
    /// The field `key` of an object value (`None` for any other value).
    pub fn get<'a>(&'a self, key: &str) -> (r: Option<&'a AgentValue>)
        ensures
            match r {
                Some(x) => field_of(*self, key@) == Some(*x),
                None => field_of(*self, key@) is None,
            },
    {
        match self {
            AgentValue::Object(fields) => {
                let mut i: usize = 0;
                proof {
                    assert(fields@.skip(0) =~= fields@);
                }
                while i < fields.len()
                    invariant
                        i <= fields@.len(),
                        field_of(*self, key@) == field_in(fields@, key@),
                        field_in(fields@, key@) == field_in(fields@.skip(i as int), key@),
                    decreases fields@.len() - i,
                {
                    if str_eq(fields[i].0.as_str(), key) {
                        proof {
                            assert(fields@.skip(i as int)[0] == fields@[i as int]);
                            assert(field_in(fields@.skip(i as int), key@) == Some(fields@[i as int].1));
                        }
                        let entry = &fields[i];
                        assert(*entry == fields@[i as int]);
                        assert(field_of(*self, key@) == Some(entry.1));
                        return Some(&entry.1);
                    }
                    proof {
                        assert(fields@.skip(i as int)[0] == fields@[i as int]);
                        assert(fields@.skip(i as int).drop_first() =~= fields@.skip(i + 1));
                    }
                    i = i + 1;
                }
                proof {
                    assert(fields@.skip(i as int).len() == 0);
                }
                None
            },
            _ => None,
        }
    }

    /// The text of a string value.
    pub fn as_text(&self) -> (r: Option<String>)
        ensures
            r.deep_view() == text_of(Some(*self)),
    {
        match self {
            AgentValue::String(s) => Some(s.clone()),
            _ => None,
        }
    }

    /// The truth value of a boolean value.
    pub fn as_bool(&self) -> (r: Option<bool>)
        ensures
            r == bool_of(Some(*self)),
    {
        match self {
            AgentValue::Boolean(b) => Some(*b),
            _ => None,
        }
    }
}

} // verus!
