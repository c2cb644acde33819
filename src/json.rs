//! JSON values held as plain data, and the bridge to serde_json.

use vstd::prelude::*;

verus! {

/// A JSON value. Object members keep the order in which the parser gave them.
#[derive(Debug, PartialEq)]
pub enum JsonValue {
    Null,
    Bool(bool),
    /// A number, kept as the text that serde_json prints for it.
    Number(String),
    Str(String),
    Array(Vec<JsonValue>),
    Object(Vec<(String, JsonValue)>),
}

impl JsonValue {
    pub open spec fn is_null(&self) -> bool {
        self is Null
    }
}

#[verifier::external_type_specification]
#[verifier::external_body]
pub struct ExSerdeValue(serde_json::Value);

/// One level of a serde_json value: its variant, with the children left as
/// serde_json values.
enum SerdeNode {
    Null,
    Bool(bool),
    Number(String),
    Str(String),
    Array(Vec<serde_json::Value>),
    Object(Vec<(String, serde_json::Value)>),
}

/// What serde_json::from_str::<serde_json::Value> gives for a text, as a
/// `JsonValue`, or `None` where the text is not JSON.
pub uninterp spec fn parsed_json(s: Seq<char>) -> Option<JsonValue>;

/// Relies on the variants of serde_json::Value (and serde_json::Number's
/// printing): tells them apart and hands the children on.
#[verifier::external_body]
fn serde_node(v: &serde_json::Value) -> (r: SerdeNode) {
    match v {
        serde_json::Value::Null => SerdeNode::Null,
        serde_json::Value::Bool(b) => SerdeNode::Bool(*b),
        serde_json::Value::Number(n) => SerdeNode::Number(n.to_string()),
        serde_json::Value::String(s) => SerdeNode::Str(s.clone()),
        serde_json::Value::Array(a) => SerdeNode::Array(a.clone()),
        serde_json::Value::Object(m) => SerdeNode::Object(
            m.iter().map(|(k, c)| (k.clone(), c.clone())).collect(),
        ),
    }
}

/// serde_json refuses documents nested deeper than 128 levels, so this bound
/// is never reached by what it parses.
pub const MAX_DEPTH: usize = 256;

fn from_serde_bounded(v: &serde_json::Value, depth: usize) -> (r: Option<JsonValue>)
    decreases depth,
{
    if depth == 0 {
        return None;
    }
    match serde_node(v) {
        SerdeNode::Null => Some(JsonValue::Null),
        SerdeNode::Bool(b) => Some(JsonValue::Bool(b)),
        SerdeNode::Number(n) => Some(JsonValue::Number(n)),
        SerdeNode::Str(s) => Some(JsonValue::Str(s)),
        SerdeNode::Array(items) => {
            let mut out: Vec<JsonValue> = Vec::new();
            let mut i: usize = 0;
            while i < items.len()
                invariant
                    i <= items@.len(),
                    depth > 0,
                decreases items@.len() - i,
            {
                match from_serde_bounded(&items[i], depth - 1) {
                    Some(c) => out.push(c),
                    None => return None,
                }
                i = i + 1;
            }
            Some(JsonValue::Array(out))
        },
        SerdeNode::Object(members) => {
            let mut out: Vec<(String, JsonValue)> = Vec::new();
            let mut i: usize = 0;
            while i < members.len()
                invariant
                    i <= members@.len(),
                    depth > 0,
                decreases members@.len() - i,
            {
                let key = members[i].0.clone();
                match from_serde_bounded(&members[i].1, depth - 1) {
                    Some(c) => out.push((key, c)),
                    None => return None,
                }
                i = i + 1;
            }
            Some(JsonValue::Object(out))
        },
    }
}

/// Converts a serde_json value into a `JsonValue`; `None` only for a value
/// nested deeper than `MAX_DEPTH`.
pub fn from_serde(v: &serde_json::Value) -> (r: Option<JsonValue>) {
    from_serde_bounded(v, MAX_DEPTH)
}

/// Relies on serde_json::from_str: parses a JSON text, `None` where it is not JSON.
#[verifier::external_body]
pub(crate) fn parse_json(s: &str) -> (r: Option<JsonValue>)
    ensures
        r == parsed_json(s@),
{
    serde_json::from_str::<serde_json::Value>(s).ok().and_then(|v| from_serde(&v))
}

} // verus!
