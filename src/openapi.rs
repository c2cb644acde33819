//! The OpenAPI 3.0 document that the conversion builds. The tables of paths,
//! operations and responses are `IndexMap`s, which keep insertion order; the
//! smaller maps are vectors of (key, value) pairs with unique keys.

use vstd::prelude::*;
use indexmap::IndexMap;
use crate::json::JsonValue;

verus! {

#[derive(Debug)]
pub struct OpenAPISpec {
    pub openapi: String,
    pub info: OpenAPIInfo,
    /// Path template to its operations, keyed by lowercase method.
    pub paths: IndexMap<String, IndexMap<String, Operation>>,
    pub components: Components,
    pub tags: Vec<Tag>,
}

#[derive(Debug)]
pub struct OpenAPIInfo {
    pub title: String,
    pub description: String,
    pub version: String,
}

#[derive(Debug)]
pub struct Components {
    pub schemas: IndexMap<String, JsonValue>,
}

#[derive(Debug)]
pub struct Tag {
    pub name: String,
}

#[derive(Debug)]
pub struct Operation {
    pub summary: String,
    pub description: String,
    pub parameters: Vec<Parameter>,
    pub request_body: Option<RequestBody>,
    /// Status code to response, in the order the codes first appeared.
    pub responses: IndexMap<String, OpenAPIResponse>,
    pub tags: Vec<String>,
}

#[derive(Debug)]
pub struct Parameter {
    pub name: String,
    pub param_in: String,
    pub schema: Schema,
    pub description: Option<String>,
    pub required: Option<bool>,
}

#[derive(Debug)]
pub struct Schema {
    pub schema_type: String,
    pub properties: Option<Vec<(String, Schema)>>,
    pub required: Option<Vec<String>>,
    pub items: Option<Box<Schema>>,
}

#[derive(Debug)]
pub struct RequestBody {
    /// Media type to content.
    pub content: Vec<(String, Content)>,
    pub required: bool,
}

#[derive(Debug)]
pub struct Content {
    pub schema: Schema,
    pub example: Option<JsonValue>,
    /// Example name to example.
    pub examples: Option<Vec<(String, Example)>>,
}

#[derive(Debug)]
pub struct Example {
    pub value: JsonValue,
    pub summary: String,
}

#[derive(Debug)]
pub struct OpenAPIResponse {
    pub description: String,
    /// Media type to content.
    pub content: Vec<(String, Content)>,
}

#[verifier::external_type_specification]
#[verifier::external_body]
#[verifier::reject_recursive_types(K)]
#[verifier::reject_recursive_types(V)]
#[verifier::reject_recursive_types(S)]
pub struct ExIndexMap<K, V, S>(IndexMap<K, V, S>);

/// The entries of a table of paths, in order.
pub uninterp spec fn path_entries(m: IndexMap<String, IndexMap<String, Operation>>) -> Seq<
    (String, IndexMap<String, Operation>),
>;

/// The entries of a table of operations, in order.
pub uninterp spec fn operation_entries(m: IndexMap<String, Operation>) -> Seq<(String, Operation)>;

/// The entries of a table of responses, in order.
pub uninterp spec fn response_entries(m: IndexMap<String, OpenAPIResponse>) -> Seq<
    (String, OpenAPIResponse),
>;

/// The entries of a table of named schemas, in order.
pub uninterp spec fn schema_entries(m: IndexMap<String, JsonValue>) -> Seq<(String, JsonValue)>;

/// Relies on IndexMap's FromIterator, which inserts the pairs in turn: with
/// distinct keys the map holds them in the order given.
#[verifier::external_body]
pub(crate) fn paths_table(v: Vec<(String, IndexMap<String, Operation>)>) -> (r: IndexMap<
    String,
    IndexMap<String, Operation>,
>)
    requires
        keys_unique(v@),
    ensures
        path_entries(r) == v@,
{
    v.into_iter().collect()
}

/// Relies on IndexMap's FromIterator, which inserts the pairs in turn: with
/// distinct keys the map holds them in the order given.
#[verifier::external_body]
pub(crate) fn operations_table(v: Vec<(String, Operation)>) -> (r: IndexMap<String, Operation>)
    requires
        keys_unique(v@),
    ensures
        operation_entries(r) == v@,
{
    v.into_iter().collect()
}

/// Relies on IndexMap::new: a map with no entries.
#[verifier::external_body]
pub(crate) fn responses_new() -> (r: IndexMap<String, OpenAPIResponse>)
    ensures
        response_entries(r) == Seq::<(String, OpenAPIResponse)>::empty(),
{
    IndexMap::new()
}

/// Relies on IndexMap::len: the number of entries.
#[verifier::external_body]
pub(crate) fn responses_len(m: &IndexMap<String, OpenAPIResponse>) -> (r: usize)
    ensures
        r == response_entries(*m).len(),
{
    m.len()
}

/// Relies on IndexMap::get_index_of: the position of the entry with the key.
#[verifier::external_body]
pub(crate) fn responses_index_of(m: &IndexMap<String, OpenAPIResponse>, key: &String) -> (r: Option<
    usize,
>)
    ensures
        match r {
            Some(j) => j < response_entries(*m).len() && response_entries(*m)[j as int].0@ == key@,
            None => !keys_of(response_entries(*m)).contains(key@),
        },
{
    m.get_index_of(key)
}

/// Relies on IndexMap::insert: a key not yet present goes last in order.
#[verifier::external_body]
pub(crate) fn responses_insert(m: &mut IndexMap<String, OpenAPIResponse>, key: String, value: OpenAPIResponse)
    requires
        !keys_of(response_entries(*old(m))).contains(key@),
    ensures
        response_entries(*final(m)) == response_entries(*old(m)).push((key, value)),
{
    m.insert(key, value);
}

/// Relies on IndexMap::shift_remove_index: removes the entry at a position,
/// shifting the later ones down.
#[verifier::external_body]
pub(crate) fn responses_shift_remove_index(m: &mut IndexMap<String, OpenAPIResponse>, index: usize) -> (r:
    Option<(String, OpenAPIResponse)>)
    requires
        index < response_entries(*old(m)).len(),
    ensures
        r == Some(response_entries(*old(m))[index as int]),
        response_entries(*final(m)) == response_entries(*old(m)).remove(index as int),
{
    m.shift_remove_index(index)
}

/// Relies on IndexMap::shift_insert: a key not yet present is inserted at the
/// position, shifting the later entries up.
#[verifier::external_body]
pub(crate) fn responses_shift_insert(
    m: &mut IndexMap<String, OpenAPIResponse>,
    index: usize,
    key: String,
    value: OpenAPIResponse,
)
    requires
        index <= response_entries(*old(m)).len(),
        !keys_of(response_entries(*old(m))).contains(key@),
    ensures
        response_entries(*final(m)) == response_entries(*old(m)).insert(index as int, (key, value)),
{
    m.shift_insert(index, key, value);
}

/// Relies on IndexMap::new: a map with no entries.
#[verifier::external_body]
pub(crate) fn empty_schemas() -> (r: IndexMap<String, JsonValue>)
    ensures
        schema_entries(r) == Seq::<(String, JsonValue)>::empty(),
{
    IndexMap::new()
}

/// The keys of an association list.
pub open spec fn keys_of<V>(m: Seq<(String, V)>) -> Seq<Seq<char>> {
    m.map_values(|e: (String, V)| e.0@)
}

/// No key of the association list occurs twice.
pub open spec fn keys_unique<V>(m: Seq<(String, V)>) -> bool {
    forall|i: int, j: int|
        0 <= i < m.len() && 0 <= j < m.len() && i != j ==> #[trigger] m[i].0@ != #[trigger] m[j].0@
}

impl Schema {
    /// A schema of the given type with no properties, required list or items.
    pub open spec fn is_plain(&self, ty: Seq<char>) -> bool {
        &&& self.schema_type@ == ty
        &&& self.properties is None
        &&& self.required is None
        &&& self.items is None
    }

    pub fn plain(ty: &str) -> (r: Schema)
        ensures
            r.is_plain(ty@),
    {
        Schema { schema_type: String::from_str(ty), properties: None, required: None, items: None }
    }
}

} // verus!
