//! Schema inference from one example value.

use vstd::prelude::*;
use crate::json::JsonValue;
use crate::openapi::Schema;

verus! {

broadcast use vstd::std_specs::vec::group_vec_axioms;

/// The type names a schema can carry.
pub open spec fn is_schema_type(t: Seq<char>) -> bool {
    t == "string"@ || t == "number"@ || t == "boolean"@ || t == "object"@ || t == "array"@
}

/// Keys of the members whose value is not null, in member order.
pub open spec fn non_null_keys(members: Seq<(String, JsonValue)>) -> Seq<Seq<char>>
    decreases members.len(),
{
    if members.len() == 0 {
        Seq::empty()
    } else {
        let rest = non_null_keys(members.drop_last());
        if members.last().1.is_null() {
            rest
        } else {
            rest.push(members.last().0@)
        }
    }
}

/// The required list of an object schema: absent when no key is required.
pub open spec fn required_of(req: Option<Vec<String>>, members: Seq<(String, JsonValue)>) -> bool {
    if non_null_keys(members).len() == 0 {
        req is None
    } else {
        req is Some && req->0@.map_values(|k: String| k@) == non_null_keys(members)
    }
}

/// `s` is the schema inferred from `v`: objects give an object schema with
/// one property per member and the non-null members required; arrays give an
/// array schema whose items come from the first element (an empty object
/// schema for an empty array); booleans, numbers and strings give their own
/// type; null gives a string schema.
pub open spec fn schema_of(s: Schema, v: JsonValue) -> bool
    decreases v,
{
    match v {
        JsonValue::Object(members) => {
            &&& s.schema_type@ == "object"@
            &&& s.items is None
            &&& required_of(s.required, members@)
            &&& s.properties is Some
            &&& s.properties->0@.len() == members@.len()
            &&& forall|i: int|
                0 <= i < members@.len() ==> {
                    &&& (#[trigger] s.properties->0@[i]).0@ == members@[i].0@
                    &&& schema_of(s.properties->0@[i].1, members@[i].1)
                }
        },
        JsonValue::Array(elems) => {
            &&& s.schema_type@ == "array"@
            &&& s.properties is None
            &&& s.required is None
            &&& s.items is Some
            &&& if elems@.len() == 0 {
                (*s.items->0).is_plain("object"@)
            } else {
                schema_of(*s.items->0, elems@[0])
            }
        },
        JsonValue::Bool(_) => s.is_plain("boolean"@),
        JsonValue::Number(_) => s.is_plain("number"@),
        JsonValue::Str(_) => s.is_plain("string"@),
        JsonValue::Null => s.is_plain("string"@),
    }
}

/// Infers a schema describing the shape of `data`. Total: every value gets one.
pub fn infer_schema(data: &JsonValue) -> (r: Schema)
    ensures
        schema_of(r, *data),
        is_schema_type(r.schema_type@),
    decreases data,
{
    match data {
        JsonValue::Object(members) => {
            let mut properties: Vec<(String, Schema)> = Vec::new();
            let mut required: Vec<String> = Vec::new();
            let mut i: usize = 0;
            while i < members.len()
                invariant
                    i <= members@.len(),
                    *data == JsonValue::Object(*members),
                    properties@.len() == i,
                    forall|k: int|
                        0 <= k < i ==> {
                            &&& (#[trigger] properties@[k]).0@ == members@[k].0@
                            &&& schema_of(properties@[k].1, members@[k].1)
                        },
                    required@.map_values(|k: String| k@) == non_null_keys(members@.take(i as int)),
                decreases members@.len() - i,
            {
                proof {
                    assert(data->Object_0 == *members);
                    assert(decreases_to!(*data => data->Object_0));
                    assert(decreases_to!(members => members[i as int]));
                    assert(decreases_to!(members[i as int] => members[i as int].1));
                    assert(decreases_to!(*data => members[i as int].1));
                }
                let key = members[i].0.clone();
                let child = infer_schema(&members[i].1);
                properties.push((key, child));
                let is_null = match &members[i].1 {
                    JsonValue::Null => true,
                    _ => false,
                };
                proof {
                    assert(members@.take(i + 1).drop_last() =~= members@.take(i as int));
                }
                if !is_null {
                    let k2 = members[i].0.clone();
                    required.push(k2);
                }
                assert(required@.map_values(|k: String| k@) =~= non_null_keys(members@.take(i + 1)));
                i = i + 1;
            }
            assert(members@.take(i as int) =~= members@);
            let required = if required.len() == 0 {
                None
            } else {
                Some(required)
            };
            Schema {
                schema_type: String::from_str("object"),
                properties: Some(properties),
                required,
                items: None,
            }
        },
        JsonValue::Array(elems) => {
            let item = if elems.len() > 0 {
                infer_schema(&elems[0])
            } else {
                Schema::plain("object")
            };
            Schema {
                schema_type: String::from_str("array"),
                properties: None,
                required: None,
                items: Some(Box::new(item)),
            }
        },
        JsonValue::Bool(_) => Schema::plain("boolean"),
        JsonValue::Number(_) => Schema::plain("number"),
        JsonValue::Str(_) => Schema::plain("string"),
        JsonValue::Null => Schema::plain("string"),
    }
}

} // verus!
