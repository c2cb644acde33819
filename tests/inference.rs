use postman_to_swagger::infer_schema;
use postman_to_swagger::json::JsonValue;
use postman_to_swagger::openapi::Schema;

fn num(n: &str) -> JsonValue {
    JsonValue::Number(n.to_string())
}

fn obj(members: Vec<(&str, JsonValue)>) -> JsonValue {
    JsonValue::Object(members.into_iter().map(|(k, v)| (k.to_string(), v)).collect())
}

fn property<'a>(s: &'a Schema, key: &str) -> &'a Schema {
    let props = s.properties.as_ref().expect("object schema has properties");
    &props.iter().find(|(k, _)| k == key).expect("property present").1
}

#[test]
fn object_with_null_member() {
    let s = infer_schema(&obj(vec![("a", num("1")), ("b", JsonValue::Null)]));
    assert_eq!(s.schema_type, "object");
    assert_eq!(property(&s, "a").schema_type, "number");
    assert_eq!(property(&s, "b").schema_type, "string");
    assert_eq!(s.required, Some(vec!["a".to_string()]));
    assert!(s.items.is_none());
}

#[test]
fn object_with_only_null_members_has_no_required_list() {
    let s = infer_schema(&obj(vec![("x", JsonValue::Null)]));
    assert_eq!(s.schema_type, "object");
    assert!(s.required.is_none());
    assert_eq!(s.properties.as_ref().unwrap().len(), 1);
}

#[test]
fn empty_object_keeps_empty_properties() {
    let s = infer_schema(&obj(vec![]));
    assert_eq!(s.schema_type, "object");
    assert_eq!(s.properties.as_ref().unwrap().len(), 0);
    assert!(s.required.is_none());
}

#[test]
fn empty_array_items_are_empty_object() {
    let s = infer_schema(&JsonValue::Array(vec![]));
    assert_eq!(s.schema_type, "array");
    let items = s.items.as_ref().unwrap();
    assert_eq!(items.schema_type, "object");
    assert!(items.properties.is_none());
    assert!(items.required.is_none());
    assert!(items.items.is_none());
}

#[test]
fn number_array_items_are_number() {
    let s = infer_schema(&JsonValue::Array(vec![num("1"), num("2"), num("3")]));
    assert_eq!(s.schema_type, "array");
    assert_eq!(s.items.as_ref().unwrap().schema_type, "number");
}

#[test]
fn mixed_array_follows_first_element() {
    let s = infer_schema(&JsonValue::Array(vec![JsonValue::Bool(true), num("2")]));
    assert_eq!(s.items.as_ref().unwrap().schema_type, "boolean");
}

#[test]
fn every_kind_of_value_gets_a_schema() {
    let values = vec![
        JsonValue::Null,
        JsonValue::Bool(false),
        num("2.5"),
        JsonValue::Str("hi".to_string()),
        JsonValue::Array(vec![JsonValue::Null]),
        obj(vec![("k", JsonValue::Array(vec![]))]),
    ];
    let expected = ["string", "boolean", "number", "string", "array", "object"];
    for (v, e) in values.iter().zip(expected.iter()) {
        let s = infer_schema(v);
        assert_eq!(s.schema_type, *e);
    }
}

#[test]
fn nested_objects_are_inferred_recursively() {
    let inner = obj(vec![("id", num("7")), ("tags", JsonValue::Array(vec![JsonValue::Str("x".to_string())]))]);
    let s = infer_schema(&obj(vec![("user", inner)]));
    let user = property(&s, "user");
    assert_eq!(user.schema_type, "object");
    assert_eq!(property(user, "id").schema_type, "number");
    let tags = property(user, "tags");
    assert_eq!(tags.schema_type, "array");
    assert_eq!(tags.items.as_ref().unwrap().schema_type, "string");
    assert_eq!(user.required, Some(vec!["id".to_string(), "tags".to_string()]));
}
