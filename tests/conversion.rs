use postman_to_swagger::convert_postman_to_openapi;
use postman_to_swagger::json::JsonValue;
use postman_to_swagger::openapi::{OpenAPISpec, Operation};
use postman_to_swagger::postman::{
    Body, Header, Info, Item, PostmanCollection, Query, Request, Response, Url, Variable,
};

fn text(s: &str) -> Option<String> {
    Some(s.to_string())
}

fn segs(parts: &[&str]) -> Option<Vec<JsonValue>> {
    Some(parts.iter().map(|p| JsonValue::Str(p.to_string())).collect())
}

fn header(key: &str, value: &str) -> Header {
    Header { key: text(key), value: text(value), description: None, disabled: None }
}

fn request(method: &str, path: Option<Vec<JsonValue>>) -> Request {
    Request {
        method: text(method),
        url: Some(Url { path, variable: None, query: None }),
        header: None,
        body: None,
        description: None,
    }
}

fn leaf(name: &str, req: Request, responses: Option<Vec<Response>>) -> Item {
    Item { name: text(name), item: None, request: Some(req), response: responses }
}

fn folder(name: &str, items: Vec<Item>) -> Item {
    Item { name: text(name), item: Some(items), request: None, response: None }
}

fn collection(items: Vec<Item>) -> PostmanCollection {
    PostmanCollection { info: Some(Info { name: text("Demo"), description: None }), item: Some(items) }
}

fn sample(name: Option<&str>, code: Option<u32>, body: Option<&str>) -> Response {
    Response { name: name.map(|n| n.to_string()), code, header: None, body: body.map(|b| b.to_string()) }
}

fn operation<'a>(spec: &'a OpenAPISpec, path: &str, method: &str) -> &'a Operation {
    spec.paths.get(path).expect("path present").get(method).expect("method present")
}

fn tag_names(spec: &OpenAPISpec) -> Vec<String> {
    spec.tags.iter().map(|t| t.name.clone()).collect()
}

#[test]
fn get_request_never_gets_a_body() {
    let mut req = request("GET", segs(&["items"]));
    req.body = Some(Body { mode: text("raw"), raw: text("{\"x\":1}") });
    let spec = convert_postman_to_openapi(&collection(vec![leaf("List", req, None)]));
    assert!(operation(&spec, "/items", "get").request_body.is_none());
}

#[test]
fn delete_request_never_gets_a_body() {
    let mut req = request("DELETE", segs(&["items"]));
    req.body = Some(Body { mode: text("raw"), raw: text("{\"x\":1}") });
    let spec = convert_postman_to_openapi(&collection(vec![leaf("Remove", req, None)]));
    assert!(operation(&spec, "/items", "delete").request_body.is_none());
}

#[test]
fn post_json_body_gets_inferred_schema_and_example() {
    let mut req = request("POST", segs(&["items"]));
    req.header = Some(vec![header("Content-Type", "application/json")]);
    req.body = Some(Body { mode: text("raw"), raw: text("{\"x\":1}") });
    let spec = convert_postman_to_openapi(&collection(vec![leaf("Create", req, None)]));
    let op = operation(&spec, "/items", "post");
    let body = op.request_body.as_ref().expect("body present");
    assert!(body.required);
    assert_eq!(body.content.len(), 1);
    let (ct, content) = &body.content[0];
    assert_eq!(ct, "application/json");
    assert_eq!(content.schema.schema_type, "object");
    let props = content.schema.properties.as_ref().unwrap();
    assert_eq!(props.len(), 1);
    assert_eq!(props[0].0, "x");
    assert_eq!(props[0].1.schema_type, "number");
    assert_eq!(content.schema.required, Some(vec!["x".to_string()]));
    assert_eq!(
        content.example,
        Some(JsonValue::Object(vec![("x".to_string(), JsonValue::Number("1".to_string()))]))
    );
    assert!(content.examples.is_none());
    // the content-type header is not a parameter
    assert!(op.parameters.is_empty());
}

#[test]
fn unparsable_json_body_is_omitted() {
    let mut req = request("PUT", segs(&["items"]));
    req.body = Some(Body { mode: text("raw"), raw: text("{not json") });
    let spec = convert_postman_to_openapi(&collection(vec![leaf("Replace", req, None)]));
    assert!(operation(&spec, "/items", "put").request_body.is_none());
}

#[test]
fn non_raw_body_is_omitted() {
    let mut req = request("POST", segs(&["items"]));
    req.body = Some(Body { mode: text("formdata"), raw: text("{}") });
    let spec = convert_postman_to_openapi(&collection(vec![leaf("Create", req, None)]));
    assert!(operation(&spec, "/items", "post").request_body.is_none());
}

#[test]
fn text_body_becomes_string_schema() {
    let mut req = request("POST", segs(&["notes"]));
    req.header = Some(vec![header("content-type", "text/plain")]);
    req.body = Some(Body { mode: text("raw"), raw: text("hello") });
    let spec = convert_postman_to_openapi(&collection(vec![leaf("Note", req, None)]));
    let body = operation(&spec, "/notes", "post").request_body.as_ref().unwrap();
    assert_eq!(body.content[0].0, "text/plain");
    assert_eq!(body.content[0].1.schema.schema_type, "string");
    assert_eq!(body.content[0].1.example, Some(JsonValue::Str("hello".to_string())));
}

#[test]
fn same_status_code_merges_examples() {
    let responses = vec![
        sample(Some("First Case"), Some(200), Some("{\"a\":1}")),
        sample(Some("Second Case"), Some(200), Some("{\"a\":2}")),
    ];
    let spec = convert_postman_to_openapi(&collection(vec![leaf(
        "Get",
        request("GET", segs(&["things"])),
        Some(responses),
    )]));
    let op = operation(&spec, "/things", "get");
    assert_eq!(op.responses.len(), 1);
    let (code, resp) = op.responses.get_index(0).unwrap();
    assert_eq!(code, "200");
    assert_eq!(resp.description, "First Case");
    let examples = resp.content[0].1.examples.as_ref().unwrap();
    let keys: Vec<&str> = examples.iter().map(|(k, _)| k.as_str()).collect();
    assert_eq!(keys, vec!["first_case", "second_case"]);
    assert_eq!(examples[1].1.summary, "Second Case");
}

#[test]
fn folder_name_tags_operation_and_path_variable_is_templated() {
    let mut req = request("GET", segs(&["users", ":id"]));
    req.url.as_mut().unwrap().variable =
        Some(vec![Variable { key: text("id"), value: text("1") }]);
    let spec = convert_postman_to_openapi(&collection(vec![folder(
        "Users",
        vec![leaf("Get User", req, None)],
    )]));
    let op = operation(&spec, "/users/{id}", "get");
    assert_eq!(op.tags, vec!["Users".to_string()]);
    assert_eq!(op.summary, "Get User");
    assert_eq!(op.parameters.len(), 1);
    let p = &op.parameters[0];
    assert_eq!(p.name, "id");
    assert_eq!(p.param_in, "path");
    assert_eq!(p.required, Some(true));
    assert_eq!(p.schema.schema_type, "string");
    assert!(p.description.is_none());
}

#[test]
fn no_samples_give_default_ok_response() {
    let spec = convert_postman_to_openapi(&collection(vec![leaf(
        "Ping",
        request("GET", segs(&["ping"])),
        Some(vec![]),
    )]));
    let op = operation(&spec, "/ping", "get");
    assert_eq!(op.responses.len(), 1);
    let (code, resp) = op.responses.get_index(0).unwrap();
    assert_eq!(code, "200");
    assert_eq!(resp.description, "OK");
    assert!(resp.content.is_empty());
}

#[test]
fn tags_are_sorted_and_distinct() {
    let spec = convert_postman_to_openapi(&collection(vec![
        folder("Zeta", vec![leaf("a", request("GET", segs(&["z"])), None)]),
        folder("Alpha", vec![
            leaf("b", request("GET", segs(&["a"])), None),
            folder("Zeta", vec![leaf("c", request("GET", segs(&["az"])), None)]),
        ]),
        folder("Mid", vec![leaf("d", request("GET", segs(&["m"])), None)]),
    ]));
    assert_eq!(tag_names(&spec), vec!["Alpha", "Mid", "Zeta"]);
    assert_eq!(operation(&spec, "/az", "get").tags, vec!["Alpha".to_string(), "Zeta".to_string()]);
}

#[test]
fn status_codes_and_example_names() {
    let responses = vec![
        sample(Some("Not Found"), Some(404), Some("{}")),
        sample(None, None, None),
    ];
    let spec = convert_postman_to_openapi(&collection(vec![leaf(
        "Get",
        request("GET", segs(&["x"])),
        Some(responses),
    )]));
    let op = operation(&spec, "/x", "get");
    let codes: Vec<&str> = op.responses.iter().map(|(c, _)| c.as_str()).collect();
    assert_eq!(codes, vec!["404", "200"]);
    let nf = op.responses.get_index(0).unwrap().1;
    assert_eq!(nf.description, "Not Found");
    let ex = nf.content[0].1.examples.as_ref().unwrap();
    assert_eq!(ex[0].0, "not_found");
    assert_eq!(ex[0].1.summary, "Not Found");
    let unnamed = op.responses.get_index(1).unwrap().1;
    assert_eq!(unnamed.description, "Response");
    assert_eq!(unnamed.content[0].0, "application/json");
    let ex = unnamed.content[0].1.examples.as_ref().unwrap();
    assert_eq!(ex[0].0, "example");
    assert_eq!(ex[0].1.summary, "Example response");
    assert_eq!(ex[0].1.value, JsonValue::Object(vec![]));
}

#[test]
fn unparsable_response_body_falls_back_to_string() {
    let responses = vec![sample(Some("Bad"), Some(500), Some("oops"))];
    let spec = convert_postman_to_openapi(&collection(vec![leaf(
        "Get",
        request("GET", segs(&["x"])),
        Some(responses),
    )]));
    let resp = operation(&spec, "/x", "get").responses.get_index(0).unwrap().1;
    let content = &resp.content[0].1;
    assert_eq!(content.schema.schema_type, "string");
    assert_eq!(content.examples.as_ref().unwrap()[0].1.value, JsonValue::Str("oops".to_string()));
}

#[test]
fn new_media_type_under_repeated_code_is_dropped() {
    let mut second = sample(Some("Plain"), Some(200), Some("text"));
    second.header = Some(vec![header("Content-Type", "text/plain")]);
    let responses = vec![sample(Some("Json"), Some(200), Some("{}")), second];
    let spec = convert_postman_to_openapi(&collection(vec![leaf(
        "Get",
        request("GET", segs(&["x"])),
        Some(responses),
    )]));
    let resp = operation(&spec, "/x", "get").responses.get_index(0).unwrap().1;
    assert_eq!(resp.content.len(), 1);
    assert_eq!(resp.content[0].0, "application/json");
    assert_eq!(resp.content[0].1.examples.as_ref().unwrap().len(), 1);
}

#[test]
fn query_and_header_parameters() {
    let mut req = request("GET", segs(&["search"]));
    req.url.as_mut().unwrap().query = Some(vec![
        Query { key: text("q"), value: text("x"), description: text("terms"), disabled: None },
        Query { key: text("page"), value: None, description: None, disabled: Some(true) },
        Query { key: None, value: text("ignored"), description: None, disabled: None },
    ]);
    req.header = Some(vec![
        header("CONTENT-TYPE", "application/json"),
        Header { key: text("X-Token"), value: text("t"), description: text("auth"), disabled: Some(false) },
    ]);
    let spec = convert_postman_to_openapi(&collection(vec![leaf("Search", req, None)]));
    let ps = &operation(&spec, "/search", "get").parameters;
    assert_eq!(ps.len(), 3);
    assert_eq!((ps[0].name.as_str(), ps[0].param_in.as_str()), ("q", "query"));
    assert_eq!(ps[0].description, text("terms"));
    assert_eq!(ps[0].required, Some(true));
    assert_eq!((ps[1].name.as_str(), ps[1].required), ("page", Some(false)));
    assert_eq!((ps[2].name.as_str(), ps[2].param_in.as_str()), ("X-Token", "header"));
    assert_eq!(ps[2].required, Some(true));
}

#[test]
fn path_segments_in_every_form() {
    let path = Some(vec![
        JsonValue::Str("".to_string()),
        JsonValue::Str("api".to_string()),
        JsonValue::Object(vec![("value".to_string(), JsonValue::Str("org".to_string()))]),
        JsonValue::Number("3".to_string()),
        JsonValue::Str(":item".to_string()),
    ]);
    let spec = convert_postman_to_openapi(&collection(vec![leaf("Get", request("GET", path), None)]));
    operation(&spec, "/api/{org}/{item}", "get");
}

#[test]
fn empty_path_is_root() {
    let spec = convert_postman_to_openapi(&collection(vec![leaf("Root", request("GET", None), None)]));
    operation(&spec, "/", "get");
}

#[test]
fn method_is_lowercased_and_defaults_to_get() {
    let mut req = request("PATCH", segs(&["a"]));
    let mut other = request("GET", segs(&["a"]));
    other.method = None;
    req.body = None;
    let spec = convert_postman_to_openapi(&collection(vec![leaf("P", req, None), leaf("G", other, None)]));
    assert_eq!(spec.paths.len(), 1);
    let methods: Vec<&str> = spec.paths.get_index(0).unwrap().1.iter().map(|(m, _)| m.as_str()).collect();
    assert_eq!(methods, vec!["patch", "get"]);
}

#[test]
fn last_operation_for_a_method_wins() {
    let spec = convert_postman_to_openapi(&collection(vec![
        leaf("First", request("GET", segs(&["a"])), None),
        leaf("Second", request("GET", segs(&["a"])), None),
    ]));
    assert_eq!(spec.paths.get_index(0).unwrap().1.len(), 1);
    assert_eq!(operation(&spec, "/a", "get").summary, "Second");
}

#[test]
fn items_without_request_or_url_are_skipped() {
    let mut no_url = request("GET", None);
    no_url.url = None;
    let spec = convert_postman_to_openapi(&collection(vec![
        Item { name: text("Empty"), item: None, request: None, response: None },
        folder("Hidden", vec![leaf("NoUrl", no_url, None)]),
    ]));
    assert!(spec.paths.is_empty());
    assert!(spec.tags.is_empty());
}

#[test]
fn document_header_fields() {
    let spec = convert_postman_to_openapi(&PostmanCollection { info: None, item: None });
    assert_eq!(spec.openapi, "3.0.0");
    assert_eq!(spec.info.title, "API Documentation");
    assert_eq!(spec.info.description, "");
    assert_eq!(spec.info.version, "1.0.0");
    assert!(spec.components.schemas.is_empty());
    let named = convert_postman_to_openapi(&PostmanCollection {
        info: Some(Info { name: text("Shop"), description: text("All of it") }),
        item: Some(vec![]),
    });
    assert_eq!(named.info.title, "Shop");
    assert_eq!(named.info.description, "All of it");
}

#[test]
fn json_from_serde_keeps_structure() {
    let v: serde_json::Value = serde_json::from_str("{\"a\":[1,true,null],\"b\":\"s\"}").unwrap();
    let j = postman_to_swagger::json::from_serde(&v).unwrap();
    assert_eq!(
        j,
        JsonValue::Object(vec![
            (
                "a".to_string(),
                JsonValue::Array(vec![
                    JsonValue::Number("1".to_string()),
                    JsonValue::Bool(true),
                    JsonValue::Null
                ])
            ),
            ("b".to_string(), JsonValue::Str("s".to_string())),
        ])
    );
}

#[test]
fn request_with_empty_nested_list_is_a_request() {
    let mut item = leaf("Lone", request("GET", segs(&["lone"])), None);
    item.item = Some(vec![]);
    let spec = convert_postman_to_openapi(&collection(vec![item]));
    assert_eq!(operation(&spec, "/lone", "get").summary, "Lone");
}

#[test]
fn content_type_header_without_value_defaults_to_json() {
    let mut req = request("POST", segs(&["p"]));
    req.header = Some(vec![
        Header { key: text("Content-Type"), value: None, description: None, disabled: None },
        header("content-type", "text/plain"),
    ]);
    req.body = Some(Body { mode: text("raw"), raw: text("[true]") });
    let spec = convert_postman_to_openapi(&collection(vec![leaf("P", req, None)]));
    let body = operation(&spec, "/p", "post").request_body.as_ref().unwrap();
    assert_eq!(body.content[0].0, "application/json");
    assert_eq!(body.content[0].1.schema.schema_type, "array");
    assert_eq!(body.content[0].1.schema.items.as_ref().unwrap().schema_type, "boolean");
}

#[test]
fn absent_raw_text_is_an_empty_object() {
    let mut req = request("POST", segs(&["e"]));
    req.body = Some(Body { mode: text("raw"), raw: None });
    let spec = convert_postman_to_openapi(&collection(vec![leaf("E", req, None)]));
    let body = operation(&spec, "/e", "post").request_body.as_ref().unwrap();
    assert_eq!(body.content[0].1.schema.schema_type, "object");
    assert_eq!(body.content[0].1.example, Some(JsonValue::Object(vec![])));
}

#[test]
fn unnamed_folder_adds_no_tag() {
    let spec = convert_postman_to_openapi(&collection(vec![Item {
        name: None,
        item: Some(vec![leaf("x", request("GET", segs(&["x"])), None)]),
        request: None,
        response: None,
    }]));
    assert!(operation(&spec, "/x", "get").tags.is_empty());
    assert!(spec.tags.is_empty());
}

#[test]
fn newer_example_with_same_name_wins() {
    let responses = vec![
        sample(Some("Same"), Some(200), Some("{\"v\":1}")),
        sample(Some("Same"), Some(200), Some("{\"v\":2}")),
    ];
    let spec = convert_postman_to_openapi(&collection(vec![leaf(
        "Get",
        request("GET", segs(&["n"])),
        Some(responses),
    )]));
    let resp = operation(&spec, "/n", "get").responses.get_index(0).unwrap().1;
    let examples = resp.content[0].1.examples.as_ref().unwrap();
    assert_eq!(examples.len(), 1);
    assert_eq!(
        examples[0].1.value,
        JsonValue::Object(vec![("v".to_string(), JsonValue::Number("2".to_string()))])
    );
}

#[test]
fn paths_keep_first_seen_order() {
    let spec = convert_postman_to_openapi(&collection(vec![
        leaf("b", request("GET", segs(&["b"])), None),
        leaf("a", request("GET", segs(&["a"])), None),
        leaf("b2", request("POST", segs(&["b"])), None),
    ]));
    let keys: Vec<&str> = spec.paths.keys().map(|k| k.as_str()).collect();
    assert_eq!(keys, vec!["/b", "/a"]);
}
