//! The request side of an operation: media type, path template,
//! parameters and request body.

use vstd::prelude::*;
use vstd::string::*;
use crate::json::{JsonValue, parse_json, parsed_json};
use crate::openapi::{Content, Parameter, RequestBody, Schema};
use crate::postman::{Header, Query, Request, Url, Variable, list_of, opt_text};
use crate::schema::{infer_schema, schema_of};
use crate::text::{lower_of, lowercase};

verus! {

broadcast use vstd::std_specs::vec::group_vec_axioms;

// ---------------------------------------------------------------- content type

pub open spec fn is_content_type_header(h: Header) -> bool {
    h.key is Some && lower_of(h.key->0@) == "content-type"@
}

/// The value of the first header named content-type (in any case), or
/// `application/json` where there is none or it has no value.
pub open spec fn content_type_of(hs: Seq<Header>) -> Seq<char>
    decreases hs.len(),
{
    if hs.len() == 0 {
        "application/json"@
    } else if is_content_type_header(hs[0]) {
        match hs[0].value {
            Some(v) => v@,
            None => "application/json"@,
        }
    } else {
        content_type_of(hs.drop_first())
    }
}

pub(crate) fn is_content_type_key(key: &String) -> (r: bool)
    ensures
        r == (lower_of(key@) == "content-type"@),
{
    let lower = lowercase(key.as_str());
    lower == String::from_str("content-type")
}

/// Resolves the media type that a header list declares.
pub fn header_content_type(headers: &Option<Vec<Header>>) -> (r: String)
    ensures
        r@ == content_type_of(list_of(*headers)),
{
    match headers {
        None => String::from_str("application/json"),
        Some(hs) => {
            assert(hs@.subrange(0, hs@.len() as int) =~= hs@);
            let mut i: usize = 0;
            while i < hs.len()
                invariant
                    i <= hs@.len(),
                    *headers == Some(*hs),
                    content_type_of(hs@) == content_type_of(hs@.subrange(i as int, hs@.len() as int)),
                decreases hs@.len() - i,
            {
                assert(hs@.subrange(i as int, hs@.len() as int).drop_first()
                    =~= hs@.subrange(i + 1, hs@.len() as int));
                let found = match &hs[i].key {
                    Some(k) => is_content_type_key(k),
                    None => false,
                };
                assert(hs@.subrange(i as int, hs@.len() as int)[0] == hs@[i as int]);
                assert(found == is_content_type_header(hs@[i as int]));
                if found {
                    let r = match &hs[i].value {
                        Some(v) => v.clone(),
                        None => String::from_str("application/json"),
                    };
                    assert(r@ == content_type_of(hs@.subrange(i as int, hs@.len() as int)));
                    return r;
                }
                i = i + 1;
            }
            String::from_str("application/json")
        },
    }
}

/// An optional text, or a default where it is absent.
pub open spec fn text_or(s: Option<Seq<char>>, default: Seq<char>) -> Seq<char> {
    match s {
        Some(t) => t,
        None => default,
    }
}

pub(crate) fn text_or_default(s: &Option<String>, default: &str) -> (r: String)
    ensures
        r@ == text_or(opt_text(*s), default@),
{
    match s {
        Some(t) => t.clone(),
        None => String::from_str(default),
    }
}

// ---------------------------------------------------------------- paths

/// `{name}`
pub open spec fn braced(name: Seq<char>) -> Seq<char> {
    seq!['{'] + name + seq!['}']
}

fn braced_text(name: &str) -> (r: String)
    ensures
        r@ == braced(name@),
{
    proof {
        reveal_strlit("{");
        reveal_strlit("}");
    }
    let mut s = String::from_str("{");
    s.append(name);
    s.append("}");
    assert(s@ =~= braced(name@));
    s
}

/// The value of the first member named `key`.
pub open spec fn member(members: Seq<(String, JsonValue)>, key: Seq<char>) -> Option<JsonValue>
    decreases members.len(),
{
    if members.len() == 0 {
        None
    } else if members[0].0@ == key {
        Some(members[0].1)
    } else {
        member(members.drop_first(), key)
    }
}

/// What one raw path segment contributes: `:name` and `{"value": name}` give
/// `{name}`, another text gives itself, anything else nothing.
pub open spec fn segment_text(v: JsonValue) -> Option<Seq<char>> {
    match v {
        JsonValue::Str(s) => if s@.len() > 0 && s@[0] == ':' {
            Some(braced(s@.drop_first()))
        } else {
            Some(s@)
        },
        JsonValue::Object(members) => match member(members@, "value"@) {
            Some(JsonValue::Str(s)) => Some(braced(s@)),
            _ => None,
        },
        _ => None,
    }
}

/// The texts of the segments that contribute one.
pub open spec fn segment_texts(segs: Seq<JsonValue>) -> Seq<Seq<char>>
    decreases segs.len(),
{
    if segs.len() == 0 {
        Seq::empty()
    } else {
        let rest = segment_texts(segs.drop_last());
        match segment_text(segs.last()) {
            Some(t) => rest.push(t),
            None => rest,
        }
    }
}

/// The texts joined with `/`.
pub open spec fn join_slash(parts: Seq<Seq<char>>) -> Seq<char>
    decreases parts.len(),
{
    if parts.len() == 0 {
        Seq::empty()
    } else if parts.len() == 1 {
        parts[0]
    } else {
        join_slash(parts.drop_last()) + seq!['/'] + parts.last()
    }
}

/// `s` without its leading slashes.
pub open spec fn trim_leading_slashes(s: Seq<char>) -> Seq<char>
    decreases s.len(),
{
    if s.len() > 0 && s[0] == '/' {
        trim_leading_slashes(s.drop_first())
    } else {
        s
    }
}

/// The path template of a list of raw segments.
pub open spec fn path_of(segs: Seq<JsonValue>) -> Seq<char> {
    seq!['/'] + trim_leading_slashes(join_slash(segment_texts(segs)))
}

pub(crate) fn str_is(s: &String, lit: &str) -> (r: bool)
    ensures
        r == (s@ == lit@),
{
    *s == String::from_str(lit)
}

fn first_member<'a>(members: &'a Vec<(String, JsonValue)>, key: &str) -> (r: Option<&'a JsonValue>)
    ensures
        match r {
            Some(v) => member(members@, key@) == Some(*v),
            None => member(members@, key@) is None,
        },
{
    assert(members@.subrange(0, members@.len() as int) =~= members@);
    let mut i: usize = 0;
    while i < members.len()
        invariant
            i <= members@.len(),
            member(members@, key@) == member(members@.subrange(i as int, members@.len() as int), key@),
        decreases members@.len() - i,
    {
        assert(members@.subrange(i as int, members@.len() as int).drop_first()
            =~= members@.subrange(i + 1, members@.len() as int));
        if str_is(&members[i].0, key) {
            return Some(&members[i].1);
        }
        i = i + 1;
    }
    None
}

/// The text that one raw path segment contributes to the path template.
pub fn path_segment(seg: &JsonValue) -> (r: Option<String>)
    ensures
        opt_text(r) == segment_text(*seg),
{
    match seg {
        JsonValue::Str(s) => {
            let n = s.as_str().unicode_len();
            if n > 0 && s.as_str().get_char(0) == ':' {
                Some(braced_text(s.as_str().substring_char(1, n)))
            } else {
                Some(s.clone())
            }
        },
        JsonValue::Object(members) => match first_member(members, "value") {
            Some(JsonValue::Str(v)) => Some(braced_text(v.as_str())),
            _ => None,
        },
        _ => None,
    }
}

/// Builds the path template: the segment texts joined with `/`, with exactly
/// one leading `/`.
pub fn build_path(segments: &Option<Vec<JsonValue>>) -> (r: String)
    ensures
        r@ == path_of(list_of(*segments)),
        r@.len() > 0 && r@[0] == '/',
{
    let mut joined = String::new();
    let mut count: usize = 0;
    match segments {
        None => {},
        Some(segs) => {
            let mut i: usize = 0;
            while i < segs.len()
                invariant
                    i <= segs@.len(),
                    count <= i,
                    count == segment_texts(segs@.take(i as int)).len(),
                    joined@ == join_slash(segment_texts(segs@.take(i as int))),
                decreases segs@.len() - i,
            {
                assert(segs@.take(i + 1).drop_last() =~= segs@.take(i as int));
                let ghost before = segment_texts(segs@.take(i as int));
                match path_segment(&segs[i]) {
                    Some(t) => {
                        if count > 0 {
                            proof {
                                reveal_strlit("/");
                            }
                            joined.append("/");
                        }
                        joined.append(t.as_str());
                        count = count + 1;
                        assert(before.push(t@).drop_last() =~= before);
                        assert(joined@ =~= join_slash(before.push(t@)));
                    },
                    None => {},
                }
                i = i + 1;
            }
            assert(segs@.take(i as int) =~= segs@);
        },
    }
    let n = joined.as_str().unicode_len();
    assert(joined@.subrange(0, n as int) =~= joined@);
    let mut k: usize = 0;
    while k < n && joined.as_str().get_char(k) == '/'
        invariant
            k <= n,
            n == joined@.len(),
            trim_leading_slashes(joined@) == trim_leading_slashes(joined@.subrange(k as int, n as int)),
        decreases n - k,
    {
        assert(joined@.subrange(k as int, n as int).drop_first() =~= joined@.subrange(k + 1, n as int));
        k = k + 1;
    }
    let rest = joined.as_str().substring_char(k, n);
    proof {
        reveal_strlit("/");
    }
    let mut path = String::from_str("/");
    path.append(rest);
    assert(path@ =~= path_of(list_of(*segments)));
    path
}

// ---------------------------------------------------------------- parameters

/// What one parameter states, as plain values.
pub struct ParamSpec {
    pub name: Seq<char>,
    pub location: Seq<char>,
    pub description: Option<Seq<char>>,
    pub required: bool,
}

/// `p` states `m`, with a string schema.
pub open spec fn param_is(p: Parameter, m: ParamSpec) -> bool {
    &&& p.name@ == m.name
    &&& p.param_in@ == m.location
    &&& p.schema.is_plain("string"@)
    &&& opt_text(p.description) == m.description
    &&& p.required == Some(m.required)
}

pub open spec fn params_match(ps: Seq<Parameter>, ms: Seq<ParamSpec>) -> bool {
    &&& ps.len() == ms.len()
    &&& forall|i: int| 0 <= i < ps.len() ==> param_is(#[trigger] ps[i], ms[i])
}

/// One required path parameter per declared variable with a key.
pub open spec fn path_params(vars: Seq<Variable>) -> Seq<ParamSpec>
    decreases vars.len(),
{
    if vars.len() == 0 {
        Seq::empty()
    } else {
        let rest = path_params(vars.drop_last());
        match vars.last().key {
            Some(k) => rest.push(
                ParamSpec { name: k@, location: "path"@, description: None, required: true },
            ),
            None => rest,
        }
    }
}

/// One query parameter per query entry with a key, required unless disabled.
pub open spec fn query_params(qs: Seq<Query>) -> Seq<ParamSpec>
    decreases qs.len(),
{
    if qs.len() == 0 {
        Seq::empty()
    } else {
        let rest = query_params(qs.drop_last());
        let q = qs.last();
        match q.key {
            Some(k) => rest.push(
                ParamSpec {
                    name: k@,
                    location: "query"@,
                    description: opt_text(q.description),
                    required: q.disabled != Some(true),
                },
            ),
            None => rest,
        }
    }
}

/// One header parameter per header with a key other than content-type,
/// required unless disabled.
pub open spec fn header_params(hs: Seq<Header>) -> Seq<ParamSpec>
    decreases hs.len(),
{
    if hs.len() == 0 {
        Seq::empty()
    } else {
        let rest = header_params(hs.drop_last());
        let h = hs.last();
        if h.key is Some && !is_content_type_header(h) {
            rest.push(
                ParamSpec {
                    name: h.key->0@,
                    location: "header"@,
                    description: opt_text(h.description),
                    required: h.disabled != Some(true),
                },
            )
        } else {
            rest
        }
    }
}

/// Path variables, then query entries, then headers.
pub open spec fn params_of(url: Url, headers: Option<Vec<Header>>) -> Seq<ParamSpec> {
    path_params(list_of(url.variable)) + query_params(list_of(url.query)) + header_params(
        list_of(headers),
    )
}

fn string_param(name: String, location: &str, description: Option<String>, required: bool) -> (r:
    Parameter)
    ensures
        param_is(
            r,
            ParamSpec {
                name: name@,
                location: location@,
                description: opt_text(description),
                required,
            },
        ),
{
    Parameter {
        name,
        param_in: String::from_str(location),
        schema: Schema::plain("string"),
        description,
        required: Some(required),
    }
}

pub(crate) fn clone_text(s: &Option<String>) -> (r: Option<String>)
    ensures
        opt_text(r) == opt_text(*s),
{
    match s {
        Some(t) => Some(t.clone()),
        None => None,
    }
}

/// The parameters of a request: its path variables, query entries and
/// headers, in that order.
pub fn process_parameters(url_obj: &Url, headers: &Option<Vec<Header>>) -> (r: Vec<Parameter>)
    ensures
        params_match(r@, params_of(*url_obj, *headers)),
{
    let mut out: Vec<Parameter> = Vec::new();
    let ghost base: Seq<ParamSpec> = Seq::empty();
    if let Some(vars) = &url_obj.variable {
        let mut i: usize = 0;
        while i < vars.len()
            invariant
                i <= vars@.len(),
                params_match(out@, path_params(vars@.take(i as int))),
            decreases vars@.len() - i,
        {
            assert(vars@.take(i + 1).drop_last() =~= vars@.take(i as int));
            if let Some(k) = &vars[i].key {
                let p = string_param(k.clone(), "path", None, true);
                out.push(p);
            }
            i = i + 1;
        }
        assert(vars@.take(i as int) =~= vars@);
    }
    proof {
        base = path_params(list_of(url_obj.variable));
    }
    assert(params_match(out@, base));
    if let Some(qs) = &url_obj.query {
        let mut i: usize = 0;
        assert(base + query_params(qs@.take(0)) =~= base);
        while i < qs.len()
            invariant
                i <= qs@.len(),
                params_match(out@, base + query_params(qs@.take(i as int))),
            decreases qs@.len() - i,
        {
            assert(qs@.take(i + 1).drop_last() =~= qs@.take(i as int));
            if let Some(k) = &qs[i].key {
                let required = match qs[i].disabled {
                    Some(d) => !d,
                    None => true,
                };
                let p = string_param(k.clone(), "query", clone_text(&qs[i].description), required);
                out.push(p);
                assert(base + query_params(qs@.take(i + 1)) =~= (base + query_params(
                    qs@.take(i as int),
                )).push(query_params(qs@.take(i + 1)).last()));
            } else {
                assert(base + query_params(qs@.take(i + 1)) =~= base + query_params(
                    qs@.take(i as int),
                ));
            }
            i = i + 1;
        }
        assert(qs@.take(i as int) =~= qs@);
    } else {
        assert(base + query_params(Seq::empty()) =~= base);
    }
    proof {
        base = base + query_params(list_of(url_obj.query));
    }
    if let Some(hs) = headers {
        let mut i: usize = 0;
        assert(base + header_params(hs@.take(0)) =~= base);
        while i < hs.len()
            invariant
                i <= hs@.len(),
                params_match(out@, base + header_params(hs@.take(i as int))),
            decreases hs@.len() - i,
        {
            assert(hs@.take(i + 1).drop_last() =~= hs@.take(i as int));
            if let Some(k) = &hs[i].key {
                if !is_content_type_key(k) {
                    let required = match hs[i].disabled {
                        Some(d) => !d,
                        None => true,
                    };
                    let p = string_param(
                        k.clone(),
                        "header",
                        clone_text(&hs[i].description),
                        required,
                    );
                    out.push(p);
                    assert(base + header_params(hs@.take(i + 1)) =~= (base + header_params(
                        hs@.take(i as int),
                    )).push(header_params(hs@.take(i + 1)).last()));
                } else {
                    assert(base + header_params(hs@.take(i + 1)) =~= base + header_params(
                        hs@.take(i as int),
                    ));
                }
            } else {
                assert(base + header_params(hs@.take(i + 1)) =~= base + header_params(
                    hs@.take(i as int),
                ));
            }
            i = i + 1;
        }
        assert(hs@.take(i as int) =~= hs@);
    } else {
        assert(base + header_params(Seq::empty()) =~= base);
    }
    out
}

// ---------------------------------------------------------------- bodies

/// An optional raw text; `{}` where absent.
pub open spec fn raw_or_empty_object(s: Option<String>) -> Seq<char> {
    match s {
        Some(t) => t@,
        None => "{}"@,
    }
}

/// Inline content: schema inferred from `v`, `v` as the one example.
pub open spec fn json_content(c: Content, v: JsonValue) -> bool {
    &&& schema_of(c.schema, v)
    &&& c.example == Some(v)
    &&& c.examples is None
}

/// Inline content: a string schema, the raw text as the one example.
pub open spec fn text_content(c: Content, raw: Seq<char>) -> bool {
    &&& c.schema.is_plain("string"@)
    &&& c.example is Some
    &&& c.example->0 is Str
    &&& c.example->0->Str_0@ == raw
    &&& c.examples is None
}

/// The request body for a raw body text under a media type, given what the
/// text parses to: JSON content from the parsed value, no body where JSON
/// does not parse, and string content for any other media type.
pub open spec fn request_body_is(
    r: Option<RequestBody>,
    ct: Seq<char>,
    raw: Seq<char>,
    parsed: Option<JsonValue>,
) -> bool {
    if ct == "application/json"@ && parsed is None {
        r is None
    } else {
        &&& r is Some
        &&& r->0.required
        &&& r->0.content@.len() == 1
        &&& r->0.content@[0].0@ == ct
        &&& if ct == "application/json"@ {
            json_content(r->0.content@[0].1, parsed->0)
        } else {
            text_content(r->0.content@[0].1, raw)
        }
    }
}

pub(crate) fn is_json_type(ct: &String) -> (r: bool)
    ensures
        r == (ct@ == "application/json"@),
{
    str_is(ct, "application/json")
}

/// Builds a request body from its media type, raw text and the value that
/// the text parsed to.
pub fn request_body_from(content_type: String, raw: &String, parsed: Option<JsonValue>) -> (r:
    Option<RequestBody>)
    ensures
        request_body_is(r, content_type@, raw@, parsed),
{
    let content = if is_json_type(&content_type) {
        match parsed {
            None => {
                return None;
            },
            Some(v) => {
                let schema = infer_schema(&v);
                Content { schema, example: Some(v), examples: None }
            },
        }
    } else {
        Content {
            schema: Schema::plain("string"),
            example: Some(JsonValue::Str(raw.clone())),
            examples: None,
        }
    };
    let mut entries: Vec<(String, Content)> = Vec::new();
    entries.push((content_type, content));
    Some(RequestBody { content: entries, required: true })
}

/// The request body of a request: none without a raw body; otherwise the
/// body for its raw text under the media type its headers declare.
pub open spec fn body_of(r: Option<RequestBody>, request: Request) -> bool {
    match request.body {
        None => r is None,
        Some(b) => if opt_text(b.mode) != Some("raw"@) {
            r is None
        } else {
            request_body_is(
                r,
                content_type_of(list_of(request.header)),
                raw_or_empty_object(b.raw),
                parsed_json(raw_or_empty_object(b.raw)),
            )
        },
    }
}

/// The request body of a request, where its body is raw: the media type
/// comes from its headers and a JSON text is parsed.
pub fn process_request_body(request: &Request) -> (r: Option<RequestBody>)
    ensures
        body_of(r, *request),
{
    let body = match &request.body {
        Some(b) => b,
        None => {
            return None;
        },
    };
    let is_raw = match &body.mode {
        Some(m) => str_is(m, "raw"),
        None => false,
    };
    if !is_raw {
        return None;
    }
    let content_type = header_content_type(&request.header);
    let raw = match &body.raw {
        Some(t) => t.clone(),
        None => String::from_str("{}"),
    };
    let parsed = if is_json_type(&content_type) {
        parse_json(raw.as_str())
    } else {
        None
    };
    request_body_from(content_type, &raw, parsed)
}

} // verus!
