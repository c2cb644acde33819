//! The response side of an operation: one response per sample, filed by
//! status code, with samples under one code merged.

use vstd::prelude::*;
use crate::json::{JsonValue, parse_json, parsed_json};
use indexmap::IndexMap;
use crate::openapi::{
    Content, Example, OpenAPIResponse, Schema, keys_of, keys_unique, response_entries, responses_index_of,
    responses_insert, responses_len, responses_new, responses_shift_insert, responses_shift_remove_index,
};
use crate::postman::{Response, list_of, opt_text};
use crate::request::{content_type_of, header_content_type, is_json_type, raw_or_empty_object, text_or, text_or_default};
use crate::schema::{infer_schema, schema_of};
use crate::text::{lower_of, lowercase, underscore_spaces, spaces_to_underscores, u32_text, decimal};

verus! {

broadcast use vstd::std_specs::vec::group_vec_axioms;

// ---------------------------------------------------------------- responses

/// The key of a response's example: its name lowercased with spaces turned
/// into underscores, or `example`.
pub open spec fn example_key(name: Option<Seq<char>>) -> Seq<char> {
    match name {
        Some(n) => spaces_to_underscores(lower_of(n)),
        None => "example"@,
    }
}

/// The response synthesized from one sample: one content entry under the
/// media type, holding one named example, with the schema inferred from the
/// parsed JSON body, or a string schema with the raw text where the media
/// type is not JSON or the text does not parse.
pub open spec fn response_is(
    r: OpenAPIResponse,
    ct: Seq<char>,
    body: Seq<char>,
    parsed: Option<JsonValue>,
    name: Option<Seq<char>>,
) -> bool {
    &&& r.description@ == text_or(name, "Response"@)
    &&& r.content@.len() == 1
    &&& r.content@[0].0@ == ct
    &&& r.content@[0].1.example is None
    &&& r.content@[0].1.examples is Some
    &&& r.content@[0].1.examples->0@.len() == 1
    &&& r.content@[0].1.examples->0@[0].0@ == example_key(name)
    &&& r.content@[0].1.examples->0@[0].1.summary@ == text_or(name, "Example response"@)
    &&& if ct == "application/json"@ && parsed is Some {
        &&& schema_of(r.content@[0].1.schema, parsed->0)
        &&& r.content@[0].1.examples->0@[0].1.value == parsed->0
    } else {
        &&& r.content@[0].1.schema.is_plain("string"@)
        &&& r.content@[0].1.examples->0@[0].1.value is Str
        &&& r.content@[0].1.examples->0@[0].1.value->Str_0@ == body
    }
}

/// Builds the response for one sample from its media type, body text, the
/// value the text parsed to, and its name.
pub fn response_from(
    content_type: String,
    body: String,
    parsed: Option<JsonValue>,
    name: &Option<String>,
) -> (r: OpenAPIResponse)
    ensures
        response_is(r, content_type@, body@, parsed, opt_text(*name)),
{
    let json = is_json_type(&content_type);
    let (schema, example) = match parsed {
        Some(v) => if json {
            (infer_schema(&v), v)
        } else {
            (Schema::plain("string"), JsonValue::Str(body))
        },
        None => (Schema::plain("string"), JsonValue::Str(body)),
    };
    let key = match name {
        Some(n) => {
            let lower = lowercase(n.as_str());
            underscore_spaces(lower.as_str())
        },
        None => String::from_str("example"),
    };
    let summary = text_or_default(name, "Example response");
    let mut examples: Vec<(String, Example)> = Vec::new();
    examples.push((key, Example { value: example, summary }));
    let mut content: Vec<(String, Content)> = Vec::new();
    content.push((content_type, Content { schema, example: None, examples: Some(examples) }));
    OpenAPIResponse { description: text_or_default(name, "Response"), content }
}

/// The response for one Postman sample response.
pub fn process_response(response: &Response) -> (r: OpenAPIResponse)
    ensures
        response_is(
            r,
            content_type_of(list_of(response.header)),
            raw_or_empty_object(response.body),
            parsed_json(raw_or_empty_object(response.body)),
            opt_text(response.name),
        ),
{
    let content_type = header_content_type(&response.header);
    let body = match &response.body {
        Some(t) => t.clone(),
        None => String::from_str("{}"),
    };
    let parsed = if is_json_type(&content_type) {
        parse_json(body.as_str())
    } else {
        None
    };
    response_from(content_type, body, parsed, &response.name)
}

/// The key under which a sample response is filed: its code, or `200`.
pub open spec fn status_key(code: Option<u32>) -> Seq<char> {
    match code {
        Some(c) => decimal(c as nat),
        None => "200"@,
    }
}

pub fn status_code_text(code: Option<u32>) -> (r: String)
    ensures
        r@ == status_key(code),
{
    match code {
        Some(c) => u32_text(c),
        None => String::from_str("200"),
    }
}

// ---------------------------------------------------------------- merging

/// The keys of an association list, as a set.
pub open spec fn key_set<V>(m: Seq<(String, V)>) -> Set<Seq<char>> {
    keys_of(m).to_set()
}

/// The names of a content entry's examples.
pub open spec fn example_keys(c: Content) -> Set<Seq<char>> {
    match c.examples {
        Some(v) => key_set(v@),
        None => Set::empty(),
    }
}

/// The names of the examples that the entries of `cs` under media type `ct` carry.
pub open spec fn incoming_keys(cs: Seq<(String, Content)>, ct: Seq<char>) -> Set<Seq<char>>
    decreases cs.len(),
{
    if cs.len() == 0 {
        Set::empty()
    } else {
        let rest = incoming_keys(cs.drop_last(), ct);
        if cs.last().0@ == ct {
            rest.union(example_keys(cs.last().1))
        } else {
            rest
        }
    }
}

pub(crate) fn find_key<V>(m: &Vec<(String, V)>, key: &String) -> (r: Option<usize>)
    ensures
        match r {
            Some(j) => j < m@.len() && m@[j as int].0@ == key@,
            None => !keys_of(m@).contains(key@),
        },
{
    let mut i: usize = 0;
    while i < m.len()
        invariant
            i <= m@.len(),
            forall|k: int| 0 <= k < i ==> (#[trigger] m@[k]).0@ != key@,
        decreases m@.len() - i,
    {
        if m[i].0 == *key {
            return Some(i);
        }
        i = i + 1;
    }
    proof {
        if keys_of(m@).contains(key@) {
            let k = choose|k: int| 0 <= k < keys_of(m@).len() && keys_of(m@)[k] == key@;
            assert(m@[k].0@ == key@);
        }
    }
    None
}

/// Files an example under its name; a name already there gets the new example.
pub fn insert_example(examples: &mut Vec<(String, Example)>, key: String, ex: Example)
    ensures
        key_set(final(examples)@) == key_set(old(examples)@).insert(key@),
        keys_unique(old(examples)@) ==> keys_unique(final(examples)@),
        keys_of(old(examples)@).contains(key@) ==> exists|j: int|
            0 <= j < old(examples)@.len() && old(examples)@[j].0@ == key@ && final(examples)@
                == old(examples)@.update(j, (key, ex)),
        !keys_of(old(examples)@).contains(key@) ==> final(examples)@ == old(examples)@.push(
            (key, ex),
        ),
{
    broadcast use vstd::seq_lib::group_seq_properties;
    match find_key(examples, &key) {
        Some(j) => {
            let ghost k0 = key@;
            let ghost pair = (key, ex);
            examples.set(j, (key, ex));
            assert(final(examples)@ == old(examples)@.update(j as int, pair));
            assert(keys_of(final(examples)@) =~= keys_of(old(examples)@));
            assert(forall|i: int|
                0 <= i < final(examples)@.len() ==> (#[trigger] final(examples)@[i]).0@ == old(
                    examples,
                )@[i].0@);
            assert(keys_of(old(examples)@)[j as int] == k0);
            assert(key_set(old(examples)@).contains(k0));
            assert(key_set(final(examples)@) =~= key_set(old(examples)@).insert(k0));
        },
        None => {
            let ghost k0 = key@;
            examples.push((key, ex));
            assert(keys_of(final(examples)@) =~= keys_of(old(examples)@).push(k0));
            proof {
                if keys_unique(old(examples)@) {
                    assert forall|i: int, j: int|
                        0 <= i < final(examples)@.len() && 0 <= j < final(examples)@.len() && i
                            != j implies #[trigger] final(examples)@[i].0@
                        != #[trigger] final(examples)@[j].0@ by {
                        if i == old(examples)@.len() as int {
                            assert(keys_of(old(examples)@)[j] == old(examples)@[j].0@);
                        }
                        if j == old(examples)@.len() as int {
                            assert(keys_of(old(examples)@)[i] == old(examples)@[i].0@);
                        }
                    }
                }
            }
        },
    }
}

/// After an insertion, the newest of the examples inserted so far are all held.
proof fn lemma_newest_after_insert(
    prev: Seq<(String, Example)>,
    after: Seq<(String, Example)>,
    pair: (String, Example),
    in0: Seq<(String, Example)>,
    q: int,
)
    requires
        0 <= q < in0.len(),
        pair == in0[q],
        keys_of(prev).contains(pair.0@) ==> exists|j: int|
            0 <= j < prev.len() && prev[j].0@ == pair.0@ && after == prev.update(j, pair),
        !keys_of(prev).contains(pair.0@) ==> after == prev.push(pair),
        forall|x: int| 0 <= x < q && newest(in0.take(q), x) ==> prev.contains(#[trigger] in0[x]),
    ensures
        forall|x: int| 0 <= x < q + 1 && newest(in0.take(q + 1), x) ==> after.contains(#[trigger] in0[x]),
{
    let k = pair.0;
    let t1 = in0.take(q + 1);
    let t0 = in0.take(q);
    if keys_of(prev).contains(k@) {
        let j = choose|j: int|
            0 <= j < prev.len() && prev[j].0@ == k@ && after == prev.update(j, pair);
        assert(after[j] == pair);
        assert forall|x: int| 0 <= x < q + 1 && newest(t1, x) implies after.contains(
            #[trigger] in0[x],
        ) by {
            if x == q {
                assert(after[j] == in0[x]);
            } else {
                assert(t1[q] == in0[q] && t1[x] == in0[x]);
                assert(in0[q].0@ != in0[x].0@);
                assert(newest(t0, x)) by {
                    assert forall|y: int| x < y < t0.len() implies (#[trigger] t0[y]).0@
                        != t0[x].0@ by {
                        assert(t1[y] == t0[y]);
                    }
                }
                let w = choose|w: int| 0 <= w < prev.len() && prev[w] == in0[x];
                assert(w != j);
                assert(after[w] == in0[x]);
            }
        }
    } else {
        assert(after == prev.push(pair));
        assert forall|x: int| 0 <= x < q + 1 && newest(t1, x) implies after.contains(
            #[trigger] in0[x],
        ) by {
            if x == q {
                assert(after[prev.len() as int] == in0[x]);
            } else {
                assert(newest(t0, x)) by {
                    assert forall|y: int| x < y < t0.len() implies (#[trigger] t0[y]).0@
                        != t0[x].0@ by {
                        assert(t1[y] == t0[y]);
                    }
                }
                let w = choose|w: int| 0 <= w < prev.len() && prev[w] == in0[x];
                assert(after[w] == in0[x]);
            }
        }
    }
}

/// No later entry of `m` has the name of entry `q`.
pub open spec fn newest<V>(m: Seq<(String, V)>, q: int) -> bool {
    forall|y: int| q < y < m.len() ==> (#[trigger] m[y]).0@ != m[q].0@
}

/// Adds the examples that `incoming` brings under an existing media type;
/// under a name already there, the newer example wins.
fn merge_examples(existing: Option<Vec<(String, Example)>>, incoming: Vec<(String, Example)>) -> (r:
    Option<Vec<(String, Example)>>)
    ensures
        r is Some,
        key_set(r->0@) == (match existing {
            Some(v) => key_set(v@),
            None => Set::empty(),
        }).union(key_set(incoming@)),
        forall|q: int|
            0 <= q < incoming@.len() && newest(incoming@, q) ==> r->0@.contains(
                #[trigger] incoming@[q],
            ),
{
    broadcast use vstd::seq_lib::group_seq_properties;
    match existing {
        None => {
            assert(Set::<Seq<char>>::empty().union(key_set(incoming@)) =~= key_set(incoming@));
            assert forall|q: int| 0 <= q < incoming@.len() && newest(incoming@, q) implies incoming@.contains(
                #[trigger] incoming@[q],
            ) by {
                assert(incoming@[q] == incoming@[q]);
            }
            Some(incoming)
        },
        Some(ex) => {
            let mut ex = ex;
            let mut incoming = incoming;
            let ghost ex0 = ex@;
            let ghost in0 = incoming@;
            let ghost n = in0.len();
            while incoming.len() > 0
                invariant
                    incoming@ == in0.subrange(n - incoming@.len(), n as int),
                    incoming@.len() <= n,
                    n == in0.len(),
                    key_set(ex@) == key_set(ex0).union(key_set(in0.take(n - incoming@.len()))),
                    forall|q: int|
                        0 <= q < n - incoming@.len() && newest(in0.take(n - incoming@.len()), q)
                            ==> ex@.contains(#[trigger] in0[q]),
                decreases incoming@.len(),
            {
                let ghost q = n - incoming@.len();
                let (k, e) = incoming.remove(0);
                assert(in0.take(q + 1) =~= in0.take(q).push(in0[q]));
                assert(keys_of(in0.take(q + 1)) =~= keys_of(in0.take(q)).push(k@));
                proof {
                    keys_of(in0.take(q)).lemma_push_to_set_commute(k@);
                }
                let ghost prev = ex@;
                let ghost pair = (k, e);
                assert(pair == in0[q]);
                insert_example(&mut ex, k, e);
                assert(key_set(ex@) =~= key_set(ex0).union(key_set(in0.take(q + 1))));
                proof {
                    lemma_newest_after_insert(prev, ex@, pair, in0, q);
                }
            }
            assert(in0.take(n as int) =~= in0);
            Some(ex)
        },
    }
}

/// Where `incoming` brings examples, `c` holds each of them that no later
/// example of `incoming` with the same name overrides.
pub open spec fn carries_newest(c: Content, incoming: Content) -> bool {
    incoming.examples is Some ==> {
        &&& c.examples is Some
        &&& forall|e: int|
            0 <= e < incoming.examples->0@.len() && newest(incoming.examples->0@, e)
                ==> c.examples->0@.contains(#[trigger] incoming.examples->0@[e])
    }
}

/// `r` is `existing` with the examples of `new` added under each media type
/// that `existing` has; its description and media types stay as they were.
pub open spec fn merge_of(r: OpenAPIResponse, existing: OpenAPIResponse, new: OpenAPIResponse) -> bool {
    &&& r.description == existing.description
    &&& keys_of(r.content@) == keys_of(existing.content@)
    &&& keys_unique(r.content@)
    &&& forall|i: int|
        0 <= i < r.content@.len() ==> {
            &&& (#[trigger] r.content@[i]).1.schema == existing.content@[i].1.schema
            &&& r.content@[i].1.example == existing.content@[i].1.example
        }
    &&& forall|i: int|
        0 <= i < r.content@.len() ==> example_keys(#[trigger] r.content@[i].1) == example_keys(
            existing.content@[i].1,
        ).union(incoming_keys(new.content@, existing.content@[i].0@))
    &&& forall|i: int, q: int|
        0 <= i < r.content@.len() && 0 <= q < new.content@.len() && new.content@[q].0@
            == r.content@[i].0@ ==> carries_newest(#[trigger] r.content@[i].1, #[trigger] new.content@[q].1)
}

/// Merges a second response filed under the same status code into the first:
/// under each media type the first already has, the examples of the second
/// are added (a name already there gets the new example). Media types that
/// only the second has are not added.
pub fn merge_response(existing: OpenAPIResponse, new: OpenAPIResponse) -> (r: OpenAPIResponse)
    requires
        keys_unique(existing.content@),
        keys_unique(new.content@),
    ensures
        merge_of(r, existing, new),
{
    let OpenAPIResponse { description, content } = existing;
    let mut content = content;
    let ghost orig = content@;
    let mut incoming = new.content;
    let ghost in0 = incoming@;
    let ghost n = in0.len();
    assert forall|i: int| 0 <= i < orig.len() implies example_keys(#[trigger] orig[i].1) == example_keys(
        orig[i].1,
    ).union(incoming_keys(in0.take(0), orig[i].0@)) by {
        assert(example_keys(orig[i].1).union(Set::empty()) =~= example_keys(orig[i].1));
    }
    while incoming.len() > 0
        invariant
            incoming@ == in0.subrange(n - incoming@.len(), n as int),
            incoming@.len() <= n,
            n == in0.len(),
            keys_unique(orig),
            content@.len() == orig.len(),
            forall|i: int| 0 <= i < orig.len() ==> (#[trigger] content@[i]).0@ == orig[i].0@,
            forall|i: int|
                0 <= i < orig.len() ==> (#[trigger] content@[i]).1.schema == orig[i].1.schema
                    && content@[i].1.example == orig[i].1.example,
            forall|i: int|
                0 <= i < orig.len() ==> example_keys(#[trigger] content@[i].1) == example_keys(
                    orig[i].1,
                ).union(incoming_keys(in0.take(n - incoming@.len()), orig[i].0@)),
            keys_unique(in0),
            forall|i: int, x: int|
                0 <= i < orig.len() && 0 <= x < n - incoming@.len() && in0[x].0@ == orig[i].0@
                    ==> carries_newest(#[trigger] content@[i].1, #[trigger] in0[x].1),
        decreases incoming@.len(),
    {
        let ghost q = n - incoming@.len();
        let ghost before = content@;
        let ghost cq = incoming@[0];
        assert(cq == in0[q]);
        let (ct, c) = incoming.remove(0);
        assert(in0.take(q + 1).drop_last() =~= in0.take(q));
        let found = find_key(&content, &ct);
        let Content { schema: new_schema, example: new_example, examples: new_examples } = c;
        match found {
            Some(j) => {
                match new_examples {
                    Some(nex) => {
                        let (k, old_c) = content.remove(j);
                        let Content { schema, example, examples } = old_c;
                        let merged = merge_examples(examples, nex);
                        content.insert(j, (k, Content { schema, example, examples: merged }));
                        assert forall|i: int, x: int|
                            0 <= i < orig.len() && 0 <= x < q + 1 && in0[x].0@ == orig[i].0@ implies carries_newest(
                            #[trigger] content@[i].1,
                            #[trigger] in0[x].1,
                        ) by {
                            if i == j {
                                if x != q {
                                    assert(in0[x].0@ != in0[q].0@);
                                }
                            } else {
                                assert(content@[i] == before[i]);
                                if x == q {
                                    assert(orig[i].0@ != orig[j as int].0@);
                                }
                            }
                        }
                        assert forall|i: int| 0 <= i < orig.len() implies (#[trigger] content@[i]).1.schema
                            == orig[i].1.schema && content@[i].1.example == orig[i].1.example by {
                            if i != j {
                                assert(content@[i] == before[i]);
                            }
                        }
                        assert forall|i: int| 0 <= i < orig.len() implies (#[trigger] content@[i]).0@
                            == orig[i].0@ && example_keys(content@[i].1) == example_keys(
                            orig[i].1,
                        ).union(incoming_keys(in0.take(q + 1), orig[i].0@)) by {
                            if i == j {
                                assert(example_keys(content@[i].1) =~= example_keys(
                                    orig[i].1,
                                ).union(incoming_keys(in0.take(q + 1), orig[i].0@)));
                            } else {
                                assert(content@[i] == before[i]);
                                assert(orig[i].0@ != orig[j as int].0@);
                            }
                        }
                    },
                    None => {
                        assert forall|i: int| 0 <= i < orig.len() implies example_keys(
                            #[trigger] content@[i].1,
                        ) == example_keys(orig[i].1).union(
                            incoming_keys(in0.take(q + 1), orig[i].0@),
                        ) by {
                            assert(incoming_keys(in0.take(q + 1), orig[i].0@) =~= incoming_keys(
                                in0.take(q),
                                orig[i].0@,
                            ));
                        }
                        assert(in0[q].1.examples is None);
                        assert forall|i: int, x: int|
                            0 <= i < orig.len() && 0 <= x < q + 1 && in0[x].0@ == orig[i].0@ implies carries_newest(
                            #[trigger] content@[i].1,
                            #[trigger] in0[x].1,
                        ) by {}
                    },
                }
            },
            None => {
                assert forall|i: int| 0 <= i < orig.len() implies example_keys(
                    #[trigger] content@[i].1,
                ) == example_keys(orig[i].1).union(incoming_keys(in0.take(q + 1), orig[i].0@)) by {
                    assert(keys_of(content@)[i] == content@[i].0@);
                }
                assert forall|i: int, x: int|
                    0 <= i < orig.len() && 0 <= x < q + 1 && in0[x].0@ == orig[i].0@ implies carries_newest(
                    #[trigger] content@[i].1,
                    #[trigger] in0[x].1,
                ) by {
                    assert(keys_of(content@)[i] == content@[i].0@);
                }
            },
        }
    }
    assert(in0.take(n as int) =~= in0);
    assert(keys_of(content@) =~= keys_of(orig));
    assert forall|i: int, j: int|
        0 <= i < content@.len() && 0 <= j < content@.len() && i != j implies #[trigger] content@[i].0@
        != #[trigger] content@[j].0@ by {
        assert(orig[i].0@ != orig[j].0@);
    }
    OpenAPIResponse { description, content }
}

// ---------------------------------------------------------------- responses of an operation

/// The keys under which the sample responses are filed.
pub open spec fn status_keys(rs: Seq<Response>) -> Set<Seq<char>> {
    rs.map_values(|x: Response| status_key(x.code)).to_set()
}

/// The index of the first sample filed under code `c`.
pub open spec fn first_under(samples: Seq<Response>, c: Seq<char>) -> Option<int>
    decreases samples.len(),
{
    if samples.len() == 0 {
        None
    } else {
        match first_under(samples.drop_last(), c) {
            Some(f) => Some(f),
            None => if status_key(samples.last().code) == c {
                Some(samples.len() - 1)
            } else {
                None
            },
        }
    }
}

/// The example names of the samples filed under code `c` with media type `ct`.
pub open spec fn names_under(samples: Seq<Response>, c: Seq<char>, ct: Seq<char>) -> Set<Seq<char>>
    decreases samples.len(),
{
    if samples.len() == 0 {
        Set::empty()
    } else {
        let rest = names_under(samples.drop_last(), c, ct);
        let s = samples.last();
        if status_key(s.code) == c && content_type_of(list_of(s.header)) == ct {
            rest.insert(example_key(opt_text(s.name)))
        } else {
            rest
        }
    }
}

/// The status codes of the samples, each once, in the order first seen.
pub open spec fn first_seen_codes(samples: Seq<Response>) -> Seq<Seq<char>>
    decreases samples.len(),
{
    if samples.len() == 0 {
        Seq::empty()
    } else {
        let rest = first_seen_codes(samples.drop_last());
        let c = status_key(samples.last().code);
        if rest.contains(c) {
            rest
        } else {
            rest.push(c)
        }
    }
}

/// The schema that sample `x` gives under media type `ct`: inferred from its
/// body where that is JSON and parses, a string schema otherwise.
pub open spec fn sample_schema(s: Schema, x: Response, ct: Seq<char>) -> bool {
    let body = raw_or_empty_object(x.body);
    if ct == "application/json"@ && parsed_json(body) is Some {
        schema_of(s, parsed_json(body)->0)
    } else {
        s.is_plain("string"@)
    }
}

/// The response filed under code `c`: the description and media type of the
/// first sample with that code, and the examples of every sample with that
/// code and media type.
pub open spec fn entry_of(r: OpenAPIResponse, samples: Seq<Response>, c: Seq<char>) -> bool {
    match first_under(samples, c) {
        None => false,
        Some(f) => {
            let ct = content_type_of(list_of(samples[f].header));
            &&& 0 <= f < samples.len()
            &&& r.description@ == text_or(opt_text(samples[f].name), "Response"@)
            &&& r.content@.len() == 1
            &&& r.content@[0].0@ == ct
            &&& sample_schema(r.content@[0].1.schema, samples[f], ct)
            &&& example_keys(r.content@[0].1) == names_under(samples, c, ct)
        },
    }
}

/// The response table of an operation: keys unique, each response with
/// unique media types; one entry per distinct status code of the samples,
/// or a lone `200` response described `OK` with no content where there are
/// no samples.
pub open spec fn responses_of(r: Seq<(String, OpenAPIResponse)>, samples: Seq<Response>) -> bool {
    &&& keys_unique(r)
    &&& forall|i: int| 0 <= i < r.len() ==> keys_unique((#[trigger] r[i]).1.content@)
    &&& if samples.len() == 0 {
        &&& r.len() == 1
        &&& r[0].0@ == "200"@
        &&& r[0].1.description@ == "OK"@
        &&& r[0].1.content@.len() == 0
    } else {
        &&& key_set(r) == status_keys(samples)
        &&& keys_of(r) == first_seen_codes(samples)
        &&& forall|i: int| 0 <= i < r.len() ==> entry_of((#[trigger] r[i]).1, samples, r[i].0@)
    }
}

/// A code that no sample has has no first sample and no example names.
proof fn lemma_not_under(samples: Seq<Response>, c: Seq<char>, ct: Seq<char>)
    requires
        forall|j: int| 0 <= j < samples.len() ==> status_key((#[trigger] samples[j]).code) != c,
    ensures
        first_under(samples, c) is None,
        names_under(samples, c, ct) == Set::<Seq<char>>::empty(),
    decreases samples.len(),
{
    if samples.len() > 0 {
        lemma_not_under(samples.drop_last(), c, ct);
    }
}

/// A sample under another code leaves the response filed under `c` as it is.
proof fn lemma_entry_extends(r: OpenAPIResponse, samples: Seq<Response>, s: Response, c: Seq<char>)
    requires
        entry_of(r, samples, c),
        status_key(s.code) != c,
    ensures
        entry_of(r, samples.push(s), c),
{
    let t = samples.push(s);
    assert(t.drop_last() =~= samples);
    let f = first_under(samples, c)->0;
    assert(t[f] == samples[f]);
}

/// The one example name of a synthesized response.
proof fn lemma_single_example(
    r: OpenAPIResponse,
    ct: Seq<char>,
    body: Seq<char>,
    parsed: Option<JsonValue>,
    name: Option<Seq<char>>,
)
    requires
        response_is(r, ct, body, parsed, name),
    ensures
        example_keys(r.content@[0].1) == set![example_key(name)],
{
    let k = example_key(name);
    assert(keys_of(r.content@[0].1.examples->0@) =~= seq![k]);
    assert(seq![k].to_set() =~= set![k]) by {
        assert(seq![k][0] == k);
    }
}

/// Two samples under one status code with the same media type: the table
/// holds a single response, and its examples are exactly those of the two
/// samples, under both of their names.
pub proof fn lemma_same_code_merges_examples(
    first: Response,
    second: Response,
    r: Seq<(String, OpenAPIResponse)>,
)
    requires
        status_key(first.code) == status_key(second.code),
        content_type_of(list_of(first.header)) == content_type_of(list_of(second.header)),
        responses_of(r, seq![first, second]),
    ensures
        r.len() == 1,
        r[0].0@ == status_key(first.code),
        r[0].1.content@.len() == 1,
        example_keys(r[0].1.content@[0].1) == set![
            example_key(opt_text(first.name)),
            example_key(opt_text(second.name)),
        ],
{
    let samples = seq![first, second];
    let c = status_key(first.code);
    let ct = content_type_of(list_of(first.header));
    let m = samples.map_values(|y: Response| status_key(y.code));
    assert(m[0] == c);
    assert(m.to_set().contains(c));
    assert(key_set(r).contains(c));
    let w = choose|w: int| 0 <= w < keys_of(r).len() && keys_of(r)[w] == c;
    assert(r[w].0@ == c);
    if r.len() >= 2 {
        let other = if w == 0 { 1int } else { 0int };
        assert(keys_of(r)[other] == r[other].0@);
        assert(key_set(r).contains(r[other].0@));
        assert(m.to_set().contains(r[other].0@));
        let v = choose|v: int| 0 <= v < m.len() && m[v] == r[other].0@;
        assert(m[1] == c);
        assert(r[other].0@ == c);
        assert(false);
    }
    assert(samples.drop_last() =~= seq![first]);
    assert(seq![first].drop_last() =~= Seq::<Response>::empty());
    let one = seq![first];
    assert(one.last() == first);
    assert(samples.last() == second);
    assert(first_under(Seq::<Response>::empty(), c) is None);
    assert(first_under(one, c) == Some(0int));
    assert(first_under(samples, c) == Some(0int));
    assert(names_under(Seq::<Response>::empty(), c, ct) == Set::<Seq<char>>::empty());
    assert(names_under(one, c, ct) == Set::<Seq<char>>::empty().insert(
        example_key(opt_text(first.name)),
    ));
    assert(names_under(samples, c, ct) =~= set![
        example_key(opt_text(first.name)),
        example_key(opt_text(second.name)),
    ]);
    assert(entry_of(r[0].1, samples, r[0].0@));
}

/// Files each sample response under its status code, merging samples that
/// share a code; with no samples, a default `200` response.
pub fn collect_responses(list: &Option<Vec<Response>>) -> (r: IndexMap<String, OpenAPIResponse>)
    ensures
        responses_of(response_entries(r), list_of(*list)),
        response_entries(r).len() >= 1,
{
    broadcast use vstd::seq_lib::group_seq_properties;
    let mut responses = responses_new();
    if let Some(rs) = list {
        let mut i: usize = 0;
        while i < rs.len()
            invariant
                i <= rs@.len(),
                *list == Some(*rs),
                keys_unique(response_entries(responses)),
                forall|k: int| 0 <= k < response_entries(responses).len() ==> keys_unique((#[trigger] response_entries(responses)[k]).1.content@),
                key_set(response_entries(responses)) == status_keys(rs@.take(i as int)),
                keys_of(response_entries(responses)) == first_seen_codes(rs@.take(i as int)),
                forall|k: int|
                    0 <= k < response_entries(responses).len() ==> entry_of(
                        (#[trigger] response_entries(responses)[k]).1,
                        rs@.take(i as int),
                        response_entries(responses)[k].0@,
                    ),
                i > 0 ==> response_entries(responses).len() > 0,
                response_entries(responses).len() <= i,
            decreases rs@.len() - i,
        {
            let ghost before = response_entries(responses);
            let code = status_code_text(rs[i].code);
            let processed = process_response(&rs[i]);
            let ghost c0 = code@;
            let ghost s0 = rs@[i as int];
            let ghost t = rs@.take(i as int);
            let ghost ct0 = content_type_of(list_of(s0.header));
            assert(rs@.take(i + 1) =~= t.push(s0));
            assert(rs@.take(i + 1).drop_last() =~= t);
            proof {
                lemma_single_example(
                    processed,
                    ct0,
                    raw_or_empty_object(s0.body),
                    parsed_json(raw_or_empty_object(s0.body)),
                    opt_text(s0.name),
                );
            }
            assert(rs@.take(i + 1).map_values(|x: Response| status_key(x.code)) =~= rs@.take(
                i as int,
            ).map_values(|x: Response| status_key(x.code)).push(c0));
            proof {
                rs@.take(i as int).map_values(|x: Response| status_key(x.code)).lemma_push_to_set_commute(c0);
            }
            match responses_index_of(&responses, &code) {
                Some(j) => {
                    let ghost pr = processed;
                    let (k, existing) = match responses_shift_remove_index(&mut responses, j) {
                        Some(entry) => entry,
                        None => {
                            return responses;
                        },
                    };
                    let ghost ex = existing;
                    let merged = merge_response(existing, processed);
                    proof {
                        let rest = before.remove(j as int);
                        if keys_of(rest).contains(k@) {
                            let y = choose|y: int| 0 <= y < keys_of(rest).len() && keys_of(rest)[y] == k@;
                            if y < j {
                                assert(before[y].0@ == before[j as int].0@);
                            } else {
                                assert(before[y + 1].0@ == before[j as int].0@);
                            }
                        }
                    }
                    responses_shift_insert(&mut responses, j, k, merged);
                    assert(response_entries(responses) =~= before.update(j as int, (k, merged)));
                    proof {
                        assert(before[j as int].1 == ex);
                        assert(entry_of(ex, t, c0));
                        let f = first_under(t, c0)->0;
                        let ctf = content_type_of(list_of(t[f].header));
                        assert(keys_of(merged.content@).len() == keys_of(ex.content@).len());
                        assert(keys_of(merged.content@)[0] == keys_of(ex.content@)[0]);
                        assert(merged.content@[0].1.schema == ex.content@[0].1.schema);
                        assert(before[j as int].0@ == c0);
                        assert(keys_of(before)[j as int] == c0);
                        assert(keys_of(before).contains(c0));
                        assert(keys_of(response_entries(responses)) =~= keys_of(before));
                        assert(keys_of(response_entries(responses)) =~= first_seen_codes(rs@.take(i + 1)));
                        assert(keys_of(pr.content@)[0] == pr.content@[0].0@);
                        assert(pr.content@.drop_last() =~= Seq::<(String, Content)>::empty());
                        assert(incoming_keys(pr.content@.drop_last(), ctf) == Set::<Seq<char>>::empty());
                        assert(rs@.take(i + 1)[f] == t[f]);
                        assert(example_keys(merged.content@[0].1) =~= names_under(
                            rs@.take(i + 1),
                            c0,
                            ctf,
                        ));
                        assert(entry_of(merged, rs@.take(i + 1), c0));
                        assert forall|x: int| 0 <= x < response_entries(responses).len() implies entry_of(
                            (#[trigger] response_entries(responses)[x]).1,
                            rs@.take(i + 1),
                            response_entries(responses)[x].0@,
                        ) by {
                            if x != j {
                                assert(response_entries(responses)[x] == before[x]);
                                assert(keys_of(before)[x] == before[x].0@);
                                assert(before[x].0@ != before[j as int].0@);
                                lemma_entry_extends(before[x].1, t, s0, before[x].0@);
                            }
                        }
                    }
                    assert(keys_of(response_entries(responses)) =~= keys_of(before));
                    assert(keys_of(before)[j as int] == c0);
                    assert(key_set(response_entries(responses)) =~= status_keys(rs@.take(i + 1)));
                    assert forall|a: int, b: int|
                        0 <= a < response_entries(responses).len() && 0 <= b < response_entries(responses).len() && a != b implies #[trigger] response_entries(responses)[a].0@
                        != #[trigger] response_entries(responses)[b].0@ by {
                        assert(keys_of(response_entries(responses))[a] == keys_of(before)[a]);
                        assert(keys_of(response_entries(responses))[b] == keys_of(before)[b]);
                    }
                    assert forall|k: int| 0 <= k < response_entries(responses).len() implies keys_unique(
                        (#[trigger] response_entries(responses)[k]).1.content@,
                    ) by {
                        if k != j {
                            assert(response_entries(responses)[k] == before[k]);
                        }
                    }
                },
                None => {
                    let ghost pr = processed;
                    proof {
                        assert forall|x: int| 0 <= x < t.len() implies status_key(
                            (#[trigger] t[x]).code,
                        ) != c0 by {
                            let m = t.map_values(|y: Response| status_key(y.code));
                            if status_key(t[x].code) == c0 {
                                assert(m[x] == c0);
                                assert(m.to_set().contains(c0));
                                assert(key_set(before).contains(c0));
                            }
                        }
                        lemma_not_under(t, c0, ct0);
                    }
                    responses_insert(&mut responses, code, processed);
                    proof {
                        assert(rs@.take(i + 1)[i as int] == s0);
                        assert(keys_of(response_entries(responses)) =~= first_seen_codes(rs@.take(i + 1)));
                        assert(entry_of(pr, rs@.take(i + 1), c0)) by {
                            assert(names_under(rs@.take(i + 1), c0, ct0) =~= set![example_key(opt_text(s0.name))]);
                        }
                        assert forall|x: int| 0 <= x < response_entries(responses).len() implies entry_of(
                            (#[trigger] response_entries(responses)[x]).1,
                            rs@.take(i + 1),
                            response_entries(responses)[x].0@,
                        ) by {
                            if x < before.len() {
                                assert(response_entries(responses)[x] == before[x]);
                                assert(keys_of(before)[x] == before[x].0@);
                                assert(key_set(before).contains(before[x].0@));
                                lemma_entry_extends(before[x].1, t, s0, before[x].0@);
                            }
                        }
                    }
                    assert(keys_of(response_entries(responses)) =~= keys_of(before).push(c0));
                    proof {
                        keys_of(before).lemma_push_to_set_commute(c0);
                    }
                    assert(key_set(response_entries(responses)) =~= status_keys(rs@.take(i + 1)));
                    assert forall|a: int, b: int|
                        0 <= a < response_entries(responses).len() && 0 <= b < response_entries(responses).len() && a != b implies #[trigger] response_entries(responses)[a].0@
                        != #[trigger] response_entries(responses)[b].0@ by {
                        if a == before.len() as int {
                            assert(keys_of(before)[b] == before[b].0@);
                        }
                        if b == before.len() as int {
                            assert(keys_of(before)[a] == before[a].0@);
                        }
                    }
                    assert forall|k: int| 0 <= k < response_entries(responses).len() implies keys_unique(
                        (#[trigger] response_entries(responses)[k]).1.content@,
                    ) by {
                        if k < before.len() {
                            assert(response_entries(responses)[k] == before[k]);
                        }
                    }
                },
            }
            i = i + 1;
        }
        assert(rs@.take(i as int) =~= rs@);
    }
    assert(list_of(*list).len() > 0 ==> response_entries(responses).len() > 0);
    if responses_len(&responses) == 0 {
        assert(keys_of(response_entries(responses)) =~= Seq::<Seq<char>>::empty());
        responses_insert(
            &mut responses,
            String::from_str("200"),
            OpenAPIResponse { description: String::from_str("OK"), content: Vec::new() },
        );
        assert(keys_unique(response_entries(responses)));
        assert(response_entries(responses)[0].0@ == "200"@);
        assert(response_entries(responses)[0].1.description@ == "OK"@);
        assert(response_entries(responses)[0].1.content@.len() == 0);
    }
    assert(list_of(*list).len() == 0 ==> response_entries(responses)[0].1.description@ == "OK"@);
    assert(list_of(*list).len() != 0 ==> key_set(response_entries(responses)) == status_keys(list_of(*list)));
    responses
}

} // verus!
