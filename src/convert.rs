//! The mapping from a Postman collection to an OpenAPI document: the walk
//! over the item tree, the tables of paths and operations, and the tags.

use vstd::prelude::*;
use vstd::string::*;
use indexmap::IndexMap;
use crate::openapi::{
    Components, OpenAPIInfo, OpenAPISpec, Operation, Tag, keys_of, keys_unique, operation_entries,
    operations_table, path_entries, paths_table, response_entries, schema_entries,
    empty_schemas,
};
use crate::postman::{Item, PostmanCollection, Request, Url, list_of, opt_text};
use crate::request::{body_of, build_path, params_match, params_of, path_of, process_parameters, process_request_body, str_is, text_or, text_or_default};
use crate::response::{collect_responses, find_key, key_set, responses_of};
use crate::text::{lower_of, lowercase, text_less, text_lt};

verus! {

broadcast use vstd::std_specs::vec::group_vec_axioms;

// ---------------------------------------------------------------- tags

/// The characters of each name.
pub open spec fn names_of(v: Seq<String>) -> Seq<Seq<char>> {
    v.map_values(|s: String| s@)
}

/// Strictly ascending: sorted, and no name twice.
pub open spec fn strictly_sorted(v: Seq<Seq<char>>) -> bool {
    forall|i: int, j: int| 0 <= i < j < v.len() ==> text_lt(#[trigger] v[i], #[trigger] v[j])
}

/// A strictly ascending list of names holds no name twice.
pub proof fn lemma_strictly_sorted_distinct(v: Seq<Seq<char>>)
    requires
        strictly_sorted(v),
    ensures
        v.no_duplicates(),
{
    assert forall|i: int, j: int| 0 <= i < v.len() && 0 <= j < v.len() && i != j implies v[i] != v[j] by {
        if i < j {
            assert(text_lt(v[i], v[j]));
        } else {
            assert(text_lt(v[j], v[i]));
        }
        crate::text::lemma_text_lt_irreflexive(v[i]);
    }
}

/// Adds a name to a strictly ascending list of names, where it is not there yet.
pub fn add_tag(tags: &mut Vec<String>, t: &String)
    requires
        strictly_sorted(names_of(old(tags)@)),
    ensures
        strictly_sorted(names_of(final(tags)@)),
        names_of(final(tags)@).to_set() == names_of(old(tags)@).to_set().insert(t@),
{
    let mut i: usize = 0;
    while i < tags.len() && text_less(tags[i].as_str(), t.as_str())
        invariant
            i <= tags@.len(),
            forall|k: int| 0 <= k < i ==> text_lt(#[trigger] tags@[k]@, t@),
        decreases tags@.len() - i,
    {
        i = i + 1;
    }
    let ghost v = names_of(tags@);
    if i < tags.len() && tags[i] == *t {
        assert(v[i as int] == t@);
        assert(v.to_set().insert(t@) =~= v.to_set());
        return;
    }
    proof {
        if i < v.len() {
            assert(!text_lt(v[i as int], t@));
            crate::text::lemma_text_lt_total(v[i as int], t@);
        }
    }
    tags.insert(i, t.clone());
    let ghost w = names_of(tags@);
    assert(w =~= v.insert(i as int, t@));
    assert forall|a: int, b: int| 0 <= a < b < w.len() implies text_lt(#[trigger] w[a], #[trigger] w[b]) by {
        if b < i {
        } else if a < i && b == i {
            assert(text_lt(tags@[a]@, t@));
        } else if a < i {
            assert(text_lt(v[a], t@));
            assert(text_lt(t@, v[i as int]));
            if b - 1 > i {
                crate::text::lemma_text_lt_transitive(t@, v[i as int], v[b - 1]);
            }
            crate::text::lemma_text_lt_transitive(v[a], t@, v[b - 1]);
        } else if a == i {
            if b - 1 > i {
                crate::text::lemma_text_lt_transitive(t@, v[i as int], v[b - 1]);
            }
        } else {
        }
    }
    assert(w.to_set() =~= v.to_set().insert(t@)) by {
        assert forall|x: Seq<char>| w.to_set().contains(x) implies v.to_set().insert(t@).contains(x) by {
            let k = choose|k: int| 0 <= k < w.len() && w[k] == x;
            if k < i {
                assert(v[k] == x);
            } else if k > i {
                assert(v[k - 1] == x);
            }
        }
        assert forall|x: Seq<char>| v.to_set().insert(t@).contains(x) implies w.to_set().contains(x) by {
            if x == t@ {
                assert(w[i as int] == x);
            } else {
                let k = choose|k: int| 0 <= k < v.len() && v[k] == x;
                if k < i {
                    assert(w[k] == x);
                } else {
                    assert(w[k + 1] == x);
                }
            }
        }
    }
}

// ---------------------------------------------------------------- operations

/// An operation's table of responses never is empty and files each code once.
pub open spec fn operations_wf(ops: Seq<(String, Operation)>) -> bool {
    &&& keys_unique(ops)
    &&& forall|k: int| 0 <= k < ops.len() ==> response_entries((#[trigger] ops[k]).1.responses).len() >= 1
}

/// Every path template starts with `/`, is listed once, and lists each
/// method once.
pub open spec fn paths_wf(p: Seq<(String, Vec<(String, Operation)>)>) -> bool {
    &&& keys_unique(p)
    &&& forall|i: int|
        0 <= i < p.len() ==> {
            &&& (#[trigger] p[i]).0@.len() > 0
            &&& p[i].0@[0] == '/'
            &&& operations_wf(p[i].1@)
        }
}

/// The operation built for a request item under the given folder names.
pub open spec fn operation_is(
    op: Operation,
    method: Seq<char>,
    item: Item,
    request: Request,
    url: Url,
    current: Seq<Seq<char>>,
) -> bool {
    &&& method == lower_of(text_or(opt_text(request.method), "GET"@))
    &&& op.summary@ == text_or(opt_text(item.name), ""@)
    &&& op.description@ == text_or(opt_text(request.description), ""@)
    &&& params_match(op.parameters@, params_of(url, request.header))
    &&& if method == "get"@ || method == "delete"@ {
        op.request_body is None
    } else {
        body_of(op.request_body, request)
    }
    &&& responses_of(response_entries(op.responses), list_of(item.response))
    &&& names_of(op.tags@) == current
}

fn clone_names(v: &Vec<String>) -> (r: Vec<String>)
    ensures
        names_of(r@) == names_of(v@),
{
    let mut out: Vec<String> = Vec::new();
    let mut i: usize = 0;
    while i < v.len()
        invariant
            i <= v@.len(),
            names_of(out@) == names_of(v@.take(i as int)),
        decreases v@.len() - i,
    {
        let ghost before = out@;
        out.push(v[i].clone());
        assert(v@.take(i + 1) =~= v@.take(i as int).push(v@[i as int]));
        assert(out@ =~= before.push(v@[i as int]));
        assert(names_of(out@) =~= names_of(before).push(v@[i as int]@));
        assert(names_of(out@) =~= names_of(v@.take(i + 1)));
        i = i + 1;
    }
    assert(v@.take(i as int) =~= v@);
    out
}

/// Builds the path template, method and operation of a request item.
pub fn build_operation(item: &Item, request: &Request, url: &Url, current: &Vec<String>) -> (r: (
    String,
    String,
    Operation,
))
    requires
        item.request == Some(*request),
        request.url == Some(*url),
    ensures
        r.0@ == path_of(list_of(url.path)),
        r.0@.len() > 0 && r.0@[0] == '/',
        response_entries(r.2.responses).len() >= 1,
        operation_is(r.2, r.1@, *item, *request, *url, names_of(current@)),
{
    let method = match &request.method {
        Some(m) => lowercase(m.as_str()),
        None => lowercase("GET"),
    };
    let path = build_path(&url.path);
    let parameters = process_parameters(url, &request.header);
    let request_body = if str_is(&method, "get") || str_is(&method, "delete") {
        None
    } else {
        process_request_body(request)
    };
    let responses = collect_responses(&item.response);
    let op = Operation {
        summary: text_or_default(&item.name, ""),
        description: text_or_default(&request.description, ""),
        parameters,
        request_body,
        responses,
        tags: clone_names(current),
    };
    (path, method, op)
}

/// `op` is the operation filed under `path` and `method`.
pub open spec fn filed_under(
    p: Seq<(String, Vec<(String, Operation)>)>,
    path: Seq<char>,
    method: Seq<char>,
    op: Operation,
) -> bool {
    exists|j: int, k: int|
        0 <= j < p.len() && 0 <= k < p[j].1@.len() && #[trigger] p[j].0@ == path
            && #[trigger] p[j].1@[k].0@ == method && p[j].1@[k].1 == op
}

/// Files an operation under its path template and method; an operation
/// already filed there is replaced.
pub fn add_operation(
    paths: &mut Vec<(String, Vec<(String, Operation)>)>,
    path: String,
    method: String,
    op: Operation,
)
    requires
        paths_wf(old(paths)@),
        path@.len() > 0 && path@[0] == '/',
        response_entries(op.responses).len() >= 1,
    ensures
        paths_wf(final(paths)@),
        key_set(final(paths)@) == key_set(old(paths)@).insert(path@),
        filed_under(final(paths)@, path@, method@, op),
        keys_of(final(paths)@) == (if keys_of(old(paths)@).contains(path@) {
            keys_of(old(paths)@)
        } else {
            keys_of(old(paths)@).push(path@)
        }),
        forall|j: int, k: int|
            0 <= j < old(paths)@.len() && 0 <= k < old(paths)@[j].1@.len() ==> {
                &&& j < final(paths)@.len()
                &&& k < final(paths)@[j].1@.len()
                &&& final(paths)@[j].0@ == old(paths)@[j].0@
                &&& (#[trigger] final(paths)@[j].1@[k]).0@ == old(paths)@[j].1@[k].0@
            },
        forall|j: int, k: int|
            0 <= j < final(paths)@.len() && 0 <= k < final(paths)@[j].1@.len() ==> {
                &&& (final(paths)@[j].0@ == path@ && (#[trigger] final(paths)@[j].1@[k]).0@
                    == method@) ==> final(paths)@[j].1@[k].1 == op
                &&& (final(paths)@[j].0@ == path@ && final(paths)@[j].1@[k].0@ == method@) || (j
                    < old(paths)@.len() && k < old(paths)@[j].1@.len() && final(paths)@[j].1@[k]
                    == old(paths)@[j].1@[k])
            },
{
    broadcast use vstd::seq_lib::group_seq_properties;
    let ghost before = paths@;
    let ghost p0 = path@;
    match find_key(paths, &path) {
        Some(j) => {
            let (key, ops) = paths.remove(j);
            let mut ops = ops;
            let ghost ops0 = ops@;
            let ghost m0 = method@;
            let ghost o0 = op;
            let ghost mut kk: int = 0;
            match find_key(&ops, &method) {
                Some(k) => {
                    ops.set(k, (method, op));
                    proof {
                        kk = k as int;
                    }
                    assert(ops@ =~= ops0.update(k as int, ops@[k as int]));
                    assert(forall|x: int| 0 <= x < ops@.len() ==> (#[trigger] ops@[x]).0@ == ops0[x].0@);
                },
                None => {
                    ops.push((method, op));
                    proof {
                        kk = ops0.len() as int;
                    }
                    assert forall|a: int, b: int|
                        0 <= a < ops@.len() && 0 <= b < ops@.len() && a != b implies #[trigger] ops@[a].0@
                        != #[trigger] ops@[b].0@ by {
                        if a == ops0.len() as int {
                            assert(keys_of(ops0)[b] == ops0[b].0@);
                        }
                        if b == ops0.len() as int {
                            assert(keys_of(ops0)[a] == ops0[a].0@);
                        }
                    }
                },
            }
            assert(operations_wf(ops@));
            let ghost ops1 = ops@;
            assert(0 <= kk < ops1.len() && ops1[kk].0@ == m0 && ops1[kk].1 == o0);
            paths.insert(j, (key, ops));
            assert(paths@[j as int].1@ == ops1);
            assert(paths@[j as int].0@ == p0);
            assert(paths@[j as int].1@[kk].0@ == m0);
            assert(keys_of(paths@) =~= keys_of(before));
            assert(keys_of(before)[j as int] == p0);
            assert(keys_of(before).contains(p0));
            assert(key_set(paths@) =~= key_set(before).insert(p0));
            assert(paths@ =~= before.update(j as int, paths@[j as int]));
            assert forall|x: int, k: int|
                0 <= x < paths@.len() && 0 <= k < paths@[x].1@.len() implies {
                &&& (paths@[x].0@ == p0 && (#[trigger] paths@[x].1@[k]).0@ == m0) ==> paths@[x].1@[k].1
                    == o0
                &&& (paths@[x].0@ == p0 && paths@[x].1@[k].0@ == m0) || (x < before.len() && k
                    < before[x].1@.len() && paths@[x].1@[k] == before[x].1@[k])
            } by {
                if x != j {
                    assert(paths@[x] == before[x]);
                } else if k != kk {
                    assert(ops1[k] == ops0[k]);
                    assert(keys_of(ops0)[k] == ops0[k].0@);
                    assert(keys_of(ops0)[kk] == ops0[kk].0@ || kk == ops0.len());
                }
            }
            assert forall|x: int, k: int|
                0 <= x < before.len() && 0 <= k < before[x].1@.len() implies {
                &&& x < paths@.len()
                &&& k < paths@[x].1@.len()
                &&& paths@[x].0@ == before[x].0@
                &&& (#[trigger] paths@[x].1@[k]).0@ == before[x].1@[k].0@
            } by {
                if x == j {
                    assert(ops1[k].0@ == ops0[k].0@);
                }
            }
            assert forall|a: int, b: int|
                0 <= a < paths@.len() && 0 <= b < paths@.len() && a != b implies #[trigger] paths@[a].0@
                != #[trigger] paths@[b].0@ by {
                assert(keys_of(paths@)[a] == keys_of(before)[a]);
                assert(keys_of(paths@)[b] == keys_of(before)[b]);
            }
            assert forall|i: int| 0 <= i < paths@.len() implies {
                &&& (#[trigger] paths@[i]).0@.len() > 0
                &&& paths@[i].0@[0] == '/'
                &&& operations_wf(paths@[i].1@)
            } by {
                if i != j {
                    assert(paths@[i] == before[i]);
                }
            }
        },
        None => {
            let mut ops: Vec<(String, Operation)> = Vec::new();
            let ghost m0 = method@;
            let ghost o0 = op;
            ops.push((method, op));
            paths.push((path, ops));
            let ghost last = before.len() as int;
            assert(paths@[last].0@ == p0 && paths@[last].1@[0].0@ == m0 && paths@[last].1@[0].1 == o0);
            assert(paths@[last].1@.len() == 1);
            assert(keys_of(paths@) =~= keys_of(before).push(p0));
            proof {
                keys_of(before).lemma_push_to_set_commute(p0);
            }
            assert forall|x: int, k: int|
                0 <= x < paths@.len() && 0 <= k < paths@[x].1@.len() implies {
                &&& (paths@[x].0@ == p0 && (#[trigger] paths@[x].1@[k]).0@ == m0) ==> paths@[x].1@[k].1
                    == o0
                &&& (paths@[x].0@ == p0 && paths@[x].1@[k].0@ == m0) || (x < before.len() && k
                    < before[x].1@.len() && paths@[x].1@[k] == before[x].1@[k])
            } by {
                if x < before.len() {
                    assert(paths@[x] == before[x]);
                    assert(keys_of(before)[x] == before[x].0@);
                }
            }
            assert forall|x: int, k: int|
                0 <= x < before.len() && 0 <= k < before[x].1@.len() implies {
                &&& x < paths@.len()
                &&& k < paths@[x].1@.len()
                &&& paths@[x].0@ == before[x].0@
                &&& (#[trigger] paths@[x].1@[k]).0@ == before[x].1@[k].0@
            } by {
                assert(paths@[x] == before[x]);
            }
            assert forall|a: int, b: int|
                0 <= a < paths@.len() && 0 <= b < paths@.len() && a != b implies #[trigger] paths@[a].0@
                != #[trigger] paths@[b].0@ by {
                if a == before.len() as int {
                    assert(keys_of(before)[b] == before[b].0@);
                }
                if b == before.len() as int {
                    assert(keys_of(before)[a] == before[a].0@);
                }
            }
            assert forall|i: int| 0 <= i < paths@.len() implies {
                &&& (#[trigger] paths@[i]).0@.len() > 0
                &&& paths@[i].0@[0] == '/'
                &&& operations_wf(paths@[i].1@)
            } by {
                if i < before.len() {
                    assert(paths@[i] == before[i]);
                }
            }
        },
    }
}

// ---------------------------------------------------------------- the tree walk

/// An item with a non-empty list of nested items.
pub open spec fn is_folder(item: Item) -> bool {
    item.item is Some && item.item->0@.len() > 0
}

/// A request item that yields an operation: it has a request with a URL.
pub open spec fn is_operation_item(item: Item) -> bool {
    !is_folder(item) && item.request is Some && item.request->0.url is Some
}

/// The folder names in force inside a folder: its name is added unless empty.
pub open spec fn folder_tags(current: Seq<Seq<char>>, name: Option<String>) -> Seq<Seq<char>> {
    match name {
        Some(n) => if n@.len() > 0 {
            current.push(n@)
        } else {
            current
        },
        None => current,
    }
}

/// The folder names that the operations among `items` are tagged with,
/// where `current` are the names in force.
pub open spec fn used_tags(items: Seq<Item>, current: Seq<Seq<char>>) -> Set<Seq<char>>
    decreases items,
{
    if items.len() == 0 {
        Set::empty()
    } else {
        used_tags(items.drop_last(), current).union(item_tags(items.last(), current))
    }
}

/// The folder names that the operations in one item are tagged with.
pub open spec fn item_tags(item: Item, current: Seq<Seq<char>>) -> Set<Seq<char>>
    decreases item,
{
    if is_folder(item) {
        used_tags(item.item->0@, folder_tags(current, item.name))
    } else if is_operation_item(item) {
        current.to_set()
    } else {
        Set::empty()
    }
}

/// A request item reached by the walk, with the folder names in force there.
pub struct Visit {
    pub item: Item,
    pub tags: Seq<Seq<char>>,
}

/// The request items among `items` that yield an operation, in the order
/// the walk reaches them, with the folder names in force for each.
pub open spec fn visits(items: Seq<Item>, current: Seq<Seq<char>>) -> Seq<Visit>
    decreases items,
{
    if items.len() == 0 {
        Seq::empty()
    } else {
        visits(items.drop_last(), current) + item_visits(items.last(), current)
    }
}

/// The request items within one item that yield an operation, in walk order.
pub open spec fn item_visits(item: Item, current: Seq<Seq<char>>) -> Seq<Visit>
    decreases item,
{
    if is_folder(item) {
        visits(item.item->0@, folder_tags(current, item.name))
    } else if is_operation_item(item) {
        seq![Visit { item, tags: current }]
    } else {
        Seq::empty()
    }
}

/// The path template of a visited request item.
pub open spec fn visit_path(v: Visit) -> Seq<char> {
    path_of(list_of(v.item.request->0.url->0.path))
}

/// The method of a visited request item.
pub open spec fn visit_method(v: Visit) -> Seq<char> {
    lower_of(text_or(opt_text(v.item.request->0.method), "GET"@))
}

/// The index of the last visit filed under path `p` and method `m`.
pub open spec fn last_visit(vs: Seq<Visit>, p: Seq<char>, m: Seq<char>) -> Option<int>
    decreases vs.len(),
{
    if vs.len() == 0 {
        None
    } else if visit_path(vs.last()) == p && visit_method(vs.last()) == m {
        Some(vs.len() - 1)
    } else {
        last_visit(vs.drop_last(), p, m)
    }
}

/// The path templates of the visits, each once, in the order first reached.
pub open spec fn first_seen_paths(vs: Seq<Visit>) -> Seq<Seq<char>>
    decreases vs.len(),
{
    if vs.len() == 0 {
        Seq::empty()
    } else {
        let rest = first_seen_paths(vs.drop_last());
        if rest.contains(visit_path(vs.last())) {
            rest
        } else {
            rest.push(visit_path(vs.last()))
        }
    }
}

/// `e` is the operation built for the last visit filed under path `p` and
/// method `e.0`.
pub open spec fn from_last_visit(p: Seq<char>, e: (String, Operation), vs: Seq<Visit>) -> bool {
    match last_visit(vs, p, e.0@) {
        Some(v) => {
            &&& 0 <= v < vs.len()
            &&& operation_is(
                e.1,
                e.0@,
                vs[v].item,
                vs[v].item.request->0,
                vs[v].item.request->0.url->0,
                vs[v].tags,
            )
        },
        None => false,
    }
}

/// Some operation is filed under path `p` and method `m`.
pub open spec fn has_entry(t: Seq<(String, Vec<(String, Operation)>)>, p: Seq<char>, m: Seq<char>) -> bool {
    exists|j: int, k: int|
        0 <= j < t.len() && 0 <= k < t[j].1@.len() && t[j].0@ == p && (#[trigger] t[j].1@[k]).0@ == m
}

/// The table of paths after the visits `vs`: paths in the order first
/// reached; under each path and method, the operation built for the last
/// visit filed there; and an entry for every visit.
pub open spec fn table_matches(t: Seq<(String, Vec<(String, Operation)>)>, vs: Seq<Visit>) -> bool {
    &&& paths_wf(t)
    &&& forall|v: int| 0 <= v < vs.len() ==> is_operation_item((#[trigger] vs[v]).item)
    &&& keys_of(t) == first_seen_paths(vs)
    &&& forall|j: int, k: int|
        0 <= j < t.len() && 0 <= k < t[j].1@.len() ==> from_last_visit(t[j].0@, #[trigger] t[j].1@[k], vs)
    &&& forall|v: int| 0 <= v < vs.len() ==> has_entry(t, visit_path(#[trigger] vs[v]), visit_method(vs[v]))
}

/// Adds the operation of one item that is not a folder, and the names in
/// force to the tags; an item without a request or a URL adds nothing.
fn process_item(
    item: &Item,
    current: &Vec<String>,
    paths: &mut Vec<(String, Vec<(String, Operation)>)>,
    tags: &mut Vec<String>,
    vs: Ghost<Seq<Visit>>,
)
    requires
        !is_folder(*item),
        table_matches(old(paths)@, vs@),
        strictly_sorted(names_of(old(tags)@)),
    ensures
        table_matches(final(paths)@, vs@ + item_visits(*item, names_of(current@))),
        strictly_sorted(names_of(final(tags)@)),
        names_of(final(tags)@).to_set() == names_of(old(tags)@).to_set().union(
            item_tags(*item, names_of(current@)),
        ),
{
    let request = match &item.request {
        Some(r) => r,
        None => {
            assert(names_of(tags@).to_set().union(Set::empty()) =~= names_of(tags@).to_set());
            assert(vs@ + item_visits(*item, names_of(current@)) =~= vs@);
            return;
        },
    };
    let url = match &request.url {
        Some(u) => u,
        None => {
            assert(names_of(tags@).to_set().union(Set::empty()) =~= names_of(tags@).to_set());
            assert(vs@ + item_visits(*item, names_of(current@)) =~= vs@);
            return;
        },
    };
    let (path, method, op) = build_operation(item, request, url, current);
    let ghost t0 = names_of(tags@).to_set();
    let ghost cur = names_of(current@);
    let mut i: usize = 0;
    assert(t0.union(cur.take(0).to_set()) =~= t0);
    while i < current.len()
        invariant
            i <= current@.len(),
            cur == names_of(current@),
            strictly_sorted(names_of(tags@)),
            names_of(tags@).to_set() == t0.union(cur.take(i as int).to_set()),
        decreases current@.len() - i,
    {
        add_tag(tags, &current[i]);
        assert(cur.take(i + 1) =~= cur.take(i as int).push(cur[i as int]));
        proof {
            cur.take(i as int).lemma_push_to_set_commute(cur[i as int]);
        }
        assert(names_of(tags@).to_set() =~= t0.union(cur.take(i + 1).to_set()));
        i = i + 1;
    }
    assert(cur.take(i as int) =~= cur);
    let ghost p0 = path@;
    let ghost m0 = method@;
    let ghost o0 = op;
    let ghost before = paths@;
    add_operation(paths, path, method, op);
    proof {
        let w = Visit { item: *item, tags: cur };
        let vs2 = vs@.push(w);
        assert(vs@ + item_visits(*item, cur) =~= vs2);
        assert(vs2.drop_last() =~= vs@);
        assert(vs2.last() == w);
        assert(visit_path(w) == p0);
        assert(visit_method(w) == m0);
        assert forall|v: int| 0 <= v < vs2.len() implies is_operation_item((#[trigger] vs2[v]).item) by {
            if v < vs@.len() {
                assert(vs2[v] == vs@[v]);
            }
        }
        assert forall|j: int, k: int|
            0 <= j < paths@.len() && 0 <= k < paths@[j].1@.len() implies from_last_visit(
            paths@[j].0@,
            #[trigger] paths@[j].1@[k],
            vs2,
        ) by {
            if paths@[j].0@ == p0 && paths@[j].1@[k].0@ == m0 {
                assert(last_visit(vs2, p0, m0) == Some(vs@.len() as int));
                assert(vs2[vs@.len() as int] == w);
            } else {
                assert(before[j].1@[k] == paths@[j].1@[k]);
                assert(from_last_visit(before[j].0@, before[j].1@[k], vs@));
                assert(paths@[j].1@[k] == before[j].1@[k]);
                assert(paths@[j].0@ == before[j].0@);
                let v = last_visit(vs@, before[j].0@, before[j].1@[k].0@)->0;
                assert(vs2[v] == vs@[v]);
            }
        }
        assert forall|v: int| 0 <= v < vs2.len() implies has_entry(
            paths@,
            visit_path(#[trigger] vs2[v]),
            visit_method(vs2[v]),
        ) by {
            if v < vs@.len() {
                assert(vs2[v] == vs@[v]);
                assert(has_entry(before, visit_path(vs@[v]), visit_method(vs@[v])));
                let (j, k) = choose|j: int, k: int|
                    0 <= j < before.len() && 0 <= k < before[j].1@.len() && before[j].0@ == visit_path(
                        vs@[v],
                    ) && (#[trigger] before[j].1@[k]).0@ == visit_method(vs@[v]);
                assert(paths@[j].1@[k].0@ == before[j].1@[k].0@);
            } else {
                assert(vs2[v] == w);
                let (j, k) = choose|j: int, k: int|
                    0 <= j < paths@.len() && 0 <= k < paths@[j].1@.len() && #[trigger] paths@[j].0@ == p0
                        && #[trigger] paths@[j].1@[k].0@ == m0 && paths@[j].1@[k].1 == o0;
                assert(paths@[j].1@[k].0@ == m0);
            }
        }
    }
}

/// Walks a list of items depth first: folders add their name to the names in
/// force for their children; other items are handed to `process_item`.
fn process_items(
    items: &Vec<Item>,
    current: &Vec<String>,
    paths: &mut Vec<(String, Vec<(String, Operation)>)>,
    tags: &mut Vec<String>,
    vs: Ghost<Seq<Visit>>,
)
    requires
        table_matches(old(paths)@, vs@),
        strictly_sorted(names_of(old(tags)@)),
    ensures
        table_matches(final(paths)@, vs@ + visits(items@, names_of(current@))),
        strictly_sorted(names_of(final(tags)@)),
        names_of(final(tags)@).to_set() == names_of(old(tags)@).to_set().union(
            used_tags(items@, names_of(current@)),
        ),
    decreases items,
{
    let ghost t0 = names_of(tags@).to_set();
    let ghost cur = names_of(current@);
    let mut i: usize = 0;
    assert(t0.union(used_tags(items@.take(0), cur)) =~= t0);
    assert(vs@ + visits(items@.take(0), cur) =~= vs@);
    while i < items.len()
        invariant
            i <= items@.len(),
            cur == names_of(current@),
            table_matches(paths@, vs@ + visits(items@.take(i as int), cur)),
            strictly_sorted(names_of(tags@)),
            names_of(tags@).to_set() == t0.union(used_tags(items@.take(i as int), cur)),
        decreases items@.len() - i,
    {
        let ghost t1 = names_of(tags@).to_set();
        assert(items@.take(i + 1).drop_last() =~= items@.take(i as int));
        assert(items@.take(i + 1).last() == items@[i as int]);
        let item = &items[i];
        let folder = match &item.item {
            Some(sub) => sub.len() > 0,
            None => false,
        };
        assert(folder == is_folder(items@[i as int]));
        assert(used_tags(items@.take(i + 1), cur) == used_tags(items@.take(i as int), cur).union(
            item_tags(items@[i as int], cur),
        ));
        assert(visits(items@.take(i + 1), cur) == visits(items@.take(i as int), cur) + item_visits(
            items@[i as int],
            cur,
        ));
        let ghost vs1 = vs@ + visits(items@.take(i as int), cur);
        assert(vs@ + visits(items@.take(i + 1), cur) =~= vs1 + item_visits(items@[i as int], cur));
        if folder {
            let sub = match &item.item {
                Some(sub) => sub,
                None => {
                    return;
                },
            };
            let mut new_tags = clone_names(current);
            if let Some(name) = &item.name {
                if name.as_str().unicode_len() > 0 {
                    let ghost nt = names_of(new_tags@);
                    new_tags.push(name.clone());
                    assert(names_of(new_tags@) =~= nt.push(name@));
                }
            }
            assert(names_of(new_tags@) == folder_tags(cur, item.name));
            proof {
                assert(decreases_to!(items => items[i as int]));
                assert(decreases_to!(items[i as int] => items[i as int].item));
                assert(decreases_to!(items[i as int].item => items[i as int].item->0));
            }
            process_items(sub, &new_tags, paths, tags, Ghost(vs1));
        } else {
            process_item(item, current, paths, tags, Ghost(vs1));
        }
        assert(names_of(tags@).to_set() =~= t0.union(used_tags(items@.take(i + 1), cur)));
        i = i + 1;
    }
    assert(items@.take(i as int) =~= items@);
}

// ---------------------------------------------------------------- the document

/// The document's paths after the visits `vs`: paths in the order first
/// reached; under each path and method, the operation built for the last
/// visit filed there; and an operation for every visit.
pub open spec fn document_matches(m: IndexMap<String, IndexMap<String, Operation>>, vs: Seq<Visit>) -> bool {
    &&& keys_of(path_entries(m)) == first_seen_paths(vs)
    &&& forall|j: int, k: int|
        0 <= j < path_entries(m).len() && 0 <= k < operation_entries(path_entries(m)[j].1).len()
            ==> from_last_visit(
            path_entries(m)[j].0@,
            #[trigger] operation_entries(path_entries(m)[j].1)[k],
            vs,
        )
    &&& forall|v: int|
        0 <= v < vs.len() ==> exists|j: int, k: int|
            0 <= j < path_entries(m).len() && 0 <= k < operation_entries(path_entries(m)[j].1).len()
                && path_entries(m)[j].0@ == visit_path(#[trigger] vs[v])
                && operation_entries(path_entries(m)[j].1)[k].0@ == visit_method(vs[v])
}

/// In a document built from the visits `vs`, no operation filed under the
/// method `get` or `delete` has a request body.
pub proof fn lemma_get_and_delete_have_no_body(
    m: IndexMap<String, IndexMap<String, Operation>>,
    vs: Seq<Visit>,
    j: int,
    k: int,
)
    requires
        document_matches(m, vs),
        0 <= j < path_entries(m).len(),
        0 <= k < operation_entries(path_entries(m)[j].1).len(),
        operation_entries(path_entries(m)[j].1)[k].0@ == "get"@
            || operation_entries(path_entries(m)[j].1)[k].0@ == "delete"@,
    ensures
        operation_entries(path_entries(m)[j].1)[k].1.request_body is None,
{
    assert(from_last_visit(
        path_entries(m)[j].0@,
        operation_entries(path_entries(m)[j].1)[k],
        vs,
    ));
}

/// In a document built from the visits `vs`, the operation of a request item
/// without sample responses has a single `200` response described `OK`, with
/// no content.
pub proof fn lemma_no_samples_default_response(
    m: IndexMap<String, IndexMap<String, Operation>>,
    vs: Seq<Visit>,
    j: int,
    k: int,
    v: int,
)
    requires
        document_matches(m, vs),
        0 <= j < path_entries(m).len(),
        0 <= k < operation_entries(path_entries(m)[j].1).len(),
        last_visit(vs, path_entries(m)[j].0@, operation_entries(path_entries(m)[j].1)[k].0@) == Some(v),
        list_of(vs[v].item.response).len() == 0,
    ensures
        response_entries(operation_entries(path_entries(m)[j].1)[k].1.responses).len() == 1,
        response_entries(operation_entries(path_entries(m)[j].1)[k].1.responses)[0].0@ == "200"@,
        response_entries(operation_entries(path_entries(m)[j].1)[k].1.responses)[0].1.description@
            == "OK"@,
        response_entries(operation_entries(path_entries(m)[j].1)[k].1.responses)[0].1.content@.len()
            == 0,
{
    assert(from_last_visit(
        path_entries(m)[j].0@,
        operation_entries(path_entries(m)[j].1)[k],
        vs,
    ));
}

/// Hands the finished table of paths over to `IndexMap`s, keeping its order.
fn paths_into_table(paths: Vec<(String, Vec<(String, Operation)>)>) -> (r: IndexMap<
    String,
    IndexMap<String, Operation>,
>)
    requires
        paths_wf(paths@),
    ensures
        keys_of(path_entries(r)) == keys_of(paths@),
        path_entries(r).len() == paths@.len(),
        forall|i: int|
            0 <= i < paths@.len() ==> {
                &&& (#[trigger] path_entries(r)[i]).0 == paths@[i].0
                &&& operation_entries(path_entries(r)[i].1) == paths@[i].1@
            },
        keys_unique(path_entries(r)),
        forall|i: int|
            0 <= i < path_entries(r).len() ==> {
                &&& (#[trigger] path_entries(r)[i]).0@.len() > 0
                &&& path_entries(r)[i].0@[0] == '/'
                &&& operations_wf(operation_entries(path_entries(r)[i].1))
            },
{
    let mut rest = paths;
    let ghost orig = rest@;
    let ghost n = orig.len();
    let mut out: Vec<(String, IndexMap<String, Operation>)> = Vec::new();
    while rest.len() > 0
        invariant
            rest@ == orig.subrange(n - rest@.len(), n as int),
            rest@.len() <= n,
            n == orig.len(),
            paths_wf(orig),
            out@.len() == n - rest@.len(),
            forall|i: int|
                0 <= i < out@.len() ==> {
                    &&& (#[trigger] out@[i]).0 == orig[i].0
                    &&& operation_entries(out@[i].1) == orig[i].1@
                },
        decreases rest@.len(),
    {
        let ghost q = n - rest@.len();
        let (p, ops) = rest.remove(0);
        assert(orig[q] == (p, ops));
        let table = operations_table(ops);
        out.push((p, table));
    }
    assert(keys_of(out@) =~= keys_of(orig));
    assert forall|a: int, b: int|
        0 <= a < out@.len() && 0 <= b < out@.len() && a != b implies #[trigger] out@[a].0@
        != #[trigger] out@[b].0@ by {
        assert(orig[a].0@ != orig[b].0@);
    }
    assert forall|i: int| 0 <= i < out@.len() implies {
        &&& (#[trigger] out@[i]).0@.len() > 0
        &&& out@[i].0@[0] == '/'
        &&& operations_wf(operation_entries(out@[i].1))
    } by {
        assert(out@[i].0 == orig[i].0);
    }
    paths_table(out)
}

/// The title of the document: the collection's name, or `API Documentation`.
pub open spec fn title_of(c: PostmanCollection) -> Seq<char> {
    match c.info {
        Some(i) => text_or(opt_text(i.name), "API Documentation"@),
        None => "API Documentation"@,
    }
}

/// The description of the document: the collection's, or empty.
pub open spec fn description_of(c: PostmanCollection) -> Seq<char> {
    match c.info {
        Some(i) => text_or(opt_text(i.description), ""@),
        None => ""@,
    }
}

/// The names of a tag list.
pub open spec fn tag_names(ts: Seq<Tag>) -> Seq<Seq<char>> {
    ts.map_values(|t: Tag| t.name@)
}

/// Converts a Postman collection into an OpenAPI 3.0 document. The tag list
/// is strictly ascending and holds exactly the folder names that some
/// operation was tagged with.
pub fn convert_postman_to_openapi(postman_collection: &PostmanCollection) -> (r: OpenAPISpec)
    ensures
        r.openapi@ == "3.0.0"@,
        r.info.title@ == title_of(*postman_collection),
        r.info.description@ == description_of(*postman_collection),
        r.info.version@ == "1.0.0"@,
        schema_entries(r.components.schemas).len() == 0,
        keys_unique(path_entries(r.paths)),
        forall|i: int|
            0 <= i < path_entries(r.paths).len() ==> {
                &&& (#[trigger] path_entries(r.paths)[i]).0@.len() > 0
                &&& path_entries(r.paths)[i].0@[0] == '/'
                &&& operations_wf(operation_entries(path_entries(r.paths)[i].1))
            },
        strictly_sorted(tag_names(r.tags@)),
        tag_names(r.tags@).no_duplicates(),
        tag_names(r.tags@).to_set() == used_tags(list_of(postman_collection.item), Seq::empty()),
        document_matches(r.paths, visits(list_of(postman_collection.item), Seq::empty())),
{
    let (title, description) = match &postman_collection.info {
        Some(info) => (
            text_or_default(&info.name, "API Documentation"),
            text_or_default(&info.description, ""),
        ),
        None => (String::from_str("API Documentation"), String::from_str("")),
    };
    let mut paths: Vec<(String, Vec<(String, Operation)>)> = Vec::new();
    let mut names: Vec<String> = Vec::new();
    let root: Vec<String> = Vec::new();
    assert(names_of(root@) =~= Seq::<Seq<char>>::empty());
    assert(names_of(names@).to_set() =~= Set::<Seq<char>>::empty());
    assert(keys_of(paths@) =~= first_seen_paths(Seq::<Visit>::empty()));
    assert(table_matches(paths@, Seq::<Visit>::empty()));
    let ghost vs = visits(list_of(postman_collection.item), Seq::empty());
    match &postman_collection.item {
        Some(items) => {
            process_items(items, &root, &mut paths, &mut names, Ghost(Seq::<Visit>::empty()));
            assert(Seq::<Visit>::empty() + visits(items@, Seq::empty()) =~= vs);
            assert(Set::<Seq<char>>::empty().union(used_tags(items@, Seq::empty())) =~= used_tags(
                items@,
                Seq::empty(),
            ));
        },
        None => {
            assert(used_tags(Seq::<Item>::empty(), Seq::empty()) =~= Set::<Seq<char>>::empty());
            assert(vs =~= Seq::<Visit>::empty());
        },
    }
    let mut tags: Vec<Tag> = Vec::new();
    let mut i: usize = 0;
    while i < names.len()
        invariant
            i <= names@.len(),
            tag_names(tags@) == names_of(names@).take(i as int),
            table_matches(paths@, vs),
        decreases names@.len() - i,
    {
        let ghost before = tags@;
        tags.push(Tag { name: names[i].clone() });
        assert(tag_names(tags@) =~= tag_names(before).push(names@[i as int]@));
        assert(tag_names(tags@) =~= names_of(names@).take(i + 1));
        i = i + 1;
    }
    assert(names_of(names@).take(i as int) =~= names_of(names@));
    proof {
        lemma_strictly_sorted_distinct(tag_names(tags@));
    }
    let ghost t = paths@;
    let table = paths_into_table(paths);
    proof {
        let e = path_entries(table);
        assert forall|j: int, k: int|
            0 <= j < e.len() && 0 <= k < operation_entries(e[j].1).len() implies from_last_visit(
            e[j].0@,
            #[trigger] operation_entries(e[j].1)[k],
            vs,
        ) by {
            assert(e[j].0 == t[j].0);
            assert(operation_entries(e[j].1) == t[j].1@);
            assert(from_last_visit(t[j].0@, t[j].1@[k], vs));
        }
        assert forall|v: int| 0 <= v < vs.len() implies exists|j: int, k: int|
            0 <= j < e.len() && 0 <= k < operation_entries(e[j].1).len() && e[j].0@ == visit_path(
                #[trigger] vs[v],
            ) && operation_entries(e[j].1)[k].0@ == visit_method(vs[v]) by {
            assert(has_entry(t, visit_path(vs[v]), visit_method(vs[v])));
            let (j, k) = choose|j: int, k: int|
                0 <= j < t.len() && 0 <= k < t[j].1@.len() && t[j].0@ == visit_path(vs[v]) && (
                #[trigger] t[j].1@[k]).0@ == visit_method(vs[v]);
            assert(e[j].0 == t[j].0);
            assert(operation_entries(e[j].1) == t[j].1@);
        }
    }
    OpenAPISpec {
        openapi: String::from_str("3.0.0"),
        info: OpenAPIInfo { title, description, version: String::from_str("1.0.0") },
        paths: table,
        components: Components { schemas: empty_schemas() },
        tags,
    }
}

} // verus!
