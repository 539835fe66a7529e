use serde_path::doc::{Node, Scalar};
use serde_path::engine::to_json;
use serde_path::fragment::Fragment;
use serde_path::json::{JsonField, JsonFieldIndex, JsonPath};
use serde_path::query::{
    Chain, Const, Final, Iter, MapEach, MapSelect, MapValues, MultiMap, MultiVec, NotEq, Query,
    Select,
};
use serde_path::semantics::{Cause, QueryError};

fn uint(u: u64) -> Node {
    Node::Scalar(Scalar::U64(u))
}

fn text(s: &str) -> Node {
    Node::Scalar(Scalar::Str(s.to_string()))
}

fn arr(items: Vec<Node>) -> Node {
    Node::Array(items)
}

fn obj(entries: Vec<(&str, Node)>) -> Node {
    Node::Object(entries.into_iter().map(|(k, v)| (k.to_string(), v)).collect())
}

fn key(k: &str) -> Query {
    Query::Key(k.to_string())
}

fn path(steps: Vec<Query>) -> Query {
    Query::Iter(Iter(steps))
}

fn compact(n: &Node) -> String {
    to_json(n).unwrap().split_whitespace().collect::<Vec<_>>().join("")
}

/// {"a":1,"b":{"c":[2,3,4]},"d":5}
fn small_doc() -> Node {
    obj(vec![
        ("a", uint(1)),
        ("b", obj(vec![("c", arr(vec![uint(2), uint(3), uint(4)]))])),
        ("d", uint(5)),
    ])
}

/// {"a":1,"b":{"c":[2,3,4],"d":[5]},"e":6}
fn branch_doc() -> Node {
    obj(vec![
        ("a", uint(1)),
        (
            "b",
            obj(vec![
                ("c", arr(vec![uint(2), uint(3), uint(4)])),
                ("d", arr(vec![uint(5)])),
            ]),
        ),
        ("e", uint(6)),
    ])
}

fn branch_path() -> JsonPath {
    JsonPath(vec![
        JsonField::Index(JsonFieldIndex::from_key("b")),
        JsonField::List(MultiVec(vec![
            JsonPath(vec![
                JsonField::Index(JsonFieldIndex::from_key("c")),
                JsonField::Index(JsonFieldIndex::from_index(1)),
            ]),
            JsonPath(vec![
                JsonField::Index(JsonFieldIndex::from_key("d")),
                JsonField::Index(JsonFieldIndex::from_index(0)),
            ]),
        ])),
    ])
}

#[test]
fn it_works() {
    let q = path(vec![key("b"), key("c"), Query::Index(1)]);
    let out = q.filter_to_json(&small_doc()).unwrap().unwrap();
    assert_eq!(out, "3");
}

#[test]
fn json_list() {
    let fields = branch_path().filter(&branch_doc()).unwrap();
    assert_eq!(compact(&fields), "[3,5]");
}

#[test]
fn list_streaming() {
    let fields = branch_path().filter(&branch_doc()).unwrap();
    let output = to_json(&fields).unwrap();
    assert_eq!(output, "[\n  3,\n  5\n]");
}

#[test]
fn multi_list() {
    let q = path(vec![
        key("b"),
        Query::MultiVec(MultiVec(vec![
            path(vec![key("c"), Query::Index(1)]),
            path(vec![key("d"), Query::Index(0)]),
        ])),
    ]);
    let fields = q.filter(&branch_doc()).unwrap().unwrap();
    match fields {
        Node::Array(items) => {
            assert_eq!(items.len(), 2);
            assert_eq!(to_json(&items[0]).unwrap(), "3");
            assert_eq!(to_json(&items[1]).unwrap(), "5");
        },
        _ => panic!("expected an array"),
    }
}

#[test]
fn map() {
    let q = path(vec![
        key("b"),
        Query::MultiMap(MultiMap(vec![
            ("one".to_string(), path(vec![key("c"), Query::Index(1)])),
            ("two".to_string(), path(vec![key("d"), Query::Index(0)])),
        ])),
    ]);
    let fields = q.filter(&branch_doc()).unwrap().unwrap();
    match fields {
        Node::Object(entries) => {
            assert_eq!(entries.len(), 2);
            assert_eq!(entries[0].0, "one");
            assert_eq!(to_json(&entries[0].1).unwrap(), "3");
            assert_eq!(entries[1].0, "two");
            assert_eq!(to_json(&entries[1].1).unwrap(), "5");
        },
        _ => panic!("expected an object"),
    }
}

#[test]
fn point_selection() {
    let q = Query::Chain(Chain {
        filter: Box::new(key("b")),
        seed: Box::new(Query::Chain(Chain {
            filter: Box::new(key("c")),
            seed: Box::new(Query::Index(1)),
        })),
    });
    let out = q.filter(&small_doc()).unwrap().unwrap();
    assert_eq!(compact(&out), "3");
}

#[test]
fn multi_branch_list() {
    let q = path(vec![
        key("b"),
        Query::MultiVec(MultiVec(vec![
            path(vec![key("c"), Query::Index(1)]),
            path(vec![key("d"), Query::Index(0)]),
        ])),
    ]);
    let out = q.filter_to_json(&branch_doc()).unwrap().unwrap();
    assert_eq!(out, "[\n  3,\n  5\n]");
}

#[test]
fn multi_branch_map() {
    let q = path(vec![
        key("b"),
        Query::MultiMap(MultiMap(vec![
            ("one".to_string(), path(vec![key("c"), Query::Index(1)])),
            ("two".to_string(), path(vec![key("d"), Query::Index(0)])),
        ])),
    ]);
    let out = q.filter_to_json(&branch_doc()).unwrap().unwrap();
    assert_eq!(out, "{\n  \"one\": 3,\n  \"two\": 5\n}");
}

fn trace_doc() -> Node {
    obj(vec![(
        "traceEvents",
        arr(vec![obj(vec![("ph", text("X"))]), obj(vec![("ph", text("M"))])]),
    )])
}

#[test]
fn predicate_streaming() {
    let q = path(vec![
        key("traceEvents"),
        Query::MapSelect(MapSelect(NotEq::new(key("ph"), Scalar::Str("X".to_string())))),
    ]);
    let out = q.filter(&trace_doc()).unwrap().unwrap();
    assert_eq!(compact(&out), "[{\"ph\":\"M\"}]");
}

#[test]
fn map_of_select_drops_filtered_elements() {
    let q = path(vec![
        key("traceEvents"),
        Query::Each(MapEach(Box::new(Query::Select(Select(NotEq::new(
            key("ph"),
            Scalar::Str("X".to_string()),
        )))))),
    ]);
    let out = q.filter_to_json(&trace_doc()).unwrap().unwrap();
    assert_eq!(out, "[\n  {\n    \"ph\": \"M\"\n  }\n]");
}

#[test]
fn missing_field() {
    let doc = obj(vec![("a", uint(1))]);
    assert_eq!(key("b").filter(&doc).unwrap_err(), QueryError::MissingField);
}

#[test]
fn duplicate_key() {
    let doc = obj(vec![("b", uint(1)), ("b", uint(2))]);
    assert_eq!(key("b").filter(&doc).unwrap_err(), QueryError::DuplicateField);
}

#[test]
fn index_past_the_end_is_missing() {
    let doc = arr(vec![uint(1)]);
    assert_eq!(Query::Index(1).filter(&doc).unwrap_err(), QueryError::MissingField);
}

#[test]
fn key_on_array_is_type_mismatch() {
    let doc = arr(vec![uint(1)]);
    assert_eq!(key("a").filter(&doc).unwrap_err(), QueryError::TypeMismatch);
    assert_eq!(Query::Index(0).filter(&uint(1)).unwrap_err(), QueryError::TypeMismatch);
}

#[test]
fn predicate_on_other_kind_fails() {
    let doc = arr(vec![obj(vec![("ph", uint(3))])]);
    let q = Query::MapSelect(MapSelect(NotEq::new(key("ph"), Scalar::Str("X".to_string()))));
    assert_eq!(q.filter(&doc).unwrap_err(), QueryError::Predicate(Cause::TypeMismatch));
    let q = Query::MapSelect(MapSelect(NotEq::new(key("nope"), Scalar::Str("X".to_string()))));
    assert_eq!(q.filter(&doc).unwrap_err(), QueryError::Predicate(Cause::MissingField));
}

#[test]
fn select_that_fails_yields_nothing() {
    let doc = obj(vec![("ph", text("X"))]);
    let q = Query::Select(Select(NotEq::new(key("ph"), Scalar::Str("X".to_string()))));
    assert!(q.filter(&doc).unwrap().is_none());
    assert!(q.filter_to_json(&doc).unwrap().is_none());
    let q = Query::Select(Select(NotEq::new(key("ph"), Scalar::Str("Y".to_string()))));
    assert_eq!(compact(&q.filter(&doc).unwrap().unwrap()), "{\"ph\":\"X\"}");
}

#[test]
fn integers_compare_by_value() {
    let doc = obj(vec![("n", Node::Scalar(Scalar::I64(5)))]);
    let q = Query::Select(Select(NotEq::new(key("n"), Scalar::U64(5))));
    assert!(q.filter(&doc).unwrap().is_none());
}

#[test]
fn round_trip() {
    let doc = obj(vec![
        ("s", text("a \"quoted\" word\n")),
        ("n", Node::Scalar(Scalar::I64(-12))),
        ("f", Node::Scalar(Scalar::Float("1.5".to_string()))),
        ("t", Node::Scalar(Scalar::Bool(true))),
        ("z", Node::Scalar(Scalar::Null)),
        ("e", arr(vec![])),
        ("o", obj(vec![])),
        ("big", uint(18446744073709551615)),
    ]);
    let direct = to_json(&doc).unwrap();
    let through = Query::Final(Final).filter_to_json(&doc).unwrap().unwrap();
    assert_eq!(direct, through);
    assert_eq!(
        direct,
        "{\n  \"s\": \"a \\\"quoted\\\" word\\n\",\n  \"n\": -12,\n  \"f\": 1.5,\n  \"t\": true,\n  \"z\": null,\n  \"e\": [],\n  \"o\": {},\n  \"big\": 18446744073709551615\n}"
    );
}

#[test]
fn replay_is_deterministic() {
    let doc = branch_doc();
    let q = path(vec![key("b"), key("c"), Query::Index(2)]);
    let borrowed = Fragment::borrow(&doc);
    let owned: Fragment = Fragment::capture(&doc);
    let mut seen = Vec::new();
    for _ in 0..3 {
        seen.push(compact(&q.filter(borrowed.get()).unwrap().unwrap()));
        seen.push(compact(&q.filter(owned.get()).unwrap().unwrap()));
    }
    assert!(seen.iter().all(|s| s == "4"));
}

#[test]
fn multi_vec_keeps_query_order() {
    let doc = obj(vec![("z", uint(26)), ("a", uint(1))]);
    let q = Query::MultiVec(MultiVec(vec![key("a"), key("z"), key("a")]));
    assert_eq!(compact(&q.filter(&doc).unwrap().unwrap()), "[1,26,1]");
}

#[test]
fn multi_vec_fails_fast() {
    let doc = obj(vec![("a", uint(1))]);
    let q = Query::MultiVec(MultiVec(vec![key("a"), key("b")]));
    assert_eq!(q.filter(&doc).unwrap_err(), QueryError::MissingField);
}

#[test]
fn map_each_and_map_values_on_objects() {
    let doc = obj(vec![("x", obj(vec![("v", uint(1))])), ("y", obj(vec![("v", uint(2))]))]);
    let each = Query::Each(MapEach(Box::new(key("v"))));
    assert_eq!(compact(&each.filter(&doc).unwrap().unwrap()), "[1,2]");
    let values = Query::MapValues(MapValues(Box::new(key("v"))));
    assert_eq!(compact(&values.filter(&doc).unwrap().unwrap()), "{\"x\":1,\"y\":2}");
    let on_array = Query::MapValues(MapValues(Box::new(Query::Index(0))));
    let doc = arr(vec![arr(vec![uint(7)]), arr(vec![uint(8)])]);
    assert_eq!(compact(&on_array.filter(&doc).unwrap().unwrap()), "[7,8]");
}

#[test]
fn map_select_on_object_keeps_keys() {
    let doc = obj(vec![("p", text("X")), ("q", text("Y"))]);
    let q = Query::MapSelect(MapSelect(NotEq::new(Query::Final(Final), Scalar::Str("X".to_string()))));
    assert_eq!(compact(&q.filter(&doc).unwrap().unwrap()), "{\"q\":\"Y\"}");
}

#[test]
fn const_and_empty_iter() {
    let doc = uint(9);
    let c = Query::Const(Const(text("k")));
    assert_eq!(c.filter_to_json(&doc).unwrap().unwrap(), "\"k\"");
    let id = path(vec![]);
    assert_eq!(id.filter_to_json(&doc).unwrap().unwrap(), "9");
}

#[test]
fn json_path_object_branch() {
    let p = JsonPath(vec![
        JsonField::Index(JsonFieldIndex::from_key("b")),
        JsonField::Object(MultiMap(vec![
            ("one".to_string(), JsonPath(vec![JsonField::Index(JsonFieldIndex::from_key("c"))])),
            ("two".to_string(), JsonPath(vec![JsonField::Index(JsonFieldIndex::from_key("d"))])),
        ])),
        JsonField::Index(JsonFieldIndex::from_index(0)),
    ]);
    let out = p.filter(&branch_doc()).unwrap();
    assert_eq!(compact(&out), "{\"one\":2,\"two\":5}");
}

#[test]
fn strings_are_escaped() {
    let doc = text("tab\there \u{1} back\\slash \u{8}\u{c}\r \u{7f} é");
    assert_eq!(
        to_json(&doc).unwrap(),
        "\"tab\\there \\u0001 back\\\\slash \\b\\f\\r \u{7f} é\""
    );
    let doc = text("\u{1f}");
    assert_eq!(to_json(&doc).unwrap(), "\"\\u001f\"");
}

#[test]
fn borrowed_capture_is_not_a_copy() {
    let doc = branch_doc();
    match Fragment::borrow(&doc) {
        Fragment::Borrowed(n) => assert!(std::ptr::eq(n, &doc)),
        Fragment::Owned(_) => panic!("expected a borrowed capture"),
    }
    assert!(matches!(Fragment::capture(&doc), Fragment::Owned(_)));
}

#[test]
fn nested_layout() {
    let doc = obj(vec![("a", arr(vec![obj(vec![("b", arr(vec![]))]), uint(0)]))]);
    assert_eq!(
        to_json(&doc).unwrap(),
        "{\n  \"a\": [\n    {\n      \"b\": []\n    },\n    0\n  ]\n}"
    );
}
