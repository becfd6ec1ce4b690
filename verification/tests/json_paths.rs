use curlu::http::{pretty_print_json, response_body_text};
use curlu::json::{apply_json_filter, apply_json_path, filter_recursive, parse_path_segments, JsonValue, PathSegment};
use serde_json::Value;

fn to_lib(v: &Value) -> JsonValue {
    match v {
        Value::Null => JsonValue::Null,
        Value::Bool(b) => JsonValue::Bool(*b),
        Value::Number(n) => JsonValue::Number(n.to_string()),
        Value::String(s) => JsonValue::Str(s.clone()),
        Value::Array(a) => JsonValue::Array(a.iter().map(to_lib).collect()),
        Value::Object(o) => {
            JsonValue::Object(o.iter().map(|(k, v)| (k.clone(), to_lib(v))).collect())
        }
    }
}

fn from_lib(v: &JsonValue) -> Value {
    match v {
        JsonValue::Null => Value::Null,
        JsonValue::Bool(b) => Value::Bool(*b),
        JsonValue::Number(n) => serde_json::from_str(n).unwrap(),
        JsonValue::Str(s) => Value::String(s.clone()),
        JsonValue::Array(a) => Value::Array(a.iter().map(from_lib).collect()),
        JsonValue::Object(o) => {
            let mut m = serde_json::Map::new();
            for (k, v) in o {
                m.insert(k.clone(), from_lib(v));
            }
            Value::Object(m)
        }
    }
}

fn filter(json: &str, path: &str) -> Option<Value> {
    let root: Value = serde_json::from_str(json).unwrap();
    apply_json_path(&to_lib(&root), path).map(|v| from_lib(&v))
}

fn seg_text(s: &PathSegment) -> String {
    match s {
        PathSegment::Key(k) => format!("K({k})"),
        PathSegment::Index(i) => format!("I({i})"),
        PathSegment::Wildcard => "*".to_string(),
    }
}

fn segs(path: &str) -> Vec<String> {
    parse_path_segments(path).iter().map(seg_text).collect()
}

#[test]
fn path_segments_of_the_documented_examples() {
    assert_eq!(segs("data.user.id"), vec!["K(data)", "K(user)", "K(id)"]);
    assert_eq!(segs("data[*].id"), vec!["K(data)", "*", "K(id)"]);
    assert_eq!(segs("results[0].name"), vec!["K(results)", "I(0)", "K(name)"]);
    assert_eq!(segs("$.items[*].tags[0]"), vec!["K(items)", "*", "K(tags)", "I(0)"]);
}

#[test]
fn path_segments_edge_cases() {
    assert!(segs("").is_empty());
    assert!(segs("  $  ").is_empty());
    assert!(segs("$...").is_empty());
    assert_eq!(segs("..a..b."), vec!["K(a)", "K(b)"]);
    assert_eq!(segs("a[x].b"), vec!["K(a)", "K(b)"]);
    assert_eq!(segs("a[+3]"), vec!["K(a)", "I(3)"]);
    assert_eq!(segs("a[-1]"), vec!["K(a)"]);
    assert_eq!(segs("a[2"), vec!["K(a)", "I(2)"]);
    assert_eq!(segs("a[1][2]"), vec!["K(a)", "I(1)", "I(2)"]);
    assert_eq!(segs("[*]"), vec!["*"]);
    assert_eq!(segs("a b"), vec!["K(a b)"]);
}

fn v(s: &str) -> Value {
    serde_json::from_str(s).unwrap()
}

#[test]
fn filter_by_keys_keeps_the_hierarchy() {
    let j = r#"{"data":{"user":{"id":7,"name":"x"},"other":1},"top":true}"#;
    assert_eq!(filter(j, "data.user.id"), Some(v(r#"{"data":{"user":{"id":7}}}"#)));
    assert_eq!(filter(j, "top"), Some(v(r#"{"top":true}"#)));
    assert_eq!(filter(j, "data.missing"), None);
    assert_eq!(filter(j, "top.deeper"), None);
}

#[test]
fn filter_with_wildcard_maps_over_elements() {
    let j = r#"{"data":[{"id":1,"a":0},{"b":2},{"id":3}]}"#;
    assert_eq!(filter(j, "data[*].id"), Some(v(r#"{"data":[{"id":1},{"id":3}]}"#)));
    assert_eq!(filter(j, "data[*].zzz"), None);
    assert_eq!(filter(r#"{"data":{"id":1}}"#, "data[*]"), None);
    assert_eq!(filter(r#"{"data":[]}"#, "data[*]"), None);
}

#[test]
fn filter_with_index_keeps_one_element() {
    let j = r#"{"results":[{"name":"a","x":1},{"name":"b"}]}"#;
    assert_eq!(filter(j, "results[0].name"), Some(v(r#"{"results":[{"name":"a"}]}"#)));
    assert_eq!(filter(j, "results[1]"), Some(v(r#"{"results":[{"name":"b"}]}"#)));
    assert_eq!(filter(j, "results[2]"), None);
    assert_eq!(filter(j, "results.name"), None);
}

#[test]
fn filter_of_the_nested_example() {
    let j = r#"{"items":[{"tags":["a","b"]},{"tags":[]},{"tags":["c"]},{"n":1}]}"#;
    assert_eq!(filter(j, "$.items[*].tags[0]"), Some(v(r#"{"items":[{"tags":["a"]},{"tags":["c"]}]}"#)));
}

#[test]
fn empty_path_gives_the_whole_value() {
    let j = r#"{"a":[1,2.5,"x",null,false]}"#;
    assert_eq!(filter(j, ""), Some(v(j)));
    assert_eq!(filter(j, " $. "), Some(v(j)));
    assert_eq!(filter("3", "$"), Some(v("3")));
}

#[test]
fn filtering_a_filtered_value_again_changes_nothing() {
    let j = r#"{"items":[{"tags":["a","b"],"k":1},{"tags":["c"]}],"z":0}"#;
    let once = filter(j, "items[*].tags[0]").unwrap();
    let twice = filter(&once.to_string(), "items[*].tags[0]").unwrap();
    assert_eq!(once, twice);
    let once = filter(j, "items[1]").unwrap();
    assert_eq!(once, v(r#"{"items":[{"tags":["c"]}]}"#));
    assert_eq!(filter(&once.to_string(), "items[1]"), None);
}

#[test]
fn filter_recursive_on_segments() {
    let root = to_lib(&v(r#"{"a":{"b":[10,20]}}"#));
    let segs = vec![PathSegment::Key("a".to_string()), PathSegment::Key("b".to_string()), PathSegment::Index(1)];
    let r = filter_recursive(&root, &segs).map(|x| from_lib(&x));
    assert_eq!(r, Some(v(r#"{"a":{"b":[20]}}"#)));
    let r = filter_recursive(&root, &[]).map(|x| from_lib(&x));
    assert_eq!(r, Some(v(r#"{"a":{"b":[10,20]}}"#)));
}

#[test]
fn duplicate_keys_take_the_first_entry() {
    let root = JsonValue::Object(vec![
        ("k".to_string(), JsonValue::Number("1".to_string())),
        ("k".to_string(), JsonValue::Number("2".to_string())),
    ]);
    let r = apply_json_path(&root, "k").map(|x| from_lib(&x));
    assert_eq!(r, Some(v(r#"{"k":1}"#)));
}

#[test]
fn pretty_print_json_formats_or_refuses() {
    assert_eq!(pretty_print_json("  {\"b\":1,\"a\":[true,null]}  ").as_deref(), Some("{\n  \"a\": [\n    true,\n    null\n  ],\n  \"b\": 1\n}"));
    assert_eq!(pretty_print_json("[]").as_deref(), Some("[]"));
    assert_eq!(pretty_print_json("{oops").as_deref(), None);
    assert_eq!(pretty_print_json("").as_deref(), None);
}

#[test]
fn response_body_is_pretty_when_json() {
    assert_eq!(response_body_text("{\"x\":1}"), "{\n  \"x\": 1\n}");
    assert_eq!(response_body_text("plain text"), "plain text");
    assert_eq!(response_body_text(" 1 "), "1");
}

#[test]
fn apply_json_filter_on_text() {
    let body = "  {\"data\":{\"user\":{\"id\":7,\"name\":\"x\"}},\"n\":[1.5,2]}  ";
    assert_eq!(
        apply_json_filter(body, "data.user.id").as_deref(),
        Some("{\n  \"data\": {\n    \"user\": {\n      \"id\": 7\n    }\n  }\n}")
    );
    assert_eq!(apply_json_filter(body, "n[0]").as_deref(), Some("{\n  \"n\": [\n    1.5\n  ]\n}"));
    assert_eq!(apply_json_filter(body, "missing"), None);
    assert_eq!(apply_json_filter("{oops", "a"), None);
    assert_eq!(apply_json_filter("[3, {\"b\":1, \"a\":2}]", "").as_deref(), Some("[\n  3,\n  {\n    \"a\": 2,\n    \"b\": 1\n  }\n]"));
}
