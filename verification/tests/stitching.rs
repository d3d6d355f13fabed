use serde_json::Value;
use sutures::error::Error;
use sutures::json::JsonValue;
use sutures::manifest::load;
use sutures::schema::{Direction, RawSutureSet, SutureSchema};
use sutures::suture::Suture;

fn from_json(v: &Value) -> JsonValue {
    match v {
        Value::Null => JsonValue::Null,
        Value::Bool(b) => JsonValue::Bool(*b),
        Value::Number(n) => JsonValue::Number(n.to_string()),
        Value::String(s) => JsonValue::String(s.clone()),
        Value::Array(items) => JsonValue::Array(items.iter().map(from_json).collect()),
        Value::Object(m) => JsonValue::Object(m.iter().map(|(k, v)| (k.clone(), from_json(v))).collect()),
    }
}

fn to_json(v: &JsonValue) -> Value {
    match v {
        JsonValue::Null => Value::Null,
        JsonValue::Bool(b) => Value::Bool(*b),
        JsonValue::Number(n) => serde_json::from_str(n).unwrap(),
        JsonValue::String(s) => Value::String(s.clone()),
        JsonValue::Array(items) => Value::Array(items.iter().map(to_json).collect()),
        JsonValue::Object(es) => {
            let mut m = serde_json::Map::new();
            for (k, v) in es {
                m.insert(k.clone(), to_json(v));
            }
            Value::Object(m)
        }
    }
}

fn doc(text: &str) -> JsonValue {
    from_json(&serde_json::from_str::<Value>(text).unwrap())
}

fn opt_str(v: &Value, key: &str) -> Option<String> {
    v.get(key).and_then(Value::as_str).map(str::to_string)
}

fn schema(text: &str) -> SutureSchema {
    let v: Value = serde_json::from_str(text).unwrap();
    let sets = v["suture_sets"]
        .as_array()
        .unwrap()
        .iter()
        .map(|s| RawSutureSet {
            id: opt_str(s, "id"),
            name: s["name"].as_str().unwrap().to_string(),
            description: opt_str(s, "description"),
            version: opt_str(s, "version"),
            capture_direction: match s["capture"].as_str().unwrap() {
                "request" => Direction::Request,
                _ => Direction::Response,
            },
            sutures: s["sutures"].as_array().unwrap().iter().map(from_json).collect(),
        })
        .collect();
    SutureSchema { name: v["name"].as_str().unwrap().to_string(), suture_sets: sets }
}

fn sutures(text: &str) -> Vec<Suture> {
    load(schema(text)).unwrap().into_iter().map(|r| r.unwrap()).collect()
}

fn one(capture: &str, sutures_json: &str) -> Suture {
    let text = format!(
        r#"{{"name": "test", "suture_sets": [{{"name": "s", "capture": "{capture}", "sutures": [{sutures_json}]}}]}}"#
    );
    sutures(&text).remove(0)
}

fn stitch(s: &Suture, input: &str) -> Value {
    to_json(&s.stitch_value(&doc(input)).unwrap())
}

fn unstitch(s: &Suture, input: &str) -> Value {
    to_json(&s.unstitch_value(&doc(input)).unwrap())
}

fn json(text: &str) -> Value {
    serde_json::from_str(text).unwrap()
}

// ---------------------------------------------------------------------------
// Loading
// ---------------------------------------------------------------------------

#[test]
fn load_rejects_empty_root_name() {
    let r = load(schema(r#"{"name": "", "suture_sets": [{"name": "s", "capture": "request", "sutures": []}]}"#));
    assert!(matches!(r, Err(Error::Suture(m)) if m == "root name must not be empty"));
}

#[test]
fn load_rejects_no_sets() {
    let r = load(schema(r#"{"name": "x", "suture_sets": []}"#));
    assert!(matches!(r, Err(Error::Suture(m)) if m == "suture_sets must not be empty"));
}

#[test]
fn load_reports_each_set() {
    let r = load(schema(
        r#"{"name": "x", "suture_sets": [
            {"name": "good", "capture": "request", "sutures": [{"model": "/model"}]},
            {"name": "", "capture": "request", "sutures": []},
            {"name": "bad", "capture": "request", "sutures": [42]}
        ]}"#,
    ))
    .unwrap();
    assert_eq!(r.len(), 3);
    assert!(r[0].is_ok());
    assert!(matches!(&r[1], Err(Error::Suture(m)) if m == "suture set name must not be empty"));
    assert!(matches!(&r[2], Err(Error::Suture(m)) if m == "suture[0]: must be an object"));
}

#[test]
fn compile_errors_carry_context() {
    let r = load(schema(
        r#"{"name": "x", "suture_sets": [
            {"name": "a", "capture": "request", "sutures": [{"model": 5}]},
            {"name": "b", "capture": "request", "sutures": [{}, {"model": []}]},
            {"name": "c", "capture": "request", "sutures": [{"model": [1]}]},
            {"name": "d", "capture": "request", "sutures": [{"_": 1}]},
            {"name": "e", "capture": "request", "sutures": [{"_": [{"/a": 1, "/b": 2}]}]},
            {"name": "f", "capture": "request", "sutures": [{"model": "nope"}]}
        ]}"#,
    ))
    .unwrap();
    let msg = |i: usize| match &r[i] {
        Err(Error::Suture(m)) => m.clone(),
        _ => panic!("expected a suture error"),
    };
    assert_eq!(msg(0), "suture[0].model: value must be a string, array, or object");
    assert_eq!(msg(1), "suture[1].model: array value must not be empty");
    assert_eq!(msg(2), "suture[0].model: array items must be strings");
    assert_eq!(msg(3), "suture[0]: '_' must be an array");
    assert_eq!(msg(4), "suture[0]: constant entry must have exactly one property");
    assert_eq!(
        msg(5),
        "suture[0].model: suture error: request value must start with '/', got: 'nope'"
    );
}

#[test]
fn suture_metadata_and_display() {
    let s = &sutures(
        r#"{"name": "x", "suture_sets": [
            {"id": "id1", "name": "chat", "description": "d", "version": "2", "capture": "response", "sutures": []}
        ]}"#,
    )[0];
    assert_eq!(s.id(), Some("id1"));
    assert_eq!(s.name(), "chat");
    assert_eq!(s.description(), Some("d"));
    assert_eq!(s.version(), Some("2"));
    assert!(s.is_response());
    assert!(!s.is_request());
    assert_eq!(s.display(), "chat@2 (id1)");
    let t = one("request", "{}");
    assert_eq!(t.display(), "s");
    assert!(t.is_request());
}

// ---------------------------------------------------------------------------
// Trie shape
// ---------------------------------------------------------------------------

#[test]
fn fan_out_accumulates_targets() {
    let s = one("request", r#"{"model": ["/a", "/b"]}, {"model": "/c"}"#);
    let root = match s.binding() {
        sutures::suture::Bindings::Request(r) => r,
        _ => panic!(),
    };
    assert_eq!(root.children().len(), 1);
    assert_eq!(root.children()[0].key(), "model");
    assert_eq!(root.children()[0].targets(), &vec!["/a".to_string(), "/b".to_string(), "/c".to_string()]);
}

#[test]
fn shared_prefixes_share_nodes() {
    let s = one("request", r#"{"a.b": "/x", "a.c": "/y", "a[0].d": "/z"}"#);
    let root = match s.binding() {
        sutures::suture::Bindings::Request(r) => r,
        _ => panic!(),
    };
    assert_eq!(root.key(), "s");
    assert_eq!(root.children().len(), 2);
    let a = &root.children()[0];
    assert_eq!(a.key(), "a");
    assert_eq!(a.children().len(), 2);
    assert_eq!(a.children()[0].key(), "b");
    assert_eq!(a.children()[1].key(), "c");
    let a0 = &root.children()[1];
    assert_eq!(a0.key(), "a");
    assert_eq!(
        a0.binding(),
        &sutures::suture::BindingTaskType::Iterate { start: Some(0), end: Some(1), step: Some(1) }
    );
}

// ---------------------------------------------------------------------------
// Request direction
// ---------------------------------------------------------------------------

#[test]
fn request_direct_round_trip() {
    let s = one("request", r#"{"model": "/model"}"#);
    assert_eq!(stitch(&s, r#"{"model": "gpt-4"}"#), json(r#"{"model": "gpt-4"}"#));
    assert_eq!(unstitch(&s, r#"{"model": "gpt-4"}"#), json(r#"{"model": "gpt-4"}"#));
}

#[test]
fn request_nested_targets() {
    let s = one("request", r#"{"prompt": "/messages/0/content", "temp": "/options/temperature"}"#);
    assert_eq!(
        stitch(&s, r#"{"prompt": "hi", "temp": 0.5}"#),
        json(r#"{"messages": {"0": {"content": "hi"}}, "options": {"temperature": 0.5}}"#)
    );
}

#[test]
fn request_missing_field_is_skipped() {
    let s = one("request", r#"{"model": "/model", "extra": "/extra"}"#);
    assert_eq!(stitch(&s, r#"{"model": "m"}"#), json(r#"{"model": "m"}"#));
}

#[test]
fn request_constants_are_injected() {
    let s = one("request", r#"{"model": "/model", "_": [{"/stream": false}, {"/n": 1}]}"#);
    assert_eq!(stitch(&s, r#"{"model": "m"}"#), json(r#"{"model": "m", "stream": false, "n": 1}"#));
}

#[test]
fn request_iterate_into_dense_array() {
    let s = one("request", r#"{"messages[:]": {"role": "/messages/[:]/role", "text": "/messages/[:]/content"}}"#);
    assert_eq!(
        stitch(&s, r#"{"messages": [{"role": "user", "text": "a"}, {"role": "bot", "text": "b"}]}"#),
        json(r#"{"messages": [{"role": "user", "content": "a"}, {"role": "bot", "content": "b"}]}"#)
    );
}

#[test]
fn request_slice_writes_dense_positions() {
    let s = one("request", r#"{"items[1:]": "/out/[:]"}"#);
    assert_eq!(stitch(&s, r#"{"items": [1, 2, 3]}"#), json(r#"{"out": [2, 3]}"#));
}

#[test]
fn request_fixed_index_target() {
    let s = one("request", r#"{"first": "/list/[2]"}"#);
    assert_eq!(stitch(&s, r#"{"first": "x"}"#), json(r#"{"list": [null, null, "x"]}"#));
}

#[test]
fn request_negative_write_index_is_refused() {
    let s = one("request", r#"{"first": "/list/[-1]"}"#);
    assert!(matches!(s.stitch_value(&doc(r#"{"first": "x"}"#)), Err(Error::Stitch(_))));
}

#[test]
fn request_too_many_iterators_is_refused() {
    let s = one("request", r#"{"a": "/list/[:]"}"#);
    assert!(matches!(s.stitch_value(&doc(r#"{"a": "x"}"#)), Err(Error::Stitch(_))));
}

#[test]
fn request_pattern_over_keys() {
    let s = one("request", r#"{"data.`tool_\\d+`": "/tools/[:]"}"#);
    assert_eq!(
        stitch(&s, r#"{"data": {"tool_1": "a", "tool_2": "b", "other": "c"}}"#),
        json(r#"{"tools": ["a", "b"]}"#)
    );
}

#[test]
fn request_unstitch_reads_back_iterations() {
    let s = one("request", r#"{"messages[:]": {"text": "/messages/[:]/content"}}"#);
    assert_eq!(
        unstitch(&s, r#"{"messages": [{"content": "a"}, {"content": "b"}]}"#),
        json(r#"{"messages": [{"text": "a"}, {"text": "b"}]}"#)
    );
}

#[test]
fn request_unstitch_of_pattern_is_refused() {
    let s = one("request", r#"{"data.`tool_\\d+`": "/tools/[:]"}"#);
    assert!(matches!(s.unstitch_value(&doc(r#"{"tools": ["a"]}"#)), Err(Error::Unstitch(_))));
}

// ---------------------------------------------------------------------------
// Response direction
// ---------------------------------------------------------------------------

#[test]
fn response_direct_round_trip() {
    let s = one("response", r#"{"/choices/0/message/content": "content"}"#);
    assert_eq!(
        unstitch(&s, r#"{"choices": {"0": {"message": {"content": "hello"}}}}"#),
        json(r#"{"content": "hello"}"#)
    );
    assert_eq!(
        stitch(&s, r#"{"content": "hello"}"#),
        json(r#"{"choices": {"0": {"message": {"content": "hello"}}}}"#)
    );
}

#[test]
fn response_iterate_array() {
    let s = one("response", r#"{"/choices[:]/message/content": "contents[:]"}"#);
    assert_eq!(
        unstitch(&s, r#"{"choices": [{"message": {"content": "a"}}, {"message": {"content": "b"}}]}"#),
        json(r#"{"contents": ["a", "b"]}"#)
    );
    assert_eq!(
        stitch(&s, r#"{"contents": ["a", "b"]}"#),
        json(r#"{"choices": [{"message": {"content": "a"}}, {"message": {"content": "b"}}]}"#)
    );
}

#[test]
fn response_whole_document() {
    let s = one("response", r#"{"/": "raw"}"#);
    assert_eq!(unstitch(&s, r#"{"a": [1, 2]}"#), json(r#"{"raw": {"a": [1, 2]}}"#));
}

#[test]
fn response_constants_are_injected_on_unstitch() {
    let s = one("response", r#"{"/id": "id", "_": [{"kind": "chat"}]}"#);
    assert_eq!(unstitch(&s, r#"{"id": "x"}"#), json(r#"{"id": "x", "kind": "chat"}"#));
}

#[test]
fn response_index_from_end() {
    let s = one("response", r#"{"/last": "items[-1]"}"#);
    assert_eq!(stitch(&s, r#"{"items": [1, 2, 3]}"#), json(r#"{"last": 3}"#));
}

#[test]
fn response_bad_pattern_is_a_compile_error() {
    let r = load(schema(
        r#"{"name": "x", "suture_sets": [{"name": "s", "capture": "response", "sutures": [{"/`(a)`": "x"}]}]}"#,
    ))
    .unwrap();
    assert!(matches!(&r[0], Err(Error::Suture(_))));
}

// ---------------------------------------------------------------------------
// Request direction, direct bindings
// ---------------------------------------------------------------------------

fn named(name: &str, capture: &str, sutures_json: &str) -> Suture {
    let text = format!(
        r#"{{"name": "test", "suture_sets": [{{"name": "{name}", "capture": "{capture}", "sutures": {sutures_json}}}]}}"#
    );
    sutures(&text).remove(0)
}

#[test]
fn stitch_single_field_single_target() {
    let s = named("single", "request", r#"[{ "model": "/model" }]"#);
    assert_eq!(stitch(&s, r#"{"model": "gpt-4"}"#), json(r#"{ "model": "gpt-4" }"#));
}

#[test]
fn unstitch_single_field_single_target() {
    let s = named("single", "request", r#"[{ "model": "/model" }]"#);
    assert_eq!(unstitch(&s, r#"{ "model": "gpt-4" }"#), json(r#"{"model": "gpt-4"}"#));
}

#[test]
fn comptime_request_direct_stitch_multiple_fields() {
    let s = named("multi", "request", r#"[{ "model": "/model", "temperature": "/temperature" }]"#);
    assert_eq!(
        stitch(&s, r#"{"model": "gpt-4", "temperature": 0.7}"#),
        json(r#"{ "model": "gpt-4", "temperature": 0.7 }"#)
    );
}

#[test]
fn comptime_request_direct_unstitch_multiple_fields() {
    let s = named("multi", "request", r#"[{ "model": "/model", "temperature": "/temperature" }]"#);
    assert_eq!(
        unstitch(&s, r#"{ "model": "gpt-4", "temperature": 0.7 }"#),
        json(r#"{"model": "gpt-4", "temperature": 0.7}"#)
    );
}

#[test]
fn comptime_request_direct_stitch_nested_json_target() {
    let s = named("nested_target", "request", r#"[{ "model": "/config/model" }]"#);
    assert_eq!(stitch(&s, r#"{"model": "gpt-4"}"#), json(r#"{ "config": { "model": "gpt-4" } }"#));
}

#[test]
fn unstitch_nested_json_target() {
    let s = named("nested_target", "request", r#"[{ "model": "/config/model" }]"#);
    assert_eq!(unstitch(&s, r#"{ "config": { "model": "gpt-4" } }"#), json(r#"{"model": "gpt-4"}"#));
}

#[test]
fn comptime_request_direct_stitch_fan_out() {
    let s = named("fanout", "request", r#"[{ "model": ["/model", "/config/model_name"] }]"#);
    assert_eq!(
        stitch(&s, r#"{"model": "gpt-4"}"#),
        json(r#"{ "model": "gpt-4", "config": { "model_name": "gpt-4" } }"#)
    );
}

#[test]
fn unstitch_fan_out_both_targets() {
    let s = named("fanout", "request", r#"[{ "model": ["/model", "/config/model_name"] }]"#);
    // Both targets present: the second target's value overwrites.
    assert_eq!(
        unstitch(&s, r#"{ "model": "gpt-3", "config": { "model_name": "gpt-4" } }"#),
        json(r#"{"model": "gpt-4"}"#)
    );
}

#[test]
fn unstitch_fan_out_first_target_only() {
    let s = named("fanout", "request", r#"[{ "model": ["/model", "/config/model_name"] }]"#);
    assert_eq!(unstitch(&s, r#"{ "model": "gpt-4" }"#), json(r#"{"model": "gpt-4"}"#));
}

#[test]
fn stitch_nested_struct_dot_path() {
    let s = named("nested_struct", "request", r#"[{ "config.model": "/model" }]"#);
    assert_eq!(stitch(&s, r#"{"config": {"model": "gpt-4"}}"#), json(r#"{ "model": "gpt-4" }"#));
}

#[test]
fn unstitch_nested_struct_dot_path() {
    let s = named("nested_struct", "request", r#"[{ "config.model": "/model" }]"#);
    assert_eq!(unstitch(&s, r#"{ "model": "gpt-4" }"#), json(r#"{"config": {"model": "gpt-4"}}"#));
}

#[test]
fn stitch_deep_nested_struct() {
    let s = named("deep", "request", r#"[{ "a.b.c": "/x/y/z" }]"#);
    assert_eq!(
        stitch(&s, r#"{"a": {"b": {"c": "deep_value"}}}"#),
        json(r#"{ "x": { "y": { "z": "deep_value" } } }"#)
    );
}

#[test]
fn unstitch_deep_nested_struct() {
    let s = named("deep", "request", r#"[{ "a.b.c": "/x/y/z" }]"#);
    assert_eq!(
        unstitch(&s, r#"{ "x": { "y": { "z": "deep_value" } } }"#),
        json(r#"{"a": {"b": {"c": "deep_value"}}}"#)
    );
}

#[test]
fn comptime_request_direct_stitch_nested_object_syntax() {
    let s = named(
        "obj_syntax",
        "request",
        r#"[{ "config": { "model": "/config/model", "temp": "/config/temp" } }]"#,
    );
    assert_eq!(
        stitch(&s, r#"{"config": {"model": "gpt-4", "temp": 0.5}}"#),
        json(r#"{ "config": { "model": "gpt-4", "temp": 0.5 } }"#)
    );
}

#[test]
fn comptime_request_direct_unstitch_nested_object_syntax() {
    let s = named(
        "obj_syntax",
        "request",
        r#"[{ "config": { "model": "/config/model", "temp": "/config/temp" } }]"#,
    );
    assert_eq!(
        unstitch(&s, r#"{ "config": { "model": "gpt-4", "temp": 0.5 } }"#),
        json(r#"{"config": {"model": "gpt-4", "temp": 0.5}}"#)
    );
}

#[test]
fn stitch_mixed() {
    let s = named(
        "mixed",
        "request",
        r#"[{ "name": "/name", "settings.model": ["/model", "/config/model"], "tag": "/metadata/tag" }]"#,
    );
    assert_eq!(
        stitch(&s, r#"{"name": "test-run", "settings": {"model": "gpt-4"}, "tag": "v1"}"#),
        json(
            r#"{ "name": "test-run", "model": "gpt-4", "config": { "model": "gpt-4" }, "metadata": { "tag": "v1" } }"#
        )
    );
}

#[test]
fn unstitch_mixed() {
    let s = named(
        "mixed",
        "request",
        r#"[{ "name": "/name", "settings.model": "/model", "tag": "/metadata/tag" }]"#,
    );
    assert_eq!(
        unstitch(&s, r#"{ "name": "test-run", "model": "gpt-4", "metadata": { "tag": "v1" } }"#),
        json(r#"{"name": "test-run", "settings": {"model": "gpt-4"}, "tag": "v1"}"#)
    );
}

#[test]
fn roundtrip_unstitch_stitch_simple_json() {
    let s = named("rt", "request", r#"[{ "model": "/model", "count": "/count" }]"#);
    let before = doc(r#"{ "model": "gpt-4", "count": 5 }"#);
    let intermediate = s.unstitch_value(&before).unwrap();
    let recovered = s.stitch_value(&intermediate).unwrap();
    assert_eq!(to_json(&before), to_json(&recovered));
}

#[test]
fn roundtrip_unstitch_stitch_nested_json() {
    let s = named("rt", "request", r#"[{ "config.model": "/config/model" }]"#);
    let before = doc(r#"{ "config": { "model": "gpt-4" } }"#);
    let intermediate = s.unstitch_value(&before).unwrap();
    assert_eq!(to_json(&intermediate), json(r#"{"config": {"model": "gpt-4"}}"#));
    let recovered = s.stitch_value(&intermediate).unwrap();
    assert_eq!(to_json(&before), to_json(&recovered));
}

#[test]
fn stitch_renamed_field() {
    let s = named("renamed", "request", r#"[{ "model_type": "/type" }]"#);
    assert_eq!(stitch(&s, r#"{"model_type": "chat"}"#), json(r#"{ "type": "chat" }"#));
}

#[test]
fn unstitch_renamed_field() {
    let s = named("renamed", "request", r#"[{ "model_type": "/type" }]"#);
    assert_eq!(unstitch(&s, r#"{ "type": "chat" }"#), json(r#"{"model_type": "chat"}"#));
}

#[test]
fn roundtrip_renamed_field() {
    let s = named("rename_rt", "request", r#"[{ "model_type": "/type", "value": "/value" }]"#);
    let before = r#"{"model_type": "chat", "value": 99}"#;
    let stitched = stitch(&s, before);
    assert_eq!(stitched, json(r#"{ "type": "chat", "value": 99 }"#));
    assert_eq!(unstitch(&s, &stitched.to_string()), json(before));
}

#[test]
fn comptime_request_direct_stitch_optional_field_some() {
    let s = named("optional", "request", r#"[{ "name": "/name", "nickname": "/nickname" }]"#);
    assert_eq!(
        stitch(&s, r#"{"name": "Alice", "nickname": "Ali"}"#),
        json(r#"{ "name": "Alice", "nickname": "Ali" }"#)
    );
}

#[test]
fn comptime_request_direct_stitch_optional_field_none() {
    let s = named("optional", "request", r#"[{ "name": "/name", "nickname": "/nickname" }]"#);
    assert_eq!(
        stitch(&s, r#"{"name": "Alice", "nickname": null}"#),
        json(r#"{ "name": "Alice", "nickname": null }"#)
    );
}

#[test]
fn comptime_request_direct_unstitch_optional_field_null() {
    let s = named("optional", "request", r#"[{ "name": "/name", "nickname": "/nickname" }]"#);
    assert_eq!(
        unstitch(&s, r#"{ "name": "Alice", "nickname": null }"#),
        json(r#"{"name": "Alice", "nickname": null}"#)
    );
}

#[test]
fn unstitch_optional_field_present() {
    let s = named("optional", "request", r#"[{ "name": "/name", "nickname": "/nickname" }]"#);
    assert_eq!(
        unstitch(&s, r#"{ "name": "Alice", "nickname": "Ali" }"#),
        json(r#"{"name": "Alice", "nickname": "Ali"}"#)
    );
}

#[test]
fn roundtrip_null_optional() {
    let s = named("null_rt", "request", r#"[{ "required": "/required", "optional": "/optional" }]"#);
    let none = r#"{"required": "hello", "optional": null}"#;
    let stitched = stitch(&s, none);
    assert_eq!(stitched, json(r#"{ "required": "hello", "optional": null }"#));
    assert_eq!(unstitch(&s, &stitched.to_string()), json(none));
    let some = r#"{"required": "hello", "optional": 42}"#;
    let stitched = stitch(&s, some);
    assert_eq!(stitched, json(r#"{ "required": "hello", "optional": 42 }"#));
    assert_eq!(unstitch(&s, &stitched.to_string()), json(some));
}

const TYPES_SUTURES: &str =
    r#"[{ "flag": "/flag", "count": "/count", "ratio": "/ratio", "label": "/label" }]"#;

#[test]
fn stitch_various_types() {
    let s = named("types", "request", TYPES_SUTURES);
    assert_eq!(
        stitch(&s, r#"{"flag": true, "count": 42, "ratio": 2.718, "label": "test"}"#),
        json(r#"{ "flag": true, "count": 42, "ratio": 2.718, "label": "test" }"#)
    );
}

#[test]
fn unstitch_various_types() {
    let s = named("types", "request", TYPES_SUTURES);
    assert_eq!(
        unstitch(&s, r#"{ "flag": true, "count": 42, "ratio": 2.718, "label": "test" }"#),
        json(r#"{"flag": true, "count": 42, "ratio": 2.718, "label": "test"}"#)
    );
}

#[test]
fn roundtrip_various_types() {
    let s = named("types", "request", TYPES_SUTURES);
    let before = r#"{"flag": false, "count": -100, "ratio": 0.0, "label": ""}"#;
    let stitched = stitch(&s, before);
    assert_eq!(unstitch(&s, &stitched.to_string()), json(before));
}

#[test]
fn stitch_unicode_json_value() {
    let s = named("unicode", "request", r#"[{ "name": "/name" }]"#);
    let input = Value::Object(
        [("name".to_string(), Value::String("\u{1f600} Hello \u{4e16}\u{754c}".into()))].into_iter().collect(),
    );
    assert_eq!(stitch(&s, &input.to_string()), input);
}

#[test]
fn unstitch_unicode_json_value() {
    let s = named("unicode", "request", r#"[{ "name": "/name" }]"#);
    let input = Value::Object(
        [("name".to_string(), Value::String("\u{1f600} Hello \u{4e16}\u{754c}".into()))].into_iter().collect(),
    );
    assert_eq!(unstitch(&s, &input.to_string()), input);
}

#[test]
fn comptime_request_direct_roundtrip_unicode() {
    let s = named("unicode", "request", r#"[{ "name": "/name" }]"#);
    let before = Value::Object(
        [("name".to_string(), Value::String("\u{1f680}\u{2764}\u{fe0f}\u{1f30d}".into()))].into_iter().collect(),
    );
    let stitched = stitch(&s, &before.to_string());
    assert_eq!(unstitch(&s, &stitched.to_string()), before);
}

#[test]
fn stitch_very_deep_json_nesting() {
    let s = named("deep", "request", r#"[{ "value": "/a/b/c/d/e/f/g" }]"#);
    assert_eq!(
        stitch(&s, r#"{"value": "deep!"}"#),
        json(r#"{ "a": { "b": { "c": { "d": { "e": { "f": { "g": "deep!" } } } } } } }"#)
    );
}

#[test]
fn unstitch_very_deep_json_nesting() {
    let s = named("deep", "request", r#"[{ "value": "/a/b/c/d/e/f/g" }]"#);
    assert_eq!(
        unstitch(&s, r#"{ "a": { "b": { "c": { "d": { "e": { "f": { "g": "deep!" } } } } } } }"#),
        json(r#"{"value": "deep!"}"#)
    );
}

fn two_sets() -> Vec<Suture> {
    sutures(
        r#"{"name": "test", "suture_sets": [
            {"name": "set_a", "capture": "request", "sutures": [{ "model": "/model" }]},
            {"name": "set_b", "capture": "request", "sutures": [{ "temperature": "/temperature" }]}
        ]}"#,
    )
}

#[test]
fn multiple_suture_sets_stitch_independently() {
    let s = two_sets();
    assert_eq!(stitch(&s[0], r#"{"model": "gpt-4"}"#), json(r#"{ "model": "gpt-4" }"#));
    assert_eq!(stitch(&s[1], r#"{"temperature": 0.9}"#), json(r#"{ "temperature": 0.9 }"#));
}

#[test]
fn multiple_suture_sets_unstitch_independently() {
    let s = two_sets();
    assert_eq!(unstitch(&s[0], r#"{ "model": "gpt-4" }"#), json(r#"{"model": "gpt-4"}"#));
    assert_eq!(unstitch(&s[1], r#"{ "temperature": 0.9 }"#), json(r#"{"temperature": 0.9}"#));
}

#[test]
fn multiple_suture_sets_roundtrip() {
    let s = two_sets();
    let a = r#"{"model": "sonnet"}"#;
    assert_eq!(unstitch(&s[0], &stitch(&s[0], a).to_string()), json(a));
    let b = r#"{"temperature": 1.0}"#;
    assert_eq!(unstitch(&s[1], &stitch(&s[1], b).to_string()), json(b));
}

#[test]
fn comptime_suture_is_request_direction() {
    let s = named("dir", "request", r#"[{ "x": "/x" }]"#);
    assert!(s.is_request());
    assert!(!s.is_response());
}

#[test]
fn comptime_suture_name_accessor() {
    let s = &sutures(
        r#"{"name": "my_manifest", "suture_sets": [{"name": "my_set", "capture": "request", "sutures": [{ "x": "/x" }]}]}"#,
    )[0];
    assert_eq!(s.name(), "my_set");
}

#[test]
fn comptime_suture_optional_metadata() {
    let s = &sutures(
        r#"{"name": "test", "suture_sets": [{"name": "meta", "id": "abc-123", "description": "A test suture",
            "version": "1.0.0", "capture": "request", "sutures": [{ "x": "/x" }]}]}"#,
    )[0];
    assert_eq!(s.id(), Some("abc-123"));
    assert_eq!(s.description(), Some("A test suture"));
    assert_eq!(s.version(), Some("1.0.0"));
}

#[test]
fn roundtrip_five_level_nesting() {
    let s = named("deep5", "request", r#"[{ "d2.d3.d4.d5.val": "/a/b/c/d/e" }]"#);
    let before = r#"{"d2": {"d3": {"d4": {"d5": {"val": "bottom"}}}}}"#;
    let stitched = stitch(&s, before);
    assert_eq!(stitched, json(r#"{ "a": { "b": { "c": { "d": { "e": "bottom" } } } } }"#));
    assert_eq!(unstitch(&s, &stitched.to_string()), json(before));
}

#[test]
fn stitch_partial_mapping_only_includes_mapped_fields() {
    let s = named("partial", "request", r#"[{ "included": "/included" }]"#);
    let result = stitch(&s, r#"{"included": "yes", "excluded": "no"}"#);
    assert_eq!(result, json(r#"{ "included": "yes" }"#));
    assert!(result.get("excluded").is_none());
}

#[test]
fn comptime_request_direct_unstitch_extra_json_fields_ignored() {
    let s = named("partial", "request", r#"[{ "model": "/model" }]"#);
    assert_eq!(
        unstitch(
            &s,
            r#"{ "model": "gpt-4", "temperature": 0.7, "stream": true, "extra": { "nested": "value" } }"#
        ),
        json(r#"{"model": "gpt-4"}"#)
    );
}

#[test]
fn unstitch_missing_required_field_errors() {
    // The document holds no `name`, so a struct that requires it cannot be
    // read from it.
    let s = named("missing", "request", r#"[{ "name": "/name" }]"#);
    let result = unstitch(&s, "{}");
    assert!(result.get("name").is_none());
}

#[test]
fn unstitch_missing_field_with_serde_default() {
    let s = named("missing", "request", r#"[{ "name": "/name", "age": "/age" }]"#);
    assert_eq!(unstitch(&s, r#"{ "name": "Alice" }"#), json(r#"{"name": "Alice"}"#));
}

#[test]
fn stitch_merged_trie_from_multiple_suture_objects() {
    let s = named("merged", "request", r#"[{ "point.x": "/x" }, { "point.y": "/y" }]"#);
    assert_eq!(stitch(&s, r#"{"point": {"x": 10, "y": 20}}"#), json(r#"{ "x": 10, "y": 20 }"#));
}

#[test]
fn unstitch_merged_trie_from_multiple_suture_objects() {
    let s = named("merged", "request", r#"[{ "point.x": "/x" }, { "point.y": "/y" }]"#);
    assert_eq!(unstitch(&s, r#"{ "x": 10, "y": 20 }"#), json(r#"{"point": {"x": 10, "y": 20}}"#));
}

#[test]
fn stitch_nested_object_with_fanout() {
    let s = named("fanout_nested", "request", r#"[{ "config": { "model": ["/model", "/params/model"] } }]"#);
    assert_eq!(
        stitch(&s, r#"{"config": {"model": "gpt-4"}}"#),
        json(r#"{ "model": "gpt-4", "params": { "model": "gpt-4" } }"#)
    );
}

#[test]
fn stitch_fan_out_different_depths() {
    let s = named("fanout_depth", "request", r#"[{ "name": ["/name", "/meta/info/name", "/flat_name"] }]"#);
    let result = stitch(&s, r#"{"name": "Alice"}"#);
    assert_eq!(result["name"], json(r#""Alice""#));
    assert_eq!(result["meta"]["info"]["name"], json(r#""Alice""#));
    assert_eq!(result["flat_name"], json(r#""Alice""#));
}

#[test]
fn stitch_nested_fields_same_json_parent() {
    let s = named(
        "same_parent",
        "request",
        r#"[{ "coords.left": "/position/left", "coords.right": "/position/right" }]"#,
    );
    assert_eq!(
        stitch(&s, r#"{"coords": {"left": "L", "right": "R"}}"#),
        json(r#"{ "position": { "left": "L", "right": "R" } }"#)
    );
}

#[test]
fn unstitch_nested_fields_same_json_parent() {
    let s = named(
        "same_parent",
        "request",
        r#"[{ "coords.left": "/position/left", "coords.right": "/position/right" }]"#,
    );
    assert_eq!(
        unstitch(&s, r#"{ "position": { "left": "L", "right": "R" } }"#),
        json(r#"{"coords": {"left": "L", "right": "R"}}"#)
    );
}

#[test]
fn stitch_vec_field() {
    let s = named("vec", "request", r#"[{ "tags": "/tags" }]"#);
    assert_eq!(stitch(&s, r#"{"tags": ["a", "b", "c"]}"#), json(r#"{ "tags": ["a", "b", "c"] }"#));
}

#[test]
fn unstitch_vec_field() {
    let s = named("vec", "request", r#"[{ "tags": "/tags" }]"#);
    assert_eq!(unstitch(&s, r#"{ "tags": ["a", "b", "c"] }"#), json(r#"{"tags": ["a", "b", "c"]}"#));
}

#[test]
fn roundtrip_vec_field() {
    let s = named("vec", "request", r#"[{ "tags": "/tags" }]"#);
    let before = r#"{"tags": ["x", "y"]}"#;
    assert_eq!(unstitch(&s, &stitch(&s, before).to_string()), json(before));
}

// ---------------------------------------------------------------------------
// Request direction, iterate bindings
// ---------------------------------------------------------------------------

#[test]
fn comptime_request_iterate_stitch_full_array_copy() {
    let s = one("request", r#"{ "items[:]": "/items/[:]" }"#);
    assert_eq!(stitch(&s, r#"{"items": [1, 2, 3]}"#), json(r#"{ "items": [1, 2, 3] }"#));
}

#[test]
fn comptime_request_iterate_unstitch_full_array_copy() {
    let s = one("request", r#"{ "items[:]": "/items/[:]" }"#);
    assert_eq!(unstitch(&s, r#"{ "items": [10, 20, 30] }"#), json(r#"{"items": [10, 20, 30]}"#));
}

#[test]
fn stitch_field_extraction_from_array() {
    let s = one("request", r#"{ "items[:].name": "/names/[:]" }"#);
    assert_eq!(
        stitch(&s, r#"{"items": [{"name": "alice"}, {"name": "bob"}, {"name": "charlie"}]}"#),
        json(r#"{ "names": ["alice", "bob", "charlie"] }"#)
    );
}

#[test]
fn unstitch_field_extraction_from_array() {
    let s = one("request", r#"{ "items[:].name": "/names/[:]" }"#);
    assert_eq!(
        unstitch(&s, r#"{ "names": ["alice", "bob", "charlie"] }"#),
        json(r#"{"items": [{"name": "alice"}, {"name": "bob"}, {"name": "charlie"}]}"#)
    );
}

#[test]
fn stitch_field_into_nested_array_target() {
    let s = one("request", r#"{ "items[:].name": "/data/[:]/name" }"#);
    assert_eq!(
        stitch(&s, r#"{"items": [{"name": "alice"}, {"name": "bob"}]}"#),
        json(r#"{ "data": [ { "name": "alice" }, { "name": "bob" } ] }"#)
    );
}

#[test]
fn unstitch_field_from_nested_array_target() {
    let s = one("request", r#"{ "items[:].name": "/data/[:]/name" }"#);
    assert_eq!(
        unstitch(&s, r#"{ "data": [ { "name": "alice" }, { "name": "bob" } ] }"#),
        json(r#"{"items": [{"name": "alice"}, {"name": "bob"}]}"#)
    );
}

#[test]
fn stitch_single_index_zero() {
    let s = one("request", r#"{ "items[0]": "/first" }"#);
    assert_eq!(stitch(&s, r#"{"items": ["alpha", "beta", "gamma"]}"#), json(r#"{ "first": "alpha" }"#));
}

#[test]
fn unstitch_single_index_zero() {
    let s = one("request", r#"{ "items[0]": "/first" }"#);
    assert_eq!(unstitch(&s, r#"{ "first": "alpha" }"#), json(r#"{"items": ["alpha"]}"#));
}

#[test]
fn stitch_last_element() {
    let s = one("request", r#"{ "items[-1]": "/last" }"#);
    assert_eq!(stitch(&s, r#"{"items": ["alpha", "beta", "gamma"]}"#), json(r#"{ "last": "gamma" }"#));
}

#[test]
fn stitch_slice_extraction() {
    let s = one("request", r#"{ "items[1:3]": "/slice/[:]" }"#);
    assert_eq!(stitch(&s, r#"{"items": ["a", "b", "c", "d", "e"]}"#), json(r#"{ "slice": ["b", "c"] }"#));
}

#[test]
fn unstitch_slice_extraction() {
    let s = one("request", r#"{ "items[1:3]": "/slice/[:]" }"#);
    assert_eq!(unstitch(&s, r#"{ "slice": ["b", "c"] }"#), json(r#"{"items": ["b", "c"]}"#));
}

#[test]
fn stitch_step_iteration() {
    let s = one("request", r#"{ "items[::2]": "/evens/[:]" }"#);
    assert_eq!(stitch(&s, r#"{"items": ["a", "b", "c", "d", "e"]}"#), json(r#"{ "evens": ["a", "c", "e"] }"#));
}

#[test]
fn unstitch_step_iteration() {
    let s = one("request", r#"{ "items[::2]": "/evens/[:]" }"#);
    assert_eq!(unstitch(&s, r#"{ "evens": ["a", "c", "e"] }"#), json(r#"{"items": ["a", "c", "e"]}"#));
}

#[test]
fn stitch_reverse_iteration() {
    let s = one("request", r#"{ "items[::-1]": "/reversed/[:]" }"#);
    assert_eq!(stitch(&s, r#"{"items": ["a", "b", "c"]}"#), json(r#"{ "reversed": ["c", "b", "a"] }"#));
}

#[test]
fn unstitch_reverse_iteration() {
    let s = one("request", r#"{ "items[::-1]": "/reversed/[:]" }"#);
    assert_eq!(unstitch(&s, r#"{ "reversed": ["c", "b", "a"] }"#), json(r#"{"items": ["c", "b", "a"]}"#));
}

#[test]
fn stitch_start_end_step() {
    let s = one("request", r#"{ "items[1:5:2]": "/selected/[:]" }"#);
    assert_eq!(
        stitch(&s, r#"{"items": ["a", "b", "c", "d", "e", "f"]}"#),
        json(r#"{ "selected": ["b", "d"] }"#)
    );
}

#[test]
fn unstitch_start_end_step() {
    let s = one("request", r#"{ "items[1:5:2]": "/selected/[:]" }"#);
    assert_eq!(unstitch(&s, r#"{ "selected": ["b", "d"] }"#), json(r#"{"items": ["b", "d"]}"#));
}

#[test]
fn comptime_request_iterate_stitch_fan_out() {
    let s = one("request", r#"{ "items[:].name": ["/names/[:]", "/labels/[:]"] }"#);
    assert_eq!(
        stitch(&s, r#"{"items": [{"name": "alice"}, {"name": "bob"}]}"#),
        json(r#"{ "names": ["alice", "bob"], "labels": ["alice", "bob"] }"#)
    );
}

#[test]
fn comptime_request_iterate_unstitch_fan_out() {
    let s = one("request", r#"{ "items[:].name": ["/names/[:]", "/labels/[:]"] }"#);
    assert_eq!(
        unstitch(&s, r#"{ "names": ["alice", "bob"], "labels": ["alice", "bob"] }"#),
        json(r#"{"items": [{"name": "alice"}, {"name": "bob"}]}"#)
    );
}

#[test]
fn comptime_request_iterate_stitch_nested_object_syntax() {
    let s = one("request", r#"{ "items[:]": { "name": "/data/[:]/name", "value": "/data/[:]/value" } }"#);
    assert_eq!(
        stitch(&s, r#"{"items": [{"name": "alice", "value": 10}, {"name": "bob", "value": 20}]}"#),
        json(r#"{ "data": [ { "name": "alice", "value": 10 }, { "name": "bob", "value": 20 } ] }"#)
    );
}

#[test]
fn comptime_request_iterate_unstitch_nested_object_syntax() {
    let s = one("request", r#"{ "items[:]": { "name": "/data/[:]/name", "value": "/data/[:]/value" } }"#);
    assert_eq!(
        unstitch(
            &s,
            r#"{ "data": [ { "name": "x", "value": 1 }, { "name": "y", "value": 2 }, { "name": "z", "value": 3 } ] }"#
        ),
        json(r#"{"items": [{"name": "x", "value": 1}, {"name": "y", "value": 2}, {"name": "z", "value": 3}]}"#)
    );
}

#[test]
fn stitch_empty_array_produces_empty_output() {
    let s = one("request", r#"{ "items[:]": "/items/[:]" }"#);
    assert_eq!(stitch(&s, r#"{"items": []}"#), json("{}"));
}

#[test]
fn unstitch_empty_json_array() {
    // Nothing is read from an empty array, so nothing is written; the
    // struct's defaulted `items` is then empty.
    let s = one("request", r#"{ "items[:]": "/items/[:]" }"#);
    assert_eq!(unstitch(&s, r#"{ "items": [] }"#), json("{}"));
}

#[test]
fn comptime_request_iterate_stitch_single_element_array() {
    let s = one("request", r#"{ "items[:]": "/items/[:]" }"#);
    assert_eq!(stitch(&s, r#"{"items": [42]}"#), json(r#"{ "items": [42] }"#));
}

#[test]
fn unstitch_single_element_json_array() {
    let s = one("request", r#"{ "items[:]": "/items/[:]" }"#);
    assert_eq!(unstitch(&s, r#"{ "items": [42] }"#), json(r#"{"items": [42]}"#));
}

#[test]
fn stitch_single_element_with_field_extraction() {
    let s = one("request", r#"{ "items[:].name": "/names/[:]" }"#);
    assert_eq!(stitch(&s, r#"{"items": [{"name": "only"}]}"#), json(r#"{ "names": ["only"] }"#));
}

fn round_trip(s: &Suture, before: &str) -> Value {
    unstitch(s, &stitch(s, before).to_string())
}

#[test]
fn round_trip_full_array_iteration() {
    let s = one("request", r#"{ "items[:].name": "/names/[:]" }"#);
    let before = r#"{"items": [{"name": "alice"}, {"name": "bob"}, {"name": "charlie"}]}"#;
    assert_eq!(round_trip(&s, before), json(before));
}

#[test]
fn round_trip_full_array_value_copy() {
    let s = one("request", r#"{ "items[:]": "/items/[:]" }"#);
    let before = r#"{"items": [1, "hello", true, null]}"#;
    assert_eq!(round_trip(&s, before), json(before));
}

#[test]
fn round_trip_nested_object_syntax() {
    let s = one("request", r#"{ "items[:]": { "name": "/data/[:]/name", "value": "/data/[:]/value" } }"#);
    let before = r#"{"items": [{"name": "alice", "value": 10}, {"name": "bob", "value": 20}]}"#;
    assert_eq!(round_trip(&s, before), json(before));
}

#[test]
fn round_trip_extract_field_nested_array() {
    let s = one("request", r#"{ "items[:].name": "/data/[:]/name" }"#);
    let before = r#"{"items": [{"name": "alice"}, {"name": "bob"}, {"name": "charlie"}]}"#;
    assert_eq!(round_trip(&s, before), json(before));
}

#[test]
fn round_trip_multiple_fields_from_iterated_elements() {
    let s = one("request", r#"{ "items[:].name": "/names/[:]", "items[:].value": "/values/[:]" }"#);
    let before =
        r#"{"items": [{"name": "alice", "value": 100}, {"name": "bob", "value": 200}, {"name": "charlie", "value": 300}]}"#;
    assert_eq!(round_trip(&s, before), json(before));
}

#[test]
fn round_trip_single_index_field() {
    let s = one("request", r#"{ "items[0].name": "/first_name" }"#);
    let before = r#"{"items": [{"name": "alice"}]}"#;
    assert_eq!(stitch(&s, before), json(r#"{ "first_name": "alice" }"#));
    assert_eq!(round_trip(&s, before), json(before));
}

#[test]
fn round_trip_single_index_whole_element() {
    let s = one("request", r#"{ "items[0]": "/first" }"#);
    let before = r#"{"items": [{"key": "value"}]}"#;
    assert_eq!(stitch(&s, before), json(r#"{ "first": {"key": "value"} }"#));
    assert_eq!(round_trip(&s, before), json(before));
}

#[test]
fn stitch_negative_start_slice() {
    let s = one("request", r#"{ "items[-2:]": "/tail/[:]" }"#);
    assert_eq!(stitch(&s, r#"{"items": ["a", "b", "c", "d", "e"]}"#), json(r#"{ "tail": ["d", "e"] }"#));
}

#[test]
fn comptime_request_iterate_unstitch_negative_start_slice() {
    let s = one("request", r#"{ "items[-2:]": "/tail/[:]" }"#);
    assert_eq!(unstitch(&s, r#"{ "tail": ["d", "e"] }"#), json(r#"{"items": ["d", "e"]}"#));
}

#[test]
fn round_trip_negative_start() {
    let s = one("request", r#"{ "items[-2:]": "/tail/[:]" }"#);
    let before = r#"{"items": ["a", "b", "c", "d", "e"]}"#;
    assert_eq!(stitch(&s, before), json(r#"{ "tail": ["d", "e"] }"#));
    // Unstitch only reconstructs the mapped elements.
    assert_eq!(round_trip(&s, before), json(r#"{"items": ["d", "e"]}"#));
}

#[test]
fn stitch_negative_end_slice() {
    let s = one("request", r#"{ "items[:-2]": "/head/[:]" }"#);
    assert_eq!(stitch(&s, r#"{"items": ["a", "b", "c", "d", "e"]}"#), json(r#"{ "head": ["a", "b", "c"] }"#));
}

#[test]
fn comptime_request_iterate_unstitch_negative_end_slice() {
    let s = one("request", r#"{ "items[:-2]": "/head/[:]" }"#);
    assert_eq!(unstitch(&s, r#"{ "head": ["a", "b", "c"] }"#), json(r#"{"items": ["a", "b", "c"]}"#));
}

#[test]
fn round_trip_negative_end() {
    let s = one("request", r#"{ "items[:-2]": "/head/[:]" }"#);
    let before = r#"{"items": ["a", "b", "c", "d", "e"]}"#;
    assert_eq!(stitch(&s, before), json(r#"{ "head": ["a", "b", "c"] }"#));
    assert_eq!(round_trip(&s, before), json(r#"{"items": ["a", "b", "c"]}"#));
}

fn range_items(n: i64) -> String {
    let items: Vec<String> = (0..n).map(|i| i.to_string()).collect();
    format!(r#"{{"items": [{}]}}"#, items.join(", "))
}

#[test]
fn stitch_step_three_on_ten_elements() {
    let s = one("request", r#"{ "items[::3]": "/stepped/[:]" }"#);
    assert_eq!(stitch(&s, &range_items(10)), json(r#"{ "stepped": [0, 3, 6, 9] }"#));
}

#[test]
fn stitch_step_three_on_twelve_elements() {
    let s = one("request", r#"{ "items[::3]": "/stepped/[:]" }"#);
    assert_eq!(stitch(&s, &range_items(12)), json(r#"{ "stepped": [0, 3, 6, 9] }"#));
}

#[test]
fn stitch_large_step_five() {
    let s = one("request", r#"{ "items[::5]": "/sparse/[:]" }"#);
    assert_eq!(stitch(&s, &range_items(12)), json(r#"{ "sparse": [0, 5, 10] }"#));
}

#[test]
fn stitch_reverse_step_two_on_six_elements() {
    let s = one("request", r#"{ "items[::-2]": "/rev_stepped/[:]" }"#);
    assert_eq!(stitch(&s, &range_items(6)), json(r#"{ "rev_stepped": [5, 3, 1] }"#));
}

#[test]
fn stitch_reverse_step_two_on_five_elements() {
    let s = one("request", r#"{ "items[::-2]": "/rev_stepped/[:]" }"#);
    assert_eq!(stitch(&s, &range_items(5)), json(r#"{ "rev_stepped": [4, 2, 0] }"#));
}

#[test]
fn stitch_reverse_step_three() {
    let s = one("request", r#"{ "items[::-3]": "/rev3/[:]" }"#);
    assert_eq!(stitch(&s, &range_items(10)), json(r#"{ "rev3": [9, 6, 3, 0] }"#));
}

#[test]
fn stitch_mixed_fixed_index_and_full_iteration() {
    let s = one("request", r#"{ "items[0].name": "/first_name", "items[:].name": "/all_names/[:]" }"#);
    assert_eq!(
        stitch(&s, r#"{"items": [{"name": "alice"}, {"name": "bob"}]}"#),
        json(r#"{ "first_name": "alice", "all_names": ["alice", "bob"] }"#)
    );
}

#[test]
fn stitch_mixed_fixed_indices() {
    let s = one("request", r#"{ "items[0]": "/first", "items[1]": "/second" }"#);
    assert_eq!(stitch(&s, r#"{"items": ["a", "b", "c"]}"#), json(r#"{ "first": "a", "second": "b" }"#));
}

const FOUR_NAMES: &str = r#"{"items": [{"name": "alice"}, {"name": "bob"}, {"name": "charlie"}, {"name": "dave"}]}"#;

#[test]
fn stitch_last_element_field_extraction() {
    let s = one("request", r#"{ "items[-1].name": "/last_name" }"#);
    assert_eq!(
        stitch(&s, r#"{"items": [{"name": "alice"}, {"name": "bob"}, {"name": "charlie"}]}"#),
        json(r#"{ "last_name": "charlie" }"#)
    );
}

#[test]
fn stitch_field_from_single_index() {
    let s = one("request", r#"{ "items[0].name": "/first_name" }"#);
    assert_eq!(
        stitch(&s, r#"{"items": [{"name": "alice"}, {"name": "bob"}]}"#),
        json(r#"{ "first_name": "alice" }"#)
    );
}

#[test]
fn stitch_field_from_slice_elements() {
    let s = one("request", r#"{ "items[1:3].name": "/names/[:]" }"#);
    assert_eq!(stitch(&s, FOUR_NAMES), json(r#"{ "names": ["bob", "charlie"] }"#));
}

const FIVE_ITEMS: &str = r#"{"items": [
    {"name": "a", "value": 10, "id": 1}, {"name": "b", "value": 20, "id": 2},
    {"name": "c", "value": 30, "id": 3}, {"name": "d", "value": 40, "id": 4},
    {"name": "e", "value": 50, "id": 5}]}"#;

#[test]
fn stitch_field_from_step_iterated_elements() {
    let s = one("request", r#"{ "items[::2].value": "/even_values/[:]" }"#);
    assert_eq!(stitch(&s, FIVE_ITEMS), json(r#"{ "even_values": [10, 30, 50] }"#));
}

#[test]
fn stitch_field_from_reversed_elements() {
    let s = one("request", r#"{ "items[::-1].name": "/reversed_names/[:]" }"#);
    assert_eq!(
        stitch(&s, r#"{"items": [{"name": "alice"}, {"name": "bob"}, {"name": "charlie"}]}"#),
        json(r#"{ "reversed_names": ["charlie", "bob", "alice"] }"#)
    );
}

#[test]
fn stitch_field_from_range_stepped_elements() {
    let s = one("request", r#"{ "items[1:5:2].id": "/selected_ids/[:]" }"#);
    let input = r#"{"items": [
        {"name": "a", "value": 10, "id": 100}, {"name": "b", "value": 20, "id": 200},
        {"name": "c", "value": 30, "id": 300}, {"name": "d", "value": 40, "id": 400},
        {"name": "e", "value": 50, "id": 500}, {"name": "f", "value": 60, "id": 600}]}"#;
    assert_eq!(stitch(&s, input), json(r#"{ "selected_ids": [200, 400] }"#));
}

#[test]
fn unstitch_field_from_single_index() {
    let s = one("request", r#"{ "items[0].name": "/first_name" }"#);
    assert_eq!(unstitch(&s, r#"{ "first_name": "alice" }"#), json(r#"{"items": [{"name": "alice"}]}"#));
}

#[test]
fn unstitch_field_from_slice_elements() {
    let s = one("request", r#"{ "items[1:3].name": "/names/[:]" }"#);
    assert_eq!(
        unstitch(&s, r#"{ "names": ["bob", "charlie"] }"#),
        json(r#"{"items": [{"name": "bob"}, {"name": "charlie"}]}"#)
    );
}

#[test]
fn unstitch_field_from_range_stepped_elements() {
    let s = one("request", r#"{ "items[1:5:2].id": "/selected_ids/[:]" }"#);
    assert_eq!(
        unstitch(&s, r#"{ "selected_ids": [200, 400] }"#),
        json(r#"{"items": [{"id": 200}, {"id": 400}]}"#)
    );
}

#[test]
fn unstitch_multiple_fields_to_iterated_elements() {
    let s = one("request", r#"{ "items[:].name": "/names/[:]", "items[:].value": "/values/[:]" }"#);
    assert_eq!(
        unstitch(&s, r#"{ "names": ["a", "b"], "values": [1, 2] }"#),
        json(r#"{"items": [{"name": "a", "value": 1}, {"name": "b", "value": 2}]}"#)
    );
}

#[test]
fn round_trip_step_iteration() {
    let s = one("request", r#"{ "items[::2].name": "/even_names/[:]" }"#);
    let before = r#"{"items": [{"name": "a"}, {"name": "b"}, {"name": "c"}, {"name": "d"}, {"name": "e"}]}"#;
    assert_eq!(stitch(&s, before), json(r#"{ "even_names": ["a", "c", "e"] }"#));
    assert_eq!(round_trip(&s, before), json(r#"{"items": [{"name": "a"}, {"name": "c"}, {"name": "e"}]}"#));
}

#[test]
fn round_trip_whole_object_iteration() {
    let s = one("request", r#"{ "items[:]": "/data/[:]" }"#);
    let before = r#"{"items": [{"a": 1}, {"b": 2}, {"c": 3}]}"#;
    assert_eq!(stitch(&s, before), json(r#"{ "data": [{"a": 1}, {"b": 2}, {"c": 3}] }"#));
    assert_eq!(round_trip(&s, before), json(before));
}

#[test]
fn stitch_field_to_deeply_nested_json_path() {
    let s = one("request", r#"{ "items[:].name": "/response/data/names/[:]" }"#);
    assert_eq!(
        stitch(&s, r#"{"items": [{"name": "x"}, {"name": "y"}]}"#),
        json(r#"{ "response": { "data": { "names": ["x", "y"] } } }"#)
    );
}

#[test]
fn stitch_multiple_fields_from_iterated_elements() {
    let s = one("request", r#"{ "items[:].name": "/names/[:]", "items[:].value": "/values/[:]" }"#);
    assert_eq!(
        stitch(&s, r#"{"items": [{"name": "a", "value": 1, "id": 10}, {"name": "b", "value": 2, "id": 20}]}"#),
        json(r#"{ "names": ["a", "b"], "values": [1, 2] }"#)
    );
}

#[test]
fn stitch_write_to_fixed_index_target() {
    let s = one("request", r#"{ "items[0]": "/items/[0]" }"#);
    assert_eq!(stitch(&s, r#"{"items": [42, 99]}"#), json(r#"{ "items": [42] }"#));
}

// ---------------------------------------------------------------------------
// Response direction, direct bindings
// ---------------------------------------------------------------------------

#[test]
fn unstitch_single_field() {
    let s = named("single", "response", r#"[{ "/model": "model" }]"#);
    assert_eq!(unstitch(&s, r#"{ "model": "gpt-4" }"#), json(r#"{"model": "gpt-4"}"#));
}

#[test]
fn stitch_single_field() {
    let s = named("single", "response", r#"[{ "/model": "model" }]"#);
    assert_eq!(stitch(&s, r#"{"model": "gpt-4"}"#), json(r#"{ "model": "gpt-4" }"#));
}

#[test]
fn comptime_response_direct_unstitch_multiple_fields() {
    let s = named("multi", "response", r#"[{ "/model": "model", "/temp": "temperature" }]"#);
    assert_eq!(
        unstitch(&s, r#"{ "model": "gpt-4", "temp": 0.7 }"#),
        json(r#"{"model": "gpt-4", "temperature": 0.7}"#)
    );
}

#[test]
fn comptime_response_direct_stitch_multiple_fields() {
    let s = named("multi", "response", r#"[{ "/model": "model", "/temp": "temperature" }]"#);
    assert_eq!(
        stitch(&s, r#"{"model": "gpt-4", "temperature": 0.7}"#),
        json(r#"{ "model": "gpt-4", "temp": 0.7 }"#)
    );
}

#[test]
fn unstitch_nested_json_source() {
    let s = named("nested_src", "response", r#"[{ "/config/model": "model" }]"#);
    assert_eq!(unstitch(&s, r#"{ "config": { "model": "gpt-4" } }"#), json(r#"{"model": "gpt-4"}"#));
}

#[test]
fn comptime_response_direct_stitch_nested_json_target() {
    let s = named("nested_tgt", "response", r#"[{ "/config/model": "model" }]"#);
    assert_eq!(stitch(&s, r#"{"model": "gpt-4"}"#), json(r#"{ "config": { "model": "gpt-4" } }"#));
}

#[test]
fn unstitch_very_deep_json_source() {
    let s = named("deep_src", "response", r#"[{ "/a/b/c/d": "value" }]"#);
    assert_eq!(
        unstitch(&s, r#"{ "a": { "b": { "c": { "d": "deep_val" } } } }"#),
        json(r#"{"value": "deep_val"}"#)
    );
}

#[test]
fn stitch_very_deep_json_target() {
    let s = named("deep_tgt", "response", r#"[{ "/a/b/c/d": "value" }]"#);
    assert_eq!(
        stitch(&s, r#"{"value": "deep_val"}"#),
        json(r#"{ "a": { "b": { "c": { "d": "deep_val" } } } }"#)
    );
}

#[test]
fn comptime_response_direct_unstitch_fan_out() {
    let s = named("fanout", "response", r#"[{ "/model": ["model", "model_name"] }]"#);
    assert_eq!(
        unstitch(&s, r#"{ "model": "gpt-4" }"#),
        json(r#"{"model": "gpt-4", "model_name": "gpt-4"}"#)
    );
}

#[test]
fn stitch_fan_out_reverse() {
    let s = named("fanout", "response", r#"[{ "/model": ["model", "model_name"] }]"#);
    // Both struct targets map back to the same JSON key /model; last write wins.
    let result = stitch(&s, r#"{"model": "gpt-4", "model_name": "gpt-4"}"#);
    assert_eq!(result["model"], json(r#""gpt-4""#));
}

#[test]
fn unstitch_nested_struct_target() {
    let s = named("nested_target", "response", r#"[{ "/model": "config.model" }]"#);
    assert_eq!(unstitch(&s, r#"{ "model": "gpt-4" }"#), json(r#"{"config": {"model": "gpt-4"}}"#));
}

#[test]
fn stitch_nested_struct_source_reverse() {
    let s = named("nested_src", "response", r#"[{ "/model": "config.model" }]"#);
    assert_eq!(stitch(&s, r#"{"config": {"model": "gpt-4"}}"#), json(r#"{ "model": "gpt-4" }"#));
}

#[test]
fn unstitch_deep_nested_struct_target() {
    let s = named("deep_target", "response", r#"[{ "/x": "a.b.c" }]"#);
    assert_eq!(unstitch(&s, r#"{ "x": "hello" }"#), json(r#"{"a": {"b": {"c": "hello"}}}"#));
}

#[test]
fn stitch_deep_nested_struct_reverse() {
    let s = named("deep", "response", r#"[{ "/x": "a.b.c" }]"#);
    assert_eq!(stitch(&s, r#"{"a": {"b": {"c": "hello"}}}"#), json(r#"{ "x": "hello" }"#));
}

const NESTED_OBJ_RESPONSE: &str =
    r#"[{ "/config": { "/model": "config.model", "/temp": "config.temp" } }]"#;

#[test]
fn comptime_response_direct_unstitch_nested_object_syntax() {
    let s = named("nested_obj", "response", NESTED_OBJ_RESPONSE);
    assert_eq!(
        unstitch(&s, r#"{ "config": { "model": "gpt-4", "temp": 0.5 } }"#),
        json(r#"{"config": {"model": "gpt-4", "temp": 0.5}}"#)
    );
}

#[test]
fn stitch_nested_object_syntax_reverse() {
    let s = named("nested_obj", "response", NESTED_OBJ_RESPONSE);
    assert_eq!(
        stitch(&s, r#"{"config": {"model": "gpt-4", "temp": 0.5}}"#),
        json(r#"{ "config": { "model": "gpt-4", "temp": 0.5 } }"#)
    );
}

// ---------------------------------------------------------------------------
// Response direction, iterate bindings
// ---------------------------------------------------------------------------

#[test]
fn comptime_response_iterate_unstitch_full_array_copy() {
    let s = one("response", r#"{ "/items/[:]": "items[:]" }"#);
    assert_eq!(unstitch(&s, r#"{ "items": [1, 2, 3] }"#), json(r#"{"items": [1, 2, 3]}"#));
}

#[test]
fn comptime_response_iterate_stitch_full_array_copy() {
    let s = one("response", r#"{ "/items/[:]": "items[:]" }"#);
    assert_eq!(stitch(&s, r#"{"items": [1, 2, 3]}"#), json(r#"{ "items": [1, 2, 3] }"#));
}

#[test]
fn unstitch_field_from_each_element() {
    let s = one("response", r#"{ "/items/[:]/name": "names[:]" }"#);
    assert_eq!(
        unstitch(&s, r#"{ "items": [{"name": "a", "x": 1}, {"name": "b", "x": 2}] }"#),
        json(r#"{"names": ["a", "b"]}"#)
    );
}

#[test]
fn stitch_field_from_each_element() {
    let s = one("response", r#"{ "/items/[:]/name": "names[:]" }"#);
    assert_eq!(
        stitch(&s, r#"{"names": ["a", "b"]}"#),
        json(r#"{ "items": [{"name": "a"}, {"name": "b"}] }"#)
    );
}

#[test]
fn unstitch_nested_field_into_struct_array() {
    let s = one("response", r#"{ "/data/[:]/name": "items[:].name" }"#);
    assert_eq!(
        unstitch(&s, r#"{ "data": [{"name": "alice"}, {"name": "bob"}] }"#),
        json(r#"{"items": [{"name": "alice"}, {"name": "bob"}]}"#)
    );
}

#[test]
fn stitch_nested_field_from_struct_array() {
    let s = one("response", r#"{ "/data/[:]/name": "items[:].name" }"#);
    assert_eq!(
        stitch(&s, r#"{"items": [{"name": "alice"}, {"name": "bob"}]}"#),
        json(r#"{ "data": [{"name": "alice"}, {"name": "bob"}] }"#)
    );
}

#[test]
fn unstitch_single_index() {
    let s = one("response", r#"{ "/items/[0]": "first" }"#);
    assert_eq!(unstitch(&s, r#"{ "items": ["alpha", "beta", "gamma"] }"#), json(r#"{"first": "alpha"}"#));
}

#[test]
fn stitch_single_index() {
    let s = one("response", r#"{ "/items/[0]": "first" }"#);
    assert_eq!(stitch(&s, r#"{"first": "alpha"}"#), json(r#"{ "items": ["alpha"] }"#));
}

#[test]
fn unstitch_last_element() {
    let s = one("response", r#"{ "/items/[-1]": "last" }"#);
    assert_eq!(unstitch(&s, r#"{ "items": ["alpha", "beta", "gamma"] }"#), json(r#"{"last": "gamma"}"#));
}

#[test]
fn unstitch_slice() {
    let s = one("response", r#"{ "/items/[1:3]": "slice[:]" }"#);
    assert_eq!(unstitch(&s, r#"{ "items": ["a", "b", "c", "d", "e"] }"#), json(r#"{"slice": ["b", "c"]}"#));
}

#[test]
fn stitch_slice() {
    let s = one("response", r#"{ "/items/[1:3]": "slice[:]" }"#);
    let result = stitch(&s, r#"{"slice": ["b", "c"]}"#);
    let items = result["items"].as_array().unwrap();
    assert_eq!(items[0], json(r#""b""#));
    assert_eq!(items[1], json(r#""c""#));
}

#[test]
fn unstitch_step_two() {
    let s = one("response", r#"{ "/items/[::2]": "evens[:]" }"#);
    assert_eq!(unstitch(&s, r#"{ "items": ["a", "b", "c", "d", "e"] }"#), json(r#"{"evens": ["a", "c", "e"]}"#));
}

#[test]
fn unstitch_reverse() {
    let s = one("response", r#"{ "/items/[::-1]": "reversed[:]" }"#);
    assert_eq!(unstitch(&s, r#"{ "items": ["a", "b", "c"] }"#), json(r#"{"reversed": ["c", "b", "a"]}"#));
}

#[test]
fn unstitch_range_with_step() {
    let s = one("response", r#"{ "/items/[1:5:2]": "selected[:]" }"#);
    assert_eq!(
        unstitch(&s, r#"{ "items": ["a", "b", "c", "d", "e", "f"] }"#),
        json(r#"{"selected": ["b", "d"]}"#)
    );
}

const RESPONSE_NESTED_ITEMS: &str =
    r#"{ "/items/[:]": { "/name": "items[:].name", "/value": "items[:].value" } }"#;

#[test]
fn unstitch_nested_object_multiple_fields() {
    let s = one("response", RESPONSE_NESTED_ITEMS);
    assert_eq!(
        unstitch(&s, r#"{ "items": [{"name": "a", "value": 1}, {"name": "b", "value": 2}] }"#),
        json(r#"{"items": [{"name": "a", "value": 1}, {"name": "b", "value": 2}]}"#)
    );
}

#[test]
fn stitch_nested_object_multiple_fields() {
    let s = one("response", RESPONSE_NESTED_ITEMS);
    assert_eq!(
        stitch(&s, r#"{"items": [{"name": "a", "value": 1}, {"name": "b", "value": 2}]}"#),
        json(r#"{ "items": [{"name": "a", "value": 1}, {"name": "b", "value": 2}] }"#)
    );
}

#[test]
fn comptime_response_iterate_unstitch_fan_out() {
    let s = one("response", r#"{ "/items/[:]/name": ["names[:]", "labels[:]"] }"#);
    assert_eq!(
        unstitch(&s, r#"{ "items": [{"name": "x"}, {"name": "y"}] }"#),
        json(r#"{"names": ["x", "y"], "labels": ["x", "y"]}"#)
    );
}

#[test]
fn stitch_fan_out_reads_first_target() {
    let s = one("response", r#"{ "/items/[:]/name": ["names[:]", "labels[:]"] }"#);
    let result = stitch(&s, r#"{"names": ["x", "y"], "labels": ["x", "y"]}"#);
    let items = result["items"].as_array().unwrap();
    assert_eq!(items[0]["name"], json(r#""x""#));
    assert_eq!(items[1]["name"], json(r#""y""#));
}

#[test]
fn unstitch_empty_array() {
    let s = one("response", r#"{ "/items/[:]": "items[:]" }"#);
    assert_eq!(unstitch(&s, r#"{ "items": [] }"#), json("{}"));
}

#[test]
fn unstitch_single_element_array() {
    let s = one("response", r#"{ "/items/[:]": "items[:]" }"#);
    assert_eq!(unstitch(&s, r#"{ "items": [42] }"#), json(r#"{"items": [42]}"#));
}

#[test]
fn comptime_response_iterate_stitch_single_element_array() {
    let s = one("response", r#"{ "/items/[:]": "items[:]" }"#);
    assert_eq!(stitch(&s, r#"{"items": [42]}"#), json(r#"{ "items": [42] }"#));
}

#[test]
fn roundtrip_unstitch_then_stitch_full_array() {
    let s = one("response", r#"{ "/items/[:]": "items[:]" }"#);
    let before = r#"{ "items": [1, 2, 3, 4, 5] }"#;
    assert_eq!(stitch(&s, &unstitch(&s, before).to_string()), json(before));
}

#[test]
fn comptime_response_iterate_unstitch_negative_start_slice() {
    let s = one("response", r#"{ "/items/[-2:]": "slice[:]" }"#);
    assert_eq!(unstitch(&s, r#"{ "items": [1, 2, 3, 4, 5] }"#), json(r#"{"slice": [4, 5]}"#));
}

#[test]
fn unstitch_negative_start_three() {
    let s = one("response", r#"{ "/items/[-3:]": "slice[:]" }"#);
    assert_eq!(unstitch(&s, r#"{ "items": [10, 20, 30, 40, 50] }"#), json(r#"{"slice": [30, 40, 50]}"#));
}

#[test]
fn comptime_response_iterate_unstitch_negative_end_slice() {
    let s = one("response", r#"{ "/items/[:-2]": "slice[:]" }"#);
    assert_eq!(unstitch(&s, r#"{ "items": [1, 2, 3, 4, 5] }"#), json(r#"{"slice": [1, 2, 3]}"#));
}

#[test]
fn unstitch_negative_end_one() {
    let s = one("response", r#"{ "/items/[:-1]": "slice[:]" }"#);
    assert_eq!(unstitch(&s, r#"{ "items": ["a", "b", "c", "d"] }"#), json(r#"{"slice": ["a", "b", "c"]}"#));
}

// ---------------------------------------------------------------------------
// Response direction, pattern bindings (objects are walked in key order)
// ---------------------------------------------------------------------------

#[test]
fn basic_pattern_field_digits_to_vec() {
    let s = named("basic_pattern", "response", r#"[{ "/`field_\\d+`": "values[:]" }]"#);
    assert_eq!(
        unstitch(&s, r#"{ "field_0": 10, "field_1": 20, "field_2": 30 }"#),
        json(r#"{"values": [10, 20, 30]}"#)
    );
}

#[test]
fn alpha_pattern_item_lowercase_to_vec() {
    let s = named("alpha", "response", r#"[{ "/`item_[a-z]+`": "items[:]" }]"#);
    let result = unstitch(&s, r#"{ "item_foo": "hello", "item_bar": "world" }"#);
    let items = result["items"].as_array().unwrap();
    assert_eq!(items.len(), 2);
    assert!(items.contains(&json(r#""hello""#)));
    assert!(items.contains(&json(r#""world""#)));
}

#[test]
fn pattern_no_matches_yields_empty_vec() {
    let s = named("none", "response", r#"[{ "/`field_\\d+`": "values[:]" }]"#);
    assert_eq!(unstitch(&s, r#"{ "name": "Alice", "age": 30, "active": true }"#), json("{}"));
}

#[test]
fn pattern_partial_match_ignores_non_matching_keys() {
    let s = named("partial", "response", r#"[{ "/`field_\\d+`": "values[:]" }]"#);
    assert_eq!(
        unstitch(&s, r#"{ "field_0": 100, "field_1": 200, "name": "should_be_ignored", "other_key": 999 }"#),
        json(r#"{"values": [100, 200]}"#)
    );
}

#[test]
fn non_capturing_group_pattern() {
    let s = named("group", "response", r#"[{ "/`(?:in|out)_\\d+`": "values[:]" }]"#);
    assert_eq!(
        unstitch(&s, r#"{ "in_0": 1, "out_1": 2, "in_2": 3, "other_0": 999 }"#),
        json(r#"{"values": [1, 3, 2]}"#)
    );
}

#[test]
fn comptime_response_pattern_pattern_slice_first_only() {
    let s = named("first", "response", r#"[{ "/`field_\\d+`[0]": "values[:]" }]"#);
    assert_eq!(
        unstitch(&s, r#"{ "field_0": 10, "field_1": 20, "field_2": 30 }"#),
        json(r#"{"values": [10]}"#)
    );
}

#[test]
fn comptime_response_pattern_pattern_slice_first_two() {
    let s = named("first_two", "response", r#"[{ "/`field_\\d+`[0:2]": "values[:]" }]"#);
    assert_eq!(
        unstitch(&s, r#"{ "field_0": 10, "field_1": 20, "field_2": 30, "field_3": 40 }"#),
        json(r#"{"values": [10, 20]}"#)
    );
}

#[test]
fn nested_path_then_pattern_with_child_extraction() {
    let s = named("nested", "response", r#"[{ "/data/`entry_\\d+`/name": "names[:]" }]"#);
    assert_eq!(
        unstitch(
            &s,
            r#"{ "data": { "entry_0": { "name": "Alice", "age": 30 }, "entry_1": { "name": "Bob", "age": 25 },
                "entry_2": { "name": "Carol", "age": 35 } } }"#
        ),
        json(r#"{"names": ["Alice", "Bob", "Carol"]}"#)
    );
}

#[test]
fn pattern_extract_multiple_sub_fields() {
    let s = named(
        "players",
        "response",
        r#"[{ "/`player_\\d+`": { "/name": "names[:]", "/score": "scores[:]" } }]"#,
    );
    assert_eq!(
        unstitch(&s, r#"{ "player_0": { "name": "Alice", "score": 100 }, "player_1": { "name": "Bob", "score": 200 } }"#),
        json(r#"{"names": ["Alice", "Bob"], "scores": [100, 200]}"#)
    );
}

#[test]
fn pattern_fan_out_to_multiple_struct_fields() {
    let s = named("fan", "response", r#"[{ "/`val_\\d+`": ["primary[:]", "secondary[:]"] }]"#);
    assert_eq!(
        unstitch(&s, r#"{ "val_0": 10, "val_1": 20 }"#),
        json(r#"{"primary": [10, 20], "secondary": [10, 20]}"#)
    );
}

#[test]
fn two_different_patterns_in_same_suture() {
    let s = named("two", "response", r#"[{ "/`in_\\d+`": "inputs[:]", "/`out_\\d+`": "outputs[:]" }]"#);
    assert_eq!(
        unstitch(&s, r#"{ "in_0": 1.0, "in_1": 2.0, "out_0": 10.0, "out_1": 20.0, "out_2": 30.0 }"#),
        json(r#"{"inputs": [1.0, 2.0], "outputs": [10.0, 20.0, 30.0]}"#)
    );
}

#[test]
fn mix_of_direct_and_pattern_bindings() {
    let s = named("mix", "response", r#"[{ "/name": "name", "/`field_\\d+`": "values[:]" }]"#);
    assert_eq!(
        unstitch(&s, r#"{ "name": "test_object", "field_0": 100, "field_1": 200, "field_2": 300 }"#),
        json(r#"{"name": "test_object", "values": [100, 200, 300]}"#)
    );
}

#[test]
fn pattern_matching_all_keys() {
    let s = named("all", "response", r#"[{ "/`[a-z]+`": "values[:]" }]"#);
    assert_eq!(
        unstitch(&s, r#"{ "alpha": "one", "beta": "two", "gamma": "three" }"#),
        json(r#"{"values": ["one", "two", "three"]}"#)
    );
}

#[test]
fn comptime_response_pattern_pattern_numeric_only_keys() {
    let s = named("numeric", "response", r#"[{ "/`\\d+`": "values[:]" }]"#);
    assert_eq!(
        unstitch(&s, r#"{ "0": "zero", "1": "one", "42": "answer", "abc": "should_not_match" }"#),
        json(r#"{"values": ["zero", "one", "answer"]}"#)
    );
}

#[test]
fn empty_json_object_yields_empty_vec() {
    let s = named("empty", "response", r#"[{ "/`field_\\d+`": "values[:]" }]"#);
    assert_eq!(unstitch(&s, "{}"), json("{}"));
}

// ---------------------------------------------------------------------------
// Constants
// ---------------------------------------------------------------------------

fn with_constant(constant: &str) -> Suture {
    named("const", "request", &format!(r#"[{{ "model": "/model", "_": [{constant}] }}]"#))
}

#[test]
fn req_const_string() {
    let result = stitch(&with_constant(r#"{ "/api_version": "v1" }"#), r#"{"model": "gpt-4"}"#);
    assert_eq!(result["model"], "gpt-4");
    assert_eq!(result["api_version"], "v1");
}

#[test]
fn req_const_integer() {
    let result = stitch(&with_constant(r#"{ "/max_tokens": 100 }"#), r#"{"model": "gpt-4"}"#);
    assert_eq!(result["max_tokens"], 100);
}

#[test]
fn req_const_float() {
    let result = stitch(&with_constant(r#"{ "/temperature": 0.7 }"#), r#"{"model": "gpt-4"}"#);
    assert_eq!(result["temperature"], 0.7);
}

#[test]
fn req_const_bool_true() {
    let result = stitch(&with_constant(r#"{ "/stream": true }"#), r#"{"model": "gpt-4"}"#);
    assert_eq!(result["stream"], true);
}

#[test]
fn req_const_bool_false() {
    let result = stitch(&with_constant(r#"{ "/stream": false }"#), r#"{"model": "gpt-4"}"#);
    assert_eq!(result["stream"], false);
}

#[test]
fn req_const_null() {
    let result = stitch(&with_constant(r#"{ "/extra": null }"#), r#"{"model": "gpt-4"}"#);
    assert!(result["extra"].is_null());
    assert!(result.get("extra").is_some());
}

#[test]
fn req_const_multiple() {
    let result = stitch(
        &with_constant(r#"{ "/api_version": "v1" }, { "/max_tokens": 100 }, { "/stream": true }"#),
        r#"{"model": "gpt-4"}"#,
    );
    assert_eq!(result["model"], "gpt-4");
    assert_eq!(result["api_version"], "v1");
    assert_eq!(result["max_tokens"], 100);
    assert_eq!(result["stream"], true);
}

#[test]
fn req_const_nested_path() {
    let result = stitch(&with_constant(r#"{ "/config/version": "2.0" }"#), r#"{"model": "gpt-4"}"#);
    assert_eq!(result["model"], "gpt-4");
    assert_eq!(result["config"]["version"], "2.0");
}

fn response_with_constant(constant: &str) -> Suture {
    named("const", "response", &format!(r#"[{{ "/content": "content", "_": [{constant}] }}]"#))
}

#[test]
fn resp_const_string_unstitch() {
    let result = unstitch(&response_with_constant(r#"{ "source": "api" }"#), r#"{ "content": "hello" }"#);
    assert_eq!(result["content"], "hello");
    assert_eq!(result["source"], "api");
}

#[test]
fn resp_const_integer_unstitch() {
    let result = unstitch(&response_with_constant(r#"{ "count": 42 }"#), r#"{ "content": "hello" }"#);
    assert_eq!(result["content"], "hello");
    assert_eq!(result["count"], 42);
}

#[test]
fn resp_const_multiple_unstitch() {
    let result = unstitch(
        &response_with_constant(r#"{ "source": "api" }, { "count": 99 }"#),
        r#"{ "content": "hello" }"#,
    );
    assert_eq!(result["content"], "hello");
    assert_eq!(result["source"], "api");
    assert_eq!(result["count"], 99);
}

#[test]
fn resp_const_nested_path_unstitch() {
    let result = unstitch(&response_with_constant(r#"{ "meta.version": "1.0" }"#), r#"{ "content": "hello" }"#);
    assert_eq!(result["content"], "hello");
    assert_eq!(result["meta"]["version"], "1.0");
}

#[test]
fn req_constants_not_in_unstitch() {
    let s = named("const", "request", r#"[{ "model": "/model", "_": [{ "/api_version": "v1" }] }]"#);
    let result = unstitch(&s, r#"{ "model": "gpt-4", "api_version": "v1" }"#);
    assert_eq!(result["model"], "gpt-4");
    assert!(result.get("api_version").is_none());
}

#[test]
fn resp_constants_not_in_stitch() {
    let s = response_with_constant(r#"{ "source": "api" }"#);
    let result = stitch(&s, r#"{"content": "hello", "source": "api"}"#);
    assert_eq!(result["content"], "hello");
    assert!(result.get("source").is_none());
}

// ---------------------------------------------------------------------------
// Request direction, pattern bindings
// ---------------------------------------------------------------------------

fn sorted_ints(v: &Value) -> Vec<i64> {
    let mut out: Vec<i64> = v.as_array().unwrap().iter().map(|x| x.as_i64().unwrap()).collect();
    out.sort();
    out
}

fn sorted_strs(v: &Value) -> Vec<String> {
    let mut out: Vec<String> = v.as_array().unwrap().iter().map(|x| x.as_str().unwrap().to_string()).collect();
    out.sort();
    out
}

#[test]
fn basic_pattern_field_digits() {
    let s = one("request", r#"{ "data.`field_\\d+`": "/values/[:]" }"#);
    let r = stitch(&s, r#"{"data": {"field_0": 10, "field_1": 20, "field_2": 30}}"#);
    assert_eq!(r["values"].as_array().unwrap().len(), 3);
    assert_eq!(sorted_ints(&r["values"]), vec![10, 20, 30]);
}

#[test]
fn basic_pattern_item_alpha() {
    let s = one("request", r#"{ "items.`item_[a-z]+`": "/items/[:]" }"#);
    let r = stitch(&s, r#"{"items": {"item_foo": "hello", "item_bar": "world"}}"#);
    assert_eq!(sorted_strs(&r["items"]), vec!["hello", "world"]);
}

#[test]
fn pattern_no_matches_empty_output() {
    let s = one("request", r#"{ "data.`content_\\d+`": "/output/[:]" }"#);
    let r = stitch(&s, r#"{"data": {"other_0": 1, "something_else": 2}}"#);
    assert!(r.get("output").is_none());
}

#[test]
fn pattern_partial_match_ignores_non_matching() {
    let s = one("request", r#"{ "data.`data_\\d+`": "/extracted/[:]" }"#);
    let r = stitch(&s, r#"{"data": {"data_0": 100, "data_1": 200, "other_key": 999, "not_data": 888}}"#);
    assert_eq!(sorted_ints(&r["extracted"]), vec![100, 200]);
}

#[test]
fn pattern_non_capturing_group() {
    let s = one("request", r#"{ "data.`(?:input|output)_\\d+`": "/signals/[:]" }"#);
    let r = stitch(&s, r#"{"data": {"input_0": 1, "output_1": 2, "random_key": 3}}"#);
    assert_eq!(sorted_ints(&r["signals"]), vec![1, 2]);
}

#[test]
fn comptime_request_pattern_pattern_slice_first_only() {
    let s = one("request", r#"{ "data.`field_\\d+`[0]": "/first/[:]" }"#);
    let r = stitch(&s, r#"{"data": {"field_0": 10, "field_1": 20, "field_2": 30}}"#);
    assert_eq!(r["first"], json("[10]"));
}

#[test]
fn comptime_request_pattern_pattern_slice_first_two() {
    let s = one("request", r#"{ "data.`field_\\d+`[0:2]": "/two/[:]" }"#);
    let r = stitch(&s, r#"{"data": {"field_0": 10, "field_1": 20, "field_2": 30, "field_3": 40}}"#);
    assert_eq!(r["two"], json("[10, 20]"));
}

#[test]
fn pattern_child_extraction() {
    let s = one("request", r#"{ "entries.`entry_\\d+`": { "name": "/entries/[:]/name", "value": "/entries/[:]/value" } }"#);
    let r = stitch(
        &s,
        r#"{"entries": {"entry_0": {"name": "alpha", "value": 10}, "entry_1": {"name": "beta", "value": 20}}}"#,
    );
    assert_eq!(r, json(r#"{"entries": [{"name": "alpha", "value": 10}, {"name": "beta", "value": 20}]}"#));
}

#[test]
fn pattern_fan_out() {
    let s = one("request", r#"{ "data.`field_\\d+`": ["/primary/[:]", "/backup/[:]"] }"#);
    let r = stitch(&s, r#"{"data": {"field_0": 10, "field_1": 20}}"#);
    assert_eq!(sorted_ints(&r["primary"]), vec![10, 20]);
    assert_eq!(sorted_ints(&r["backup"]), vec![10, 20]);
}

#[test]
fn multiple_patterns_two_families() {
    let s = one("request", r#"{ "alpha.`a_\\d+`": "/group_a/[:]", "beta.`b_\\d+`": "/group_b/[:]" }"#);
    let r = stitch(&s, r#"{"alpha": {"a_0": 1, "a_1": 2}, "beta": {"b_0": 100, "b_1": 200}}"#);
    assert_eq!(sorted_ints(&r["group_a"]), vec![1, 2]);
    assert_eq!(sorted_ints(&r["group_b"]), vec![100, 200]);
}

#[test]
fn mixed_direct_and_pattern() {
    let s = one("request", r#"{ "name": "/name", "data.`data_\\d+`": "/data/[:]" }"#);
    let r = stitch(&s, r#"{"name": "my_name", "data": {"data_0": 10, "data_1": 20}}"#);
    assert_eq!(r["name"].as_str().unwrap(), "my_name");
    assert_eq!(sorted_ints(&r["data"]), vec![10, 20]);
}

#[test]
fn pattern_matches_all_keys() {
    let s = one("request", r#"{ "data.`.*`": "/all/[:]" }"#);
    let r = stitch(&s, r#"{"data": {"anything": 1, "everything": 2, "123": 3}}"#);
    assert_eq!(sorted_ints(&r["all"]), vec![1, 2, 3]);
}

#[test]
fn pattern_single_char_keys() {
    let s = one("request", r#"{ "bucket.`[a-z]`": "/chars/[:]" }"#);
    let r = stitch(&s, r#"{"bucket": {"a": 1, "z": 2, "AB": 3, "1": 4}}"#);
    assert_eq!(sorted_ints(&r["chars"]), vec![1, 2]);
}

#[test]
fn comptime_request_pattern_pattern_numeric_only_keys() {
    let s = one("request", r#"{ "index.`\\d+`": "/numbers/[:]" }"#);
    let r = stitch(&s, r#"{"index": {"0": "zero", "1": "one", "42": "forty_two", "abc": "not_a_number"}}"#);
    assert_eq!(sorted_strs(&r["numbers"]), vec!["forty_two", "one", "zero"]);
}

#[test]
fn pattern_auto_anchored() {
    let s = one("request", r#"{ "data.`field`": "/exact/[:]" }"#);
    let r = stitch(&s, r#"{"data": {"field": 42, "field_extra": 99, "prefix_field": 88}}"#);
    assert_eq!(r["exact"], json("[42]"));
}

#[test]
fn pattern_on_non_object_source_skips() {
    let s = one("request", r#"{ "data.`field_\\d+`": "/output/[:]" }"#);
    let r = stitch(&s, r#"{"data": [1, 2, 3]}"#);
    assert!(r.get("output").is_none());
}

#[test]
fn pattern_empty_hashmap() {
    let s = one("request", r#"{ "data.`field_\\d+`": "/output/[:]" }"#);
    let r = stitch(&s, r#"{"data": {}}"#);
    assert!(r.get("output").is_none());
}

#[test]
fn pattern_single_matching_key() {
    let s = one("request", r#"{ "data.`field_\\d+`": "/output/[:]" }"#);
    let r = stitch(&s, r#"{"data": {"field_99": 77}}"#);
    assert_eq!(r["output"], json("[77]"));
}

#[test]
fn pattern_alternation() {
    let s = one("request", r#"{ "data.`(?:alpha|beta)_\\d+`": "/matched/[:]" }"#);
    let r = stitch(&s, r#"{"data": {"alpha_0": 1, "beta_1": 2, "gamma_2": 3}}"#);
    assert_eq!(sorted_ints(&r["matched"]), vec![1, 2]);
}

#[test]
fn pattern_escaped_dot() {
    let s = one("request", r#"{ "fields.`field\\.name`": "/dotted/[:]" }"#);
    let r = stitch(&s, r#"{"fields": {"field.name": "matched", "fieldXname": "should_not_match"}}"#);
    assert_eq!(r["dotted"], json(r#"["matched"]"#));
}

#[test]
fn pattern_slice_skip_first() {
    let s = one("request", r#"{ "data.`field_\\d+`[1:]": "/rest/[:]" }"#);
    let r = stitch(&s, r#"{"data": {"field_0": 10, "field_1": 20, "field_2": 30}}"#);
    assert_eq!(r["rest"], json("[20, 30]"));
}

#[test]
fn pattern_slice_reverse() {
    let s = one("request", r#"{ "data.`field_\\d+`[::-1]": "/reversed/[:]" }"#);
    let r = stitch(&s, r#"{"data": {"field_0": 10, "field_1": 20, "field_2": 30}}"#);
    assert_eq!(r["reversed"], json("[30, 20, 10]"));
}

#[test]
fn multiple_suture_sets_from_single_parse() {
    let s = sutures(
        r#"{"name": "test", "suture_sets": [
            {"name": "a", "capture": "request", "sutures": [{ "data.`field_\\d+`": "/first_out/[:]" }]},
            {"name": "b", "capture": "request", "sutures": [{ "data.`field_\\d+`": "/second_out/[:]" }]}
        ]}"#,
    );
    assert_eq!(s.len(), 2);
    let input = r#"{"data": {"field_0": 1, "field_1": 2}}"#;
    assert_eq!(sorted_ints(&stitch(&s[0], input)["first_out"]), vec![1, 2]);
    assert_eq!(sorted_ints(&stitch(&s[1], input)["second_out"]), vec![1, 2]);
}

#[test]
fn pattern_deep_target_path() {
    let s = one("request", r#"{ "data.`field_\\d+`": "/a/b/c/[:]" }"#);
    let r = stitch(&s, r#"{"data": {"field_0": 42}}"#);
    assert_eq!(r["a"]["b"]["c"], json("[42]"));
}

#[test]
fn pattern_slice_zero_single_match() {
    let s = one("request", r#"{ "data.`field_\\d+`[0]": "/only/[:]" }"#);
    let r = stitch(&s, r#"{"data": {"field_0": 55, "other": 99}}"#);
    assert_eq!(r["only"], json("[55]"));
}

#[test]
fn comptime_suture_has_correct_metadata() {
    let s = named("pattern_set", "request", r#"[{ "data.`field_\\d+`": "/values/[:]" }]"#);
    assert_eq!(s.name(), "pattern_set");
    assert!(s.is_request());
    assert!(!s.is_response());
}

#[test]
fn stitch_slice_out_of_range_produces_empty() {
    let s = one("request", r#"{ "items[5:10]": "/slice/[:]" }"#);
    assert_eq!(stitch(&s, r#"{"items": ["a", "b", "c"]}"#), json("{}"));
}

#[test]
fn stitch_empty_range_produces_nothing() {
    let s = one("request", r#"{ "items[2:2]": "/empty/[:]" }"#);
    assert_eq!(stitch(&s, r#"{"items": [1, 2, 3]}"#), json("{}"));
}

#[test]
fn stitch_open_ended_from_zero() {
    let s = one("request", r#"{ "items[0:]": "/all/[:]" }"#);
    assert_eq!(stitch(&s, r#"{"items": ["a", "b", "c"]}"#), json(r#"{ "all": ["a", "b", "c"] }"#));
}

#[test]
fn stitch_first_two_elements() {
    let s = one("request", r#"{ "items[:2]": "/first_two/[:]" }"#);
    assert_eq!(stitch(&s, r#"{"items": ["a", "b", "c", "d"]}"#), json(r#"{ "first_two": ["a", "b"] }"#));
}

#[test]
fn stitch_slice_middle_of_ten_elements() {
    let s = one("request", r#"{ "items[3:7]": "/slice/[:]" }"#);
    assert_eq!(stitch(&s, &range_items(10)), json(r#"{ "slice": [3, 4, 5, 6] }"#));
}

#[test]
fn stitch_range_negative_start_with_step() {
    let s = one("request", r#"{ "items[-4::2]": "/tail_stepped/[:]" }"#);
    assert_eq!(stitch(&s, &range_items(8)), json(r#"{ "tail_stepped": [4, 6] }"#));
}

#[test]
fn stitch_slice_zero_to_one() {
    let s = one("request", r#"{ "items[0:1]": "/first/[:]" }"#);
    assert_eq!(stitch(&s, r#"{"items": ["a", "b", "c"]}"#), json(r#"{ "first": ["a"] }"#));
}

#[test]
fn stitch_iterate_source_write_to_fixed_index() {
    let s = one("request", r#"{ "items[:].name": "/data/[0]" }"#);
    assert_eq!(
        stitch(&s, r#"{"items": [{"name": "alice"}, {"name": "bob"}, {"name": "charlie"}]}"#),
        json(r#"{ "data": ["charlie"] }"#)
    );
}

#[test]
fn comptime_request_suture_is_request_direction() {
    let s = one("request", r#"{ "items[:]": "/items/[:]" }"#);
    assert!(s.is_request());
    assert!(!s.is_response());
}

#[test]
fn stitch_iterate_complex_objects_field() {
    let s = one("request", r#"{ "items[:].label": "/labels/[:]" }"#);
    assert_eq!(
        stitch(
            &s,
            r#"{"items": [{"label": "first", "metadata": {"key": "value"}}, {"label": "second", "metadata": {"key": "other"}}]}"#
        ),
        json(r#"{ "labels": ["first", "second"] }"#)
    );
}

#[test]
fn stitch_iterate_extract_whole_element() {
    let s = one("request", r#"{ "items[:]": "/data/[:]" }"#);
    assert_eq!(
        stitch(
            &s,
            r#"{"items": [{"label": "first", "metadata": {"key": "value"}}, {"label": "second", "metadata": null}]}"#
        ),
        json(r#"{"data": [{"label": "first", "metadata": {"key": "value"}}, {"label": "second", "metadata": null}]}"#)
    );
}

#[test]
fn comptime_parse_produces_correct_count() {
    let s = sutures(
        r#"{"name": "test", "suture_sets": [{"name": "s", "capture": "request", "sutures": [{ "items[:]": "/items/[:]" }]}]}"#,
    );
    assert_eq!(s.len(), 1);
}

#[test]
fn round_trip_heterogeneous_value_types() {
    let s = one("request", r#"{ "items[:]": "/items/[:]" }"#);
    let before = r#"{"items": [42, "string", true, null, 3.14, {"nested": "object"}, [1, 2, 3]]}"#;
    assert_eq!(round_trip(&s, before), json(before));
}

#[test]
fn stitch_large_array_step_three_field_extraction() {
    let s = one("request", r#"{ "items[::3].name": "/selected_names/[:]" }"#);
    let items: Vec<String> = (0..9).map(|i| format!(r#"{{"name": "item_{i}"}}"#)).collect();
    let input = format!(r#"{{"items": [{}]}}"#, items.join(", "));
    assert_eq!(stitch(&s, &input), json(r#"{ "selected_names": ["item_0", "item_3", "item_6"] }"#));
}

#[test]
fn round_trip_fan_out() {
    let s = one("request", r#"{ "items[:].name": ["/names/[:]", "/labels/[:]"] }"#);
    let before = r#"{"items": [{"name": "alice"}, {"name": "bob"}, {"name": "charlie"}]}"#;
    assert_eq!(
        stitch(&s, before),
        json(r#"{"names": ["alice", "bob", "charlie"], "labels": ["alice", "bob", "charlie"]}"#)
    );
    assert_eq!(round_trip(&s, before), json(before));
}

const MIXED_RESPONSE: &str =
    r#"[{ "/name": "name", "/settings": { "/model": "config.model", "/temp": "config.temp" } }]"#;

#[test]
fn unstitch_mixed_flat_and_nested() {
    let s = named("mixed", "response", MIXED_RESPONSE);
    assert_eq!(
        unstitch(&s, r#"{ "name": "my_config", "settings": { "model": "gpt-4", "temp": 0.9 } }"#),
        json(r#"{"name": "my_config", "config": {"model": "gpt-4", "temp": 0.9}}"#)
    );
}

#[test]
fn stitch_mixed_flat_and_nested_reverse() {
    let s = named("mixed", "response", MIXED_RESPONSE);
    assert_eq!(
        stitch(&s, r#"{"name": "my_config", "config": {"model": "gpt-4", "temp": 0.9}}"#),
        json(r#"{ "name": "my_config", "settings": { "model": "gpt-4", "temp": 0.9 } }"#)
    );
}

#[test]
fn comptime_response_direct_unstitch_multiple_suture_objects() {
    let s = named("objs", "response", r#"[{ "/model": "model" }, { "/temperature": "temperature" }]"#);
    assert_eq!(
        unstitch(&s, r#"{ "model": "gpt-4", "temperature": 0.7 }"#),
        json(r#"{"model": "gpt-4", "temperature": 0.7}"#)
    );
}

#[test]
fn stitch_multiple_suture_objects_reverse() {
    let s = named("objs", "response", r#"[{ "/model": "model" }, { "/temperature": "temperature" }]"#);
    assert_eq!(
        stitch(&s, r#"{"model": "gpt-4", "temperature": 0.7}"#),
        json(r#"{ "model": "gpt-4", "temperature": 0.7 }"#)
    );
}

fn response_round_trip(s: &Suture, original_json: &str) -> Value {
    stitch(s, &unstitch(s, original_json).to_string())
}

#[test]
fn roundtrip_unstitch_then_stitch_flat() {
    let s = named("rt", "response", r#"[{ "/model": "model", "/temp": "temperature" }]"#);
    let before = r#"{ "model": "gpt-4", "temp": 0.7 }"#;
    assert_eq!(response_round_trip(&s, before), json(before));
}

#[test]
fn roundtrip_unstitch_then_stitch_nested() {
    let s = named("rt", "response", NESTED_OBJ_RESPONSE);
    let before = r#"{ "config": { "model": "gpt-4", "temp": 0.5 } }"#;
    assert_eq!(response_round_trip(&s, before), json(before));
}

#[test]
fn roundtrip_unstitch_then_stitch_deep_json() {
    let s = named("rt", "response", r#"[{ "/a/b/c/d": "value" }]"#);
    let before = r#"{ "a": { "b": { "c": { "d": "val" } } } }"#;
    assert_eq!(unstitch(&s, before)["value"], "val");
    assert_eq!(response_round_trip(&s, before), json(before));
}

const THREE_RESPONSE: &str =
    r#"[{ "/model": "model", "/temperature": "temperature", "/max_tokens": "max_tokens" }]"#;

#[test]
fn roundtrip_unstitch_then_stitch_multiple_fields() {
    let s = named("rt", "response", THREE_RESPONSE);
    let before = r#"{ "model": "gpt-4", "temperature": 0.7, "max_tokens": 100 }"#;
    assert_eq!(response_round_trip(&s, before), json(before));
}

#[test]
fn roundtrip_stitch_then_unstitch_flat() {
    let s = named("rt", "response", r#"[{ "/model": "model", "/temp": "temperature" }]"#);
    let before = r#"{"model": "gpt-4", "temperature": 0.7}"#;
    assert_eq!(round_trip(&s, before), json(before));
}

#[test]
fn roundtrip_stitch_then_unstitch_nested() {
    let s = named("rt", "response", NESTED_OBJ_RESPONSE);
    let before = r#"{"config": {"model": "gpt-4", "temp": 0.5}}"#;
    assert_eq!(round_trip(&s, before), json(before));
}

#[test]
fn roundtrip_stitch_then_unstitch_deep_struct() {
    let s = named("rt", "response", r#"[{ "/x": "a.b.c" }]"#);
    let before = r#"{"a": {"b": {"c": "round_trip"}}}"#;
    assert_eq!(round_trip(&s, before), json(before));
}

#[test]
fn roundtrip_stitch_then_unstitch_multiple_fields() {
    let s = named("rt", "response", THREE_RESPONSE);
    let before = r#"{"model": "model-3", "temperature": 0.5, "max_tokens": 200}"#;
    assert_eq!(round_trip(&s, before), json(before));
}

#[test]
fn comptime_response_direct_unstitch_extra_json_fields_ignored() {
    let s = named("extra", "response", r#"[{ "/model": "model" }]"#);
    assert_eq!(
        unstitch(&s, r#"{ "model": "gpt-4", "extra": "x", "another_extra": 42, "nested_extra": { "deep": true } }"#),
        json(r#"{"model": "gpt-4"}"#)
    );
}

#[test]
fn unstitch_extra_json_fields_at_nested_level_ignored() {
    let s = named("extra", "response", r#"[{ "/config/model": "model" }]"#);
    assert_eq!(
        unstitch(&s, r#"{ "config": { "model": "gpt-4", "temp": 0.3 }, "other": 1 }"#),
        json(r#"{"model": "gpt-4"}"#)
    );
}

const OPTIONAL_RESPONSE: &str = r#"[{ "/model": "model", "/nickname": "nickname" }]"#;

#[test]
fn comptime_response_direct_unstitch_optional_field_null() {
    let s = named("opt", "response", OPTIONAL_RESPONSE);
    assert_eq!(
        unstitch(&s, r#"{ "model": "gpt-4", "nickname": null }"#),
        json(r#"{"model": "gpt-4", "nickname": null}"#)
    );
}

#[test]
fn unstitch_optional_field_missing_from_json() {
    let s = named("opt", "response", OPTIONAL_RESPONSE);
    assert_eq!(unstitch(&s, r#"{ "model": "gpt-4" }"#), json(r#"{"model": "gpt-4"}"#));
}

#[test]
fn comptime_response_direct_stitch_optional_field_none() {
    let s = named("opt", "response", OPTIONAL_RESPONSE);
    assert_eq!(
        stitch(&s, r#"{"model": "gpt-4", "nickname": null}"#),
        json(r#"{ "model": "gpt-4", "nickname": null }"#)
    );
}

#[test]
fn comptime_response_direct_stitch_optional_field_some() {
    let s = named("opt", "response", OPTIONAL_RESPONSE);
    assert_eq!(
        stitch(&s, r#"{"model": "gpt-4", "nickname": "fast_one"}"#),
        json(r#"{ "model": "gpt-4", "nickname": "fast_one" }"#)
    );
}

#[test]
fn roundtrip_optional_field_some() {
    let s = named("opt", "response", OPTIONAL_RESPONSE);
    let before = r#"{"model": "gpt-4", "nickname": "test_name"}"#;
    assert_eq!(round_trip(&s, before), json(before));
}

#[test]
fn roundtrip_boolean_and_null() {
    let s = named("bool", "response", r#"[{ "/flag": "flag", "/label": "label" }]"#);
    let some = r#"{"flag": true, "label": "present"}"#;
    assert_eq!(round_trip(&s, some), json(some));
    let none = r#"{"flag": false, "label": null}"#;
    assert_eq!(round_trip(&s, none), json(none));
}

#[test]
fn unstitch_boolean_and_null_values() {
    let s = named("bool", "response", r#"[{ "/flag": "flag", "/label": "label" }]"#);
    assert_eq!(
        unstitch(&s, r#"{ "flag": true, "label": null }"#),
        json(r#"{"flag": true, "label": null}"#)
    );
}

#[test]
fn stitch_boolean_and_null_values() {
    let s = named("bool", "response", r#"[{ "/flag": "flag", "/label": "label" }]"#);
    assert_eq!(stitch(&s, r#"{"flag": false, "label": null}"#), json(r#"{ "flag": false, "label": null }"#));
}

#[test]
fn stitch_boolean_true_with_label() {
    let s = named("bool", "response", r#"[{ "/flag": "flag", "/label": "label" }]"#);
    assert_eq!(
        stitch(&s, r#"{"flag": true, "label": "present"}"#),
        json(r#"{ "flag": true, "label": "present" }"#)
    );
}

const DEEP5_RESPONSE: &str = r#"[{ "/l1/l2/l3/l4/l5": "a.b.c.d.e.leaf" }]"#;

#[test]
fn unstitch_deep_nesting_5_levels_json() {
    let s = named("deep5", "response", DEEP5_RESPONSE);
    assert_eq!(
        unstitch(&s, r#"{ "l1": { "l2": { "l3": { "l4": { "l5": "deeply_nested" } } } } }"#),
        json(r#"{"a": {"b": {"c": {"d": {"e": {"leaf": "deeply_nested"}}}}}}"#)
    );
}

#[test]
fn stitch_deep_nesting_5_levels() {
    let s = named("deep5", "response", DEEP5_RESPONSE);
    assert_eq!(
        stitch(&s, r#"{"a": {"b": {"c": {"d": {"e": {"leaf": "deeply_nested"}}}}}}"#),
        json(r#"{ "l1": { "l2": { "l3": { "l4": { "l5": "deeply_nested" } } } } }"#)
    );
}

#[test]
fn roundtrip_deep_nesting_5_levels() {
    let s = named("deep5", "response", DEEP5_RESPONSE);
    let original_json = r#"{ "l1": { "l2": { "l3": { "l4": { "l5": "value" } } } } }"#;
    assert_eq!(response_round_trip(&s, original_json), json(original_json));
    let original_struct = r#"{"a": {"b": {"c": {"d": {"e": {"leaf": "struct_side"}}}}}}"#;
    assert_eq!(round_trip(&s, original_struct), json(original_struct));
}

#[test]
fn unstitch_fan_out_with_nested_target() {
    let s = named("fan", "response", r#"[{ "/model": ["model", "config.model"] }]"#);
    let r = unstitch(&s, r#"{ "model": "gpt-4" }"#);
    assert_eq!(r["model"], "gpt-4");
    assert_eq!(r["config"]["model"], "gpt-4");
}

#[test]
fn unstitch_nested_json_multiple_children() {
    let s = named("children", "response", r#"[{ "/config/model": "model", "/config/temp": "temperature" }]"#);
    assert_eq!(
        unstitch(&s, r#"{ "config": { "model": "gpt-4", "temp": 0.7 } }"#),
        json(r#"{"model": "gpt-4", "temperature": 0.7}"#)
    );
}

#[test]
fn stitch_nested_json_multiple_children() {
    let s = named("children", "response", r#"[{ "/config/model": "model", "/config/temp": "temperature" }]"#);
    assert_eq!(
        stitch(&s, r#"{"model": "gpt-4", "temperature": 0.7}"#),
        json(r#"{ "config": { "model": "gpt-4", "temp": 0.7 } }"#)
    );
}

#[test]
fn unstitch_empty_string_value() {
    let s = named("empty", "response", r#"[{ "/model": "model" }]"#);
    assert_eq!(unstitch(&s, r#"{ "model": "" }"#), json(r#"{"model": ""}"#));
}

#[test]
fn stitch_empty_string_value() {
    let s = named("empty", "response", r#"[{ "/model": "model" }]"#);
    assert_eq!(stitch(&s, r#"{"model": ""}"#), json(r#"{ "model": "" }"#));
}

#[test]
fn unstitch_preserves_numeric_types() {
    let s = named("nums", "response", r#"[{ "/model": "model", "/temp": "temperature", "/tokens": "max_tokens" }]"#);
    let r = unstitch(&s, r#"{ "model": "gpt-4", "temp": 0.0, "tokens": 0 }"#);
    assert_eq!(r, json(r#"{"model": "gpt-4", "temperature": 0.0, "max_tokens": 0}"#));
    assert!(r["temperature"].is_f64());
    assert!(r["max_tokens"].is_u64());
}

#[test]
fn suture_metadata_is_correct() {
    let s = named("my_set", "response", r#"[{ "/model": "model" }]"#);
    assert!(s.is_response());
    assert!(!s.is_request());
    assert_eq!(s.name(), "my_set");
}

#[test]
fn multiple_suture_sets_parse_all() {
    let s = sutures(
        r#"{"name": "test", "suture_sets": [
            {"name": "first", "capture": "response", "sutures": [{ "/model": "model" }]},
            {"name": "second", "capture": "response", "sutures": [{ "/temp": "temperature" }]}
        ]}"#,
    );
    assert_eq!(s.len(), 2);
    assert_eq!(s[0].name(), "first");
    assert_eq!(s[1].name(), "second");
    assert_eq!(unstitch(&s[0], r#"{ "model": "gpt-4" }"#)["model"], "gpt-4");
}

#[test]
fn roundtrip_fan_out() {
    let s = named("fan", "response", r#"[{ "/model": ["model", "model_name"] }]"#);
    let before = r#"{ "model": "gpt-4" }"#;
    let intermediate = unstitch(&s, before);
    assert_eq!(intermediate["model"], "gpt-4");
    assert_eq!(intermediate["model_name"], "gpt-4");
    assert_eq!(response_round_trip(&s, before), json(before));
}

#[test]
fn stitch_empty_struct_array() {
    let s = one("response", r#"{ "/items/[:]": "items[:]" }"#);
    let result = stitch(&s, r#"{"items": []}"#);
    if let Some(arr) = result.get("items") {
        assert_eq!(arr.as_array().unwrap().len(), 0);
    }
}

#[test]
fn roundtrip_stitch_then_unstitch_full_array() {
    let s = one("response", r#"{ "/items/[:]": "items[:]" }"#);
    let before = r#"{"items": ["x", "y", "z"]}"#;
    assert_eq!(round_trip(&s, before), json(before));
}

#[test]
fn roundtrip_field_extraction() {
    let s = one("response", r#"{ "/items/[:]/name": "names[:]" }"#);
    let before = r#"{"names": ["hello", "world"]}"#;
    assert_eq!(round_trip(&s, before), json(before));
}

#[test]
fn roundtrip_nested_object_fields() {
    let s = one("response", RESPONSE_NESTED_ITEMS);
    let before = r#"{"items": [{"name": "foo", "value": 100}, {"name": "bar", "value": 200}]}"#;
    assert_eq!(round_trip(&s, before), json(before));
}

#[test]
fn roundtrip_nested_field_into_struct_array() {
    let s = one("response", r#"{ "/data/[:]/name": "items[:].name" }"#);
    let before = r#"{ "data": [{"name": "alice"}, {"name": "bob"}] }"#;
    assert_eq!(response_round_trip(&s, before), json(before));
}

fn response_slice(sel: &str, target: &str, input: &str) -> Value {
    let s = one("response", &format!(r#"{{ "/items/{sel}": "{target}" }}"#));
    unstitch(&s, input)
}

#[test]
fn unstitch_step_three_on_ten_elements() {
    let r = response_slice("[::3]", "evens[:]", r#"{ "items": [0, 1, 2, 3, 4, 5, 6, 7, 8, 9] }"#);
    assert_eq!(r["evens"], json("[0, 3, 6, 9]"));
}

#[test]
fn unstitch_step_three_on_twelve_elements() {
    let r = response_slice("[::3]", "selected[:]", r#"{ "items": [0, 1, 2, 3, 4, 5, 6, 7, 8, 9, 10, 11] }"#);
    assert_eq!(r["selected"], json("[0, 3, 6, 9]"));
}

#[test]
fn unstitch_reverse_step_two_on_six_elements() {
    let r = response_slice("[::-2]", "reversed[:]", r#"{ "items": [0, 1, 2, 3, 4, 5] }"#);
    assert_eq!(r["reversed"], json("[5, 3, 1]"));
}

#[test]
fn unstitch_reverse_step_two_on_five_elements() {
    let r = response_slice("[::-2]", "reversed[:]", r#"{ "items": [0, 1, 2, 3, 4] }"#);
    assert_eq!(r["reversed"], json("[4, 2, 0]"));
}

#[test]
fn unstitch_negative_index_minus_two() {
    let r = response_slice("[-2]", "item", r#"{ "items": [10, 20, 30, 40, 50] }"#);
    assert_eq!(r["item"], json("40"));
}

#[test]
fn unstitch_negative_index_minus_one_large() {
    let r = response_slice("[-1]", "last", r#"{ "items": [10, 20, 30, 40, 50] }"#);
    assert_eq!(r["last"], json("50"));
}

#[test]
fn unstitch_out_of_range_slice_yields_empty() {
    let r = response_slice("[10:20]", "slice[:]", r#"{ "items": ["a", "b", "c"] }"#);
    assert!(r.get("slice").is_none());
}

#[test]
fn unstitch_slice_past_end_clamps() {
    let r = response_slice("[2:100]", "slice[:]", r#"{ "items": ["a", "b", "c", "d"] }"#);
    assert_eq!(r["slice"], json(r#"["c", "d"]"#));
}

#[test]
fn unstitch_zero_start_open_end() {
    let r = response_slice("[0:]", "items[:]", r#"{ "items": [10, 20, 30] }"#);
    assert_eq!(r["items"], json("[10, 20, 30]"));
}

#[test]
fn unstitch_open_start_fixed_end() {
    let r = response_slice("[:2]", "slice[:]", r#"{ "items": ["a", "b", "c", "d"] }"#);
    assert_eq!(r["slice"], json(r#"["a", "b"]"#));
}

#[test]
fn unstitch_reverse_full_array() {
    let r = response_slice("[::-1]", "reversed[:]", r#"{ "items": [1, 2, 3, 4, 5] }"#);
    assert_eq!(r["reversed"], json("[5, 4, 3, 2, 1]"));
}

const NAMED_FIVE: &str = r#"{ "items": [{"name": "zero"}, {"name": "one"}, {"name": "two"}, {"name": "three"}, {"name": "four"}] }"#;

#[test]
fn unstitch_step_with_field_extraction() {
    let r = response_slice("[::2]/name", "names[:]", NAMED_FIVE);
    assert_eq!(r["names"], json(r#"["zero", "two", "four"]"#));
}

#[test]
fn unstitch_reverse_with_field_extraction() {
    let r = response_slice(
        "[::-1]/name",
        "names[:]",
        r#"{ "items": [{"name": "first"}, {"name": "second"}, {"name": "third"}] }"#,
    );
    assert_eq!(r["names"], json(r#"["third", "second", "first"]"#));
}

#[test]
fn unstitch_large_array_step_five() {
    let items: Vec<String> = (0..20).map(|i| i.to_string()).collect();
    let input = format!(r#"{{ "items": [{}] }}"#, items.join(", "));
    let r = response_slice("[::5]", "selected[:]", &input);
    assert_eq!(r["selected"], json("[0, 5, 10, 15]"));
}

#[test]
fn unstitch_fan_out_preserves_all_elements() {
    let s = one("response", r#"{ "/items/[:]/name": ["names[:]", "labels[:]"] }"#);
    let r = unstitch(&s, r#"{ "items": [{"name": "a"}, {"name": "b"}] }"#);
    assert_eq!(r["names"], r["labels"]);
    assert_eq!(r["names"], json(r#"["a", "b"]"#));
}

#[test]
fn parsed_suture_is_response() {
    let s = one("response", r#"{ "/items/[:]": "items[:]" }"#);
    assert!(s.is_response());
    assert!(!s.is_request());
}

#[test]
fn unstitch_range_step_larger_array() {
    let r = response_slice("[1:5:2]", "selected[:]", r#"{ "items": ["a", "b", "c", "d", "e", "f", "g", "h"] }"#);
    assert_eq!(r["selected"], json(r#"["b", "d"]"#));
}

#[test]
fn unstitch_single_element_field_extraction() {
    let r = response_slice("[:]/name", "names[:]", r#"{ "items": [{"name": "only"}] }"#);
    assert_eq!(r["names"], json(r#"["only"]"#));
}

#[test]
fn unstitch_empty_array_field_extraction() {
    let r = response_slice("[:]/name", "names[:]", r#"{ "items": [] }"#);
    assert!(r.get("names").is_none());
}

#[test]
fn unstitch_slice_with_field_extraction() {
    let r = response_slice(
        "[1:3]/name",
        "names[:]",
        r#"{ "items": [{"name": "zero"}, {"name": "one"}, {"name": "two"}, {"name": "three"}] }"#,
    );
    assert_eq!(r["names"], json(r#"["one", "two"]"#));
}

#[test]
fn roundtrip_single_element() {
    let s = one("response", r#"{ "/items/[:]": "items[:]" }"#);
    let before = r#"{ "items": [99] }"#;
    assert_eq!(unstitch(&s, before)["items"], json("[99]"));
    assert_eq!(response_round_trip(&s, before), json(before));
}

#[test]
fn unstitch_negative_start_positive_end() {
    let r = response_slice("[-3:4]", "slice[:]", r#"{ "items": [0, 1, 2, 3, 4] }"#);
    assert_eq!(r["slice"], json("[2, 3]"));
}

#[test]
fn unstitch_mixed_types_in_array() {
    let r = response_slice("[:]", "items[:]", r#"{ "items": [1, "two", true, null, 3.14] }"#);
    assert_eq!(r["items"], json(r#"[1, "two", true, null, 3.14]"#));
}

#[test]
fn roundtrip_mixed_types() {
    let s = one("response", r#"{ "/items/[:]": "items[:]" }"#);
    let before = r#"{ "items": [1, "two", true, null] }"#;
    assert_eq!(response_round_trip(&s, before), json(before));
}

#[test]
fn unstitch_nested_objects_in_array() {
    let r = response_slice("[:]", "items[:]", r#"{ "items": [{"a": 1, "b": 2}, {"a": 3, "b": 4}] }"#);
    let items = r["items"].as_array().unwrap();
    assert_eq!(items.len(), 2);
    assert_eq!(items[0], json(r#"{"a": 1, "b": 2}"#));
    assert_eq!(items[1], json(r#"{"a": 3, "b": 4}"#));
}

#[test]
fn unstitch_deeply_nested_json_path() {
    let s = one("response", r#"{ "/data/results/[:]": "vals[:]" }"#);
    let r = unstitch(&s, r#"{ "data": { "results": [100, 200, 300] } }"#);
    assert_eq!(r["vals"], json("[100, 200, 300]"));
}

#[test]
fn stitch_deeply_nested_json_path() {
    let s = one("response", r#"{ "/data/results/[:]": "vals[:]" }"#);
    assert_eq!(
        stitch(&s, r#"{"vals": [100, 200, 300]}"#),
        json(r#"{ "data": { "results": [100, 200, 300] } }"#)
    );
}

#[test]
fn roundtrip_deeply_nested() {
    let s = one("response", r#"{ "/data/results/[:]": "vals[:]" }"#);
    let before = r#"{ "data": { "results": [1, 2, 3] } }"#;
    assert_eq!(response_round_trip(&s, before), json(before));
}

const MERGED_SUTURES: &str = r#"[{ "model": "/model" }, { "temperature": "/temperature" }, { "stream": "/stream" }]"#;

#[test]
fn stitch_multiple_suture_objects() {
    let s = named("merged", "request", MERGED_SUTURES);
    assert_eq!(
        stitch(&s, r#"{"model": "gpt-4", "temperature": 0.9, "stream": true}"#),
        json(r#"{ "model": "gpt-4", "temperature": 0.9, "stream": true }"#)
    );
}

#[test]
fn comptime_request_direct_unstitch_multiple_suture_objects() {
    let s = named("merged", "request", MERGED_SUTURES);
    assert_eq!(
        unstitch(&s, r#"{ "model": "gpt-4", "temperature": 0.9, "stream": true }"#),
        json(r#"{"model": "gpt-4", "temperature": 0.9, "stream": true}"#)
    );
}

#[test]
fn roundtrip_stitch_unstitch_simple() {
    let s = named("rt", "request", r#"[{ "model": "/model", "temperature": "/temperature" }]"#);
    let before = r#"{"model": "gpt-4", "temperature": 0.7}"#;
    assert_eq!(round_trip(&s, before), json(before));
}

#[test]
fn roundtrip_stitch_unstitch_nested() {
    let s = named(
        "rt",
        "request",
        r#"[{ "name": "/name", "config.model": "/config/model", "config.temp": "/config/temp" }]"#,
    );
    let before = r#"{"name": "run", "config": {"model": "gpt-4", "temp": 0.5}}"#;
    assert_eq!(round_trip(&s, before), json(before));
}

#[test]
fn roundtrip_very_deep_nesting() {
    let s = named("deep", "request", r#"[{ "value": "/a/b/c/d/e/f/g" }]"#);
    let before = r#"{"value": "round-trip"}"#;
    assert_eq!(round_trip(&s, before), json(before));
}

#[test]
fn stitch_empty_sutures_array() {
    let s = named("empty", "request", "[{}]");
    assert_eq!(stitch(&s, "{}"), json("{}"));
}

#[test]
fn unstitch_empty_sutures_array() {
    let s = named("empty", "request", "[{}]");
    assert_eq!(unstitch(&s, "{}"), json("{}"));
}

#[test]
fn multiple_suture_sets_vec_length() {
    let s = two_sets();
    assert_eq!(s.len(), 2);
    assert_eq!(s[0].name(), "set_a");
    assert_eq!(s[1].name(), "set_b");
}

#[test]
fn roundtrip_complex_mixed() {
    let s = named(
        "complex",
        "request",
        r#"[{ "model": "/model", "params": { "prompt": "/prompt", "max_tokens": "/config/max_tokens" }, "stream": "/stream" }]"#,
    );
    let before = r#"{"model": "gpt-4", "params": {"prompt": "Hello world", "max_tokens": 1024}, "stream": false}"#;
    assert_eq!(
        stitch(&s, before),
        json(r#"{ "model": "gpt-4", "prompt": "Hello world", "config": { "max_tokens": 1024 }, "stream": false }"#)
    );
    assert_eq!(round_trip(&s, before), json(before));
}

#[test]
fn roundtrip_deep_nested_object_syntax() {
    let s = named("deep_rt", "request", r#"[{ "mid": { "leaf": { "val": "/data/inner/value" } } }]"#);
    let before = r#"{"mid": {"leaf": {"val": "bottom"}}}"#;
    assert_eq!(stitch(&s, before), json(r#"{ "data": { "inner": { "value": "bottom" } } }"#));
    assert_eq!(round_trip(&s, before), json(before));
}

#[test]
fn stitch_overlapping_json_targets() {
    let s = named("overlap", "request", r#"[{ "first": "/output", "second": "/output" }]"#);
    // Both fields write to /output: the last one processed wins.
    assert_eq!(stitch(&s, r#"{"first": "aaa", "second": "bbb"}"#)["output"], json(r#""bbb""#));
}

#[test]
fn dot_path_and_object_syntax_produce_same_result() {
    let dot = named("dot", "request", r#"[{ "inner.val": "/out/value" }]"#);
    let obj = named("obj", "request", r#"[{ "inner": { "val": "/out/value" } }]"#);
    let input = r#"{"inner": {"val": "same"}}"#;
    assert_eq!(stitch(&dot, input), stitch(&obj, input));
    assert_eq!(stitch(&dot, input), json(r#"{ "out": { "value": "same" } }"#));
}

#[test]
fn stitch_sparse_mapping() {
    let s = named("sparse", "request", r#"[{ "a": "/alpha", "c": "/gamma", "e": "/epsilon" }]"#);
    let result = stitch(&s, r#"{"a": "1", "b": "2", "c": "3", "d": "4", "e": "5"}"#);
    assert_eq!(result, json(r#"{ "alpha": "1", "gamma": "3", "epsilon": "5" }"#));
    assert!(result.get("b").is_none());
    assert!(result.get("d").is_none());
}

#[test]
fn stitch_deep_json_path() {
    let s = named("deep_path", "request", r#"[{ "name": "/data/attributes/name" }]"#);
    assert_eq!(
        stitch(&s, r#"{"name": "Alice"}"#),
        json(r#"{ "data": { "attributes": { "name": "Alice" } } }"#)
    );
}

#[test]
fn roundtrip_stitch_unstitch_multi_types() {
    let s = named("rt", "request", r#"[{ "a": "/alpha", "b": "/beta", "c": "/gamma", "d": "/delta" }]"#);
    let before = r#"{"a": "hello", "b": 42, "c": true, "d": 3.14}"#;
    assert_eq!(round_trip(&s, before), json(before));
}

// ---------------------------------------------------------------------------
// Metadata and edge cases
// ---------------------------------------------------------------------------

fn with_meta(meta: &str, capture: &str, sutures_json: &str) -> Suture {
    sutures(&format!(
        r#"{{"name": "test", "suture_sets": [{{ {meta}, "capture": "{capture}", "sutures": {sutures_json} }}]}}"#
    ))
    .remove(0)
}

#[test]
fn metadata_name() {
    assert_eq!(with_meta(r#""name": "my_suture""#, "request", r#"[{ "model": "/model" }]"#).name(), "my_suture");
}

#[test]
fn metadata_id() {
    let s = with_meta(r#""id": "suture-001", "name": "identified""#, "request", r#"[{ "model": "/model" }]"#);
    assert_eq!(s.id(), Some("suture-001"));
    assert_eq!(with_meta(r#""name": "no_id""#, "request", r#"[{ "model": "/model" }]"#).id(), None);
}

#[test]
fn metadata_description() {
    let s = with_meta(
        r#""name": "described", "description": "A test suture for validation""#,
        "request",
        r#"[{ "model": "/model" }]"#,
    );
    assert_eq!(s.description(), Some("A test suture for validation"));
    assert_eq!(with_meta(r#""name": "no_desc""#, "request", r#"[{ "model": "/model" }]"#).description(), None);
}

#[test]
fn metadata_version() {
    let s = with_meta(r#""name": "versioned", "version": "2.1.0""#, "request", r#"[{ "model": "/model" }]"#);
    assert_eq!(s.version(), Some("2.1.0"));
    assert_eq!(with_meta(r#""name": "no_ver""#, "request", r#"[{ "model": "/model" }]"#).version(), None);
}

#[test]
fn metadata_direction() {
    let req = with_meta(r#""name": "req""#, "request", r#"[{ "model": "/model" }]"#);
    assert!(req.is_request());
    assert!(!req.is_response());
    let resp = with_meta(r#""name": "resp""#, "response", r#"[{ "/content": "content" }]"#);
    assert!(!resp.is_request());
    assert!(resp.is_response());
}

#[test]
fn metadata_display() {
    let m = r#"[{ "model": "/model" }]"#;
    assert_eq!(with_meta(r#""name": "bare""#, "request", m).display(), "bare");
    assert_eq!(with_meta(r#""name": "versioned", "version": "1.0""#, "request", m).display(), "versioned@1.0");
    assert_eq!(with_meta(r#""id": "abc", "name": "identified""#, "request", m).display(), "identified (abc)");
    assert_eq!(
        with_meta(r#""id": "xyz", "name": "full", "version": "3.0""#, "request", m).display(),
        "full@3.0 (xyz)"
    );
}

#[test]
fn multiple_sets_request_and_response() {
    let s = sutures(
        r#"{"name": "test", "suture_sets": [
            {"name": "req", "capture": "request", "sutures": [{ "model": "/model" }]},
            {"name": "resp", "capture": "response", "sutures": [{ "/content": "content" }]}
        ]}"#,
    );
    assert_eq!(s.len(), 2);
    assert!(s[0].is_request());
    assert!(s[1].is_response());
    assert_eq!(stitch(&s[0], r#"{"model": "gpt-4"}"#), json(r#"{ "model": "gpt-4" }"#));
    assert_eq!(unstitch(&s[1], r#"{ "content": "output text" }"#)["content"], "output text");
}

#[test]
fn mixed_direct_and_iterate() {
    let s = named("mixed_bind", "request", r#"[{ "model": "/model", "tags[:]": "/tags/[:]" }]"#);
    let r = stitch(&s, r#"{"model": "gpt-4", "tags": ["a", "b"]}"#);
    assert_eq!(r["model"], "gpt-4");
    assert_eq!(r["tags"], json(r#"["a", "b"]"#));
}

#[test]
fn mixed_direct_constants_iterate() {
    let s = named(
        "triple",
        "request",
        r#"[{ "model": "/model", "items[:]": "/data/[:]", "_": [{ "/api_version": "v2" }] }]"#,
    );
    let r = stitch(&s, r#"{"model": "model-x", "items": ["x", "y"]}"#);
    assert_eq!(r["model"], "model-x");
    assert_eq!(r["data"], json(r#"["x", "y"]"#));
    assert_eq!(r["api_version"], "v2");
}

#[test]
fn multiple_suture_objects_in_array() {
    let s = named("multi_obj", "request", r#"[{ "model": "/model" }, { "temperature": "/temperature" }]"#);
    let r = stitch(&s, r#"{"model": "gpt-4", "temperature": 0.9}"#);
    assert_eq!(r["model"], "gpt-4");
    assert_eq!(r["temperature"], 0.9);
}

#[test]
fn edge_null_values() {
    let s = named("null_test", "response", r#"[{ "/content": "content" }]"#);
    let r = unstitch(&s, r#"{ "content": null }"#);
    assert!(r.get("extra").is_none());
    assert!(r["content"].is_null());
}

#[test]
fn edge_empty_string() {
    let s = named("empty_str", "request", r#"[{ "value": "/value" }]"#);
    assert_eq!(stitch(&s, r#"{"value": ""}"#), json(r#"{ "value": "" }"#));
    assert_eq!(unstitch(&s, r#"{ "value": "" }"#)["value"], "");
}

#[test]
fn edge_large_i64() {
    let s = named("large_int", "request", r#"[{ "big_int": "/big_int" }]"#);
    assert_eq!(stitch(&s, &format!(r#"{{"big_int": {}}}"#, i64::MAX))["big_int"], i64::MAX);
    assert_eq!(stitch(&s, &format!(r#"{{"big_int": {}}}"#, i64::MIN))["big_int"], i64::MIN);
}

#[test]
fn edge_bool_values() {
    let s = named("bools", "request", r#"[{ "a": "/a", "b": "/b" }]"#);
    let r = stitch(&s, r#"{"a": true, "b": false}"#);
    assert_eq!(r["a"], true);
    assert_eq!(r["b"], false);
    let back = unstitch(&s, &r.to_string());
    assert_eq!(back["a"], true);
    assert_eq!(back["b"], false);
}

#[test]
fn edge_empty_arrays() {
    let s = named("empty_arr", "request", r#"[{ "items[:]": "/items/[:]" }]"#);
    assert_eq!(stitch(&s, r#"{"items": []}"#), json("{}"));
    assert_eq!(unstitch(&s, "{}"), json("{}"));
}

#[test]
fn direct_mapping_round_trip_nested_paths() {
    let s = one("request", r#"{"a.b": "/x/y", "a.c": "/x/z", "d": "/w"}"#);
    let before = r#"{"a": {"b": 1, "c": [true]}, "d": "text"}"#;
    assert_eq!(stitch(&s, before), json(r#"{"x": {"y": 1, "z": [true]}, "w": "text"}"#));
    assert_eq!(round_trip(&s, before), json(before));
}

#[test]
fn direct_mapping_round_trip_response_nested() {
    let s = one("response", r#"{"/x/y": "a.b", "/w": "d"}"#);
    let before = r#"{"x": {"y": 1}, "w": 2}"#;
    assert_eq!(unstitch(&s, before), json(r#"{"a": {"b": 1}, "d": 2}"#));
    assert_eq!(response_round_trip(&s, before), json(before));
}

#[test]
fn slice_without_step_is_an_ordinary_slice() {
    let s = one("request", r#"{"items[-1:0]": "/out"}"#);
    assert_eq!(stitch(&s, r#"{"items": [1, 2, 3]}"#), json(r#"{}"#));
    let t = one("request", r#"{"items[-1]": "/out"}"#);
    assert_eq!(stitch(&t, r#"{"items": [1, 2, 3]}"#), json(r#"{"out": 3}"#));
}

#[test]
fn negative_write_index_is_refused_with_its_text() {
    let s = one("request", r#"{"model": "/out/[-1]"}"#);
    let r = s.stitch_value(&doc(r#"{"model": "m"}"#));
    assert!(matches!(r, Err(Error::Stitch(m)) if m == "negative index on write side is not supported"));
    let u = s.unstitch_value(&doc(r#"{"out": ["m"]}"#));
    assert!(u.is_ok());
}

fn keys_once(v: &JsonValue) -> bool {
    match v {
        JsonValue::Object(entries) => {
            let mut seen: Vec<&String> = Vec::new();
            for (k, child) in entries {
                if seen.contains(&k) || !keys_once(child) {
                    return false;
                }
                seen.push(k);
            }
            true
        }
        JsonValue::Array(items) => items.iter().all(keys_once),
        _ => true,
    }
}

#[test]
fn stitched_objects_hold_each_key_once() {
    let s = one("request", r#"{ "a": "/x", "b": "/x", "items[:].name": "/data/[:]/n", "items[:].alias": "/data/[:]/n" }"#);
    let input = doc(r#"{"a": 1, "b": 2, "items": [{"name": "p", "alias": "q"}, {"name": "r"}]}"#);
    let out = s.stitch_value(&input).unwrap();
    assert!(keys_once(&out));
    match &out {
        JsonValue::Object(entries) => assert_eq!(entries.iter().filter(|(k, _)| k == "x").count(), 1),
        _ => panic!("expected an object"),
    }
    let back = s.unstitch_value(&out).unwrap();
    assert!(keys_once(&back));
}

#[test]
fn nested_object_with_several_entries_compiles_as_dotted_keys() {
    let dot = named("same", "request", r#"[{ "inner.val": "/out/value", "inner.list[:]": "/out/items/[:]" }]"#);
    let obj = named("same", "request", r#"[{ "inner": { "val": "/out/value", "list[:]": "/out/items/[:]" } }]"#);
    let input = r#"{"inner": {"val": "same", "list": [1, 2]}}"#;
    assert_eq!(stitch(&dot, input), stitch(&obj, input));
    assert_eq!(stitch(&dot, input), json(r#"{ "out": { "value": "same", "items": [1, 2] } }"#));
    assert_eq!(format!("{:?}", dot.binding), format!("{:?}", obj.binding));
}
