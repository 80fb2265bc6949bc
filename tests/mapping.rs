use rusty_a11y::json::{JsonNumber, JsonValue};
use rusty_a11y::mapping::{split_path, JsonMapper, JsonMapperError};

fn s(x: &str) -> JsonValue {
    JsonValue::String(x.to_string())
}

fn num(n: u64) -> JsonValue {
    JsonValue::Number(JsonNumber::PosInt(n))
}

fn obj(entries: Vec<(&str, JsonValue)>) -> JsonValue {
    JsonValue::Object(entries.into_iter().map(|(k, v)| (k.to_string(), v)).collect())
}

fn arr(items: Vec<JsonValue>) -> JsonValue {
    JsonValue::Array(items)
}

fn mapper(rules: Vec<(&str, &str)>) -> JsonMapper {
    JsonMapper::new(obj(rules.into_iter().map(|(d, p)| (d, s(p))).collect()))
}

#[test]
fn depth_mismatch_tolerance() {
    let m = mapper(vec![("x", "a.b")]);
    let doc = obj(vec![("a", num(5))]);
    assert_eq!(m.map(&doc), Ok(obj(vec![("x", num(5))])));
}

#[test]
fn list_lifting_broadcasts_parent_fields() {
    let m = mapper(vec![("id", "meta.id"), ("issue", "issues.code")]);
    let doc = obj(vec![
        ("meta", obj(vec![("id", num(7))])),
        ("issues", arr(vec![obj(vec![("code", s("A"))]), obj(vec![("code", s("B"))])])),
    ]);
    let expected = arr(vec![
        obj(vec![("issue", s("A")), ("id", num(7))]),
        obj(vec![("issue", s("B")), ("id", num(7))]),
    ]);
    assert_eq!(m.map(&doc), Ok(expected));
}

#[test]
fn parallel_lists_are_rejected() {
    let m = mapper(vec![("a", "x.v"), ("b", "y.v")]);
    let doc = obj(vec![
        ("x", arr(vec![obj(vec![("v", num(1))])])),
        ("y", arr(vec![obj(vec![("v", num(2))])])),
    ]);
    assert_eq!(m.map(&doc), Err(JsonMapperError::ParallelListMapping));
}

#[test]
fn arrays_of_lists_are_flattened() {
    let m = mapper(vec![("v", "rows.v")]);
    let one = obj(vec![("rows", arr(vec![obj(vec![("v", num(1))]), obj(vec![("v", num(2))])]))]);
    let two = obj(vec![("rows", arr(vec![obj(vec![("v", num(3))])]))]);
    assert_eq!(
        m.map(&one),
        Ok(arr(vec![obj(vec![("v", num(1))]), obj(vec![("v", num(2))])]))
    );
    let both = arr(vec![one, two]);
    assert_eq!(
        m.map(&both),
        Ok(arr(vec![
            obj(vec![("v", num(1))]),
            obj(vec![("v", num(2))]),
            obj(vec![("v", num(3))]),
        ]))
    );
}

#[test]
fn empty_table_is_rejected() {
    let m = JsonMapper::new(obj(vec![]));
    assert_eq!(m.map(&obj(vec![("a", num(1))])), Err(JsonMapperError::Empty));
    assert_eq!(m.map(&arr(vec![])), Err(JsonMapperError::Empty));
    assert_eq!(m.map(&JsonValue::Null), Err(JsonMapperError::Empty));
}

#[test]
fn scalars_pass_through_unchanged() {
    let m = mapper(vec![("t", "a"), ("n", "b"), ("f", "c"), ("z", "d"), ("k", "e"), ("g", "h")]);
    let doc = obj(vec![
        ("a", s("héllo wörld")),
        ("b", JsonValue::Number(JsonNumber::NegInt(-42))),
        ("c", JsonValue::Number(JsonNumber::Float("1.50".to_string()))),
        ("d", JsonValue::Null),
        ("e", JsonValue::Bool(false)),
        ("h", num(u64::MAX)),
    ]);
    let expected = obj(vec![
        ("t", s("héllo wörld")),
        ("n", JsonValue::Number(JsonNumber::NegInt(-42))),
        ("f", JsonValue::Number(JsonNumber::Float("1.50".to_string()))),
        ("z", JsonValue::Null),
        ("k", JsonValue::Bool(false)),
        ("g", num(u64::MAX)),
    ]);
    assert_eq!(m.map(&doc), Ok(expected));
}

#[test]
fn every_destination_present_for_a_full_document() {
    let m = mapper(vec![("url", "page.url"), ("score", "result.score"), ("ok", "success")]);
    let doc = obj(vec![
        ("success", JsonValue::Bool(true)),
        ("page", obj(vec![("url", s("https://example.org")), ("title", s("t"))])),
        ("result", obj(vec![("score", num(93))])),
        ("extra", num(1)),
    ]);
    let expected = obj(vec![
        ("url", s("https://example.org")),
        ("score", num(93)),
        ("ok", JsonValue::Bool(true)),
    ]);
    assert_eq!(m.map(&doc), Ok(expected));
}

#[test]
fn absent_source_keys_are_skipped() {
    let m = mapper(vec![("url", "page.url"), ("score", "result.score")]);
    let doc = obj(vec![("page", obj(vec![("url", s("u"))]))]);
    assert_eq!(m.map(&doc), Ok(obj(vec![("url", s("u"))])));
    let deeper = obj(vec![("page", obj(vec![("title", s("t"))]))]);
    assert_eq!(m.map(&deeper), Ok(obj(vec![])));
}

#[test]
fn leaf_rule_copies_whole_subtree() {
    let m = mapper(vec![("m", "meta")]);
    let doc = obj(vec![("meta", obj(vec![("id", num(7)), ("tags", arr(vec![s("a")]))]))]);
    assert_eq!(
        m.map(&doc),
        Ok(obj(vec![("m", obj(vec![("id", num(7)), ("tags", arr(vec![s("a")]))]))]))
    );
}

#[test]
fn nested_object_collapses_to_outer_name() {
    let m = mapper(vec![("x", "a.b"), ("y", "a.c")]);
    let doc = obj(vec![("a", obj(vec![("b", num(1)), ("c", num(2))]))]);
    assert_eq!(m.map(&doc), Ok(obj(vec![("x", num(2))])));
}

#[test]
fn scalar_document_is_invalid_input() {
    let m = mapper(vec![("x", "a.b")]);
    assert_eq!(m.map(&num(3)), Err(JsonMapperError::InvalidInput));
    assert_eq!(m.map(&s("text")), Err(JsonMapperError::InvalidInput));
    let doc = obj(vec![("a", arr(vec![num(1)]))]);
    assert_eq!(m.map(&doc), Err(JsonMapperError::InvalidInput));
}

#[test]
fn duplicate_path_keeps_last_destination() {
    let m = mapper(vec![("a", "p"), ("b", "p")]);
    assert_eq!(m.map(&obj(vec![("p", num(1))])), Ok(obj(vec![("b", num(1))])));
}

#[test]
fn list_of_scalars_under_a_deeper_rule_is_invalid() {
    let m = mapper(vec![("id", "meta.id"), ("code", "issues.code")]);
    let doc = obj(vec![("meta", obj(vec![("id", num(7))])), ("issues", arr(vec![s("A")]))]);
    assert_eq!(m.map(&doc), Err(JsonMapperError::InvalidInput));
}

#[test]
fn empty_list_lifts_to_no_rows() {
    let m = mapper(vec![("id", "meta.id"), ("issue", "issues.code")]);
    let doc = obj(vec![("meta", obj(vec![("id", num(7))])), ("issues", arr(vec![]))]);
    assert_eq!(m.map(&doc), Ok(arr(vec![])));
}

#[test]
fn paths_split_on_every_dot() {
    let parts = split_path(&"a..b.".to_string());
    assert_eq!(parts, vec!["a".to_string(), String::new(), "b".to_string(), String::new()]);
    assert_eq!(split_path(&String::new()), vec![String::new()]);
    assert_eq!(split_path(&"issues.code".to_string()), vec!["issues".to_string(), "code".to_string()]);
}

#[test]
fn malformed_specifications_are_refused() {
    assert!(JsonMapper::try_new(obj(vec![("x", num(1))])).is_none());
    assert!(JsonMapper::try_new(obj(vec![("x", s("a")), ("y", obj(vec![]))])).is_none());
    assert!(JsonMapper::try_new(arr(vec![s("a.b")])).is_none());
    let m = JsonMapper::try_new(obj(vec![("x", s("a.b"))])).unwrap();
    assert_eq!(m.map(&obj(vec![("a", obj(vec![("b", s("v"))]))])), Ok(obj(vec![("x", s("v"))])));
}

#[test]
fn shared_list_prefix_is_visited_once() {
    let m = mapper(vec![("id", "meta.id"), ("a", "items.v"), ("b", "items.w")]);
    let doc = obj(vec![
        ("meta", obj(vec![("id", num(1))])),
        ("items", arr(vec![obj(vec![("v", num(1)), ("w", num(2))])])),
    ]);
    assert_eq!(
        m.map(&doc),
        Ok(arr(vec![obj(vec![("a", num(1)), ("b", num(2)), ("id", num(1))])]))
    );
}
