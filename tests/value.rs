use snapbox::data::{Data, NormalizeToExpected};
use snapbox::redact::Redactions;
use snapbox::value::{normalize_value_matches, Value};

fn num(n: i64) -> Value {
    Value::Number(n.to_string())
}

fn s(t: &str) -> Value {
    Value::String(t.to_string())
}

fn arr(items: Vec<Value>) -> Value {
    Value::Array(items)
}

fn obj(entries: Vec<(&str, Value)>) -> Value {
    Value::Object(entries.into_iter().map(|(k, v)| (k.to_string(), v)).collect())
}

fn normalized(mut actual: Value, expected: &Value, sub: &Redactions) -> Value {
    normalize_value_matches(&mut actual, expected, sub);
    actual
}

#[test]
fn array_collapse() {
    let actual = arr(vec![num(1), num(2), num(3), num(4), num(5)]);
    let expected = arr(vec![num(1), s("{...}"), num(5)]);
    let r = normalized(actual, &expected, &Redactions::new());
    assert_eq!(r, arr(vec![num(1), s("{...}"), num(5)]));
}

#[test]
fn array_trailing_wildcard_collapses_the_rest() {
    let actual = arr(vec![num(1), num(2), num(3)]);
    let expected = arr(vec![num(1), s("{...}")]);
    let r = normalized(actual, &expected, &Redactions::new());
    assert_eq!(r, arr(vec![num(1), s("{...}")]));
}

#[test]
fn array_adjacent_wildcards_collapse_the_rest() {
    let actual = arr(vec![num(1), num(2), num(3)]);
    let expected = arr(vec![s("{...}"), s("{...}"), num(3)]);
    let r = normalized(actual, &expected, &Redactions::new());
    assert_eq!(r, arr(vec![s("{...}")]));
}

#[test]
fn array_missing_anchor_keeps_the_rest() {
    let actual = arr(vec![num(1), num(2), num(3)]);
    let expected = arr(vec![num(1), s("{...}"), num(9)]);
    let r = normalized(actual, &expected, &Redactions::new());
    assert_eq!(r, arr(vec![num(1), num(2), num(3)]));
}

#[test]
fn array_longer_than_pattern_keeps_the_rest() {
    let actual = arr(vec![s("a"), s("b"), s("c")]);
    let expected = arr(vec![s("[..]")]);
    let r = normalized(actual, &expected, &Redactions::new());
    assert_eq!(r, arr(vec![s("[..]"), s("b"), s("c")]));
}

#[test]
fn array_shorter_than_pattern() {
    let actual = arr(vec![num(1)]);
    let expected = arr(vec![num(1), num(2)]);
    let r = normalized(actual, &expected, &Redactions::new());
    assert_eq!(r, arr(vec![num(1)]));
}

#[test]
fn object_unknown_key_dropped() {
    let actual = obj(vec![("a", num(1)), ("b", num(2))]);
    let expected = obj(vec![("a", num(1)), ("...", s("{...}"))]);
    let r = normalized(actual, &expected, &Redactions::new());
    assert_eq!(r, obj(vec![("a", num(1)), ("...", s("{...}"))]));
}

#[test]
fn object_unknown_key_kept_without_wildcard() {
    let actual = obj(vec![("b", num(2)), ("a", s("x y"))]);
    let expected = obj(vec![("a", s("x [..]"))]);
    let r = normalized(actual, &expected, &Redactions::new());
    assert_eq!(r, obj(vec![("b", num(2)), ("a", s("x [..]"))]));
}

#[test]
fn object_keys_are_redacted() {
    let mut sub = Redactions::new();
    sub.insert("[HOME]", "/home/alice").unwrap();
    let actual = obj(vec![("/home/alice", num(1))]);
    let expected = obj(vec![("[HOME]", s("{...}"))]);
    let r = normalized(actual, &expected, &sub);
    assert_eq!(r, obj(vec![("[HOME]", s("{...}"))]));
}

#[test]
fn value_wildcard_matches_anything() {
    let actual = obj(vec![("a", arr(vec![num(1)]))]);
    let r = normalized(actual, &s("{...}"), &Redactions::new());
    assert_eq!(r, s("{...}"));
}

#[test]
fn mismatched_kinds_are_left_alone() {
    let r = normalized(num(3), &arr(vec![num(3)]), &Redactions::new());
    assert_eq!(r, num(3));
    let r = normalized(Value::Bool(true), &Value::Null, &Redactions::new());
    assert_eq!(r, Value::Bool(true));
}

#[test]
fn strings_use_the_text_normalizer() {
    let r = normalized(s("hello world"), &s("hello [..]"), &Redactions::new());
    assert_eq!(r, s("hello [..]"));
}

#[test]
fn filter_text() {
    let sub = Redactions::new();
    let pattern = Data::Text("Hello\n...\n".to_string());
    let f = NormalizeToExpected::new(&sub, &pattern);
    let r = f.filter(Data::Text("Hello\nWorld\nMore\n".to_string()));
    assert_eq!(r, Data::Text("Hello\n...\n".to_string()));
    let r = f.filter(Data::Binary(vec![1, 2]));
    assert_eq!(r, Data::Binary(vec![1, 2]));
}

#[test]
fn filter_json() {
    let sub = Redactions::new();
    let pattern = Data::Json(arr(vec![num(1), s("{...}")]));
    let f = NormalizeToExpected::new(&sub, &pattern);
    let r = f.filter(Data::Json(arr(vec![num(1), num(2)])));
    assert_eq!(r, Data::Json(arr(vec![num(1), s("{...}")])));
    let r = f.filter(Data::Text("x".to_string()));
    assert_eq!(r, Data::Text("x".to_string()));
}

#[test]
fn render_text_shapes_only() {
    assert_eq!(Data::Text("a".to_string()).render(), Some("a".to_string()));
    assert_eq!(Data::TermSvg("b".to_string()).render(), Some("b".to_string()));
    assert_eq!(Data::Json(Value::Null).render(), None);
}
