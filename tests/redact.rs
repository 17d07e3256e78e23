use snapbox::redact::{PlaceholderError, Redactions};

#[test]
fn placeholder_must_be_bracketed() {
    let mut sub = Redactions::new();
    assert_eq!(sub.insert("HOME", "x"), Err(PlaceholderError::NotBracketed));
    assert_eq!(sub.insert("[HOME", "x"), Err(PlaceholderError::NotBracketed));
    assert_eq!(sub.insert("]", "x"), Err(PlaceholderError::NotBracketed));
    assert_eq!(sub.redact("x"), "x");
}

#[test]
fn placeholder_must_be_upper_case() {
    let mut sub = Redactions::new();
    assert_eq!(sub.insert("[home]", "x"), Err(PlaceholderError::BadCharacter));
    assert_eq!(sub.insert("[HO ME]", "x"), Err(PlaceholderError::BadCharacter));
    assert_eq!(sub.insert("[MY_HOME]", "x"), Ok(()));
    assert_eq!(sub.insert("[]", "y"), Ok(()));
}

#[test]
fn redact_replaces_every_occurrence() {
    let mut sub = Redactions::new();
    sub.insert("[X]", "ab").unwrap();
    assert_eq!(sub.redact("abcabab"), "[X]c[X][X]");
    assert_eq!(sub.redact("aab"), "a[X]");
    assert_eq!(sub.redact(""), "");
}

#[test]
fn redact_prefers_longer_values() {
    let mut sub = Redactions::new();
    sub.insert("[SHORT]", "/a").unwrap();
    sub.insert("[LONG]", "/a/b").unwrap();
    assert_eq!(sub.redact("/a/b /a"), "[LONG] [SHORT]");
}

#[test]
fn clear_removes_empty_placeholders() {
    let mut sub = Redactions::new();
    sub.insert("[EXE]", "").unwrap();
    sub.insert("[HOME]", "/home").unwrap();
    assert_eq!(sub.clear("cargo[EXE] [HOME]"), "cargo [HOME]");
    assert_eq!(sub.redact("cargo[EXE]"), "cargo[EXE]");
}
