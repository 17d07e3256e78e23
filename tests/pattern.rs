use std::path::PathBuf;

use snapbox::pattern::{is_line_elide, line_matches, normalize_to_pattern};
use snapbox::redact::Redactions;

#[test]
fn empty() {
    let input = "";
    let pattern = "";
    let expected = "";
    let actual = normalize_to_pattern(input, pattern, &Redactions::new());
    assert_eq!(expected, actual);
}

#[test]
fn literals_match() {
    let input = "Hello\nWorld";
    let pattern = "Hello\nWorld";
    let expected = "Hello\nWorld";
    let actual = normalize_to_pattern(input, pattern, &Redactions::new());
    assert_eq!(expected, actual);
}

#[test]
fn pattern_shorter() {
    let input = "Hello\nWorld";
    let pattern = "Hello\n";
    let expected = "Hello\nWorld";
    let actual = normalize_to_pattern(input, pattern, &Redactions::new());
    assert_eq!(expected, actual);
}

#[test]
fn input_shorter() {
    let input = "Hello\n";
    let pattern = "Hello\nWorld";
    let expected = "Hello\n";
    let actual = normalize_to_pattern(input, pattern, &Redactions::new());
    assert_eq!(expected, actual);
}

#[test]
fn all_different() {
    let input = "Hello\nWorld";
    let pattern = "Goodbye\nMoon";
    let expected = "Hello\nWorld";
    let actual = normalize_to_pattern(input, pattern, &Redactions::new());
    assert_eq!(expected, actual);
}

#[test]
fn middles_diverge() {
    let input = "Hello\nWorld\nGoodbye";
    let pattern = "Hello\nMoon\nGoodbye";
    let expected = "Hello\nWorld\nGoodbye";
    let actual = normalize_to_pattern(input, pattern, &Redactions::new());
    assert_eq!(expected, actual);
}

#[test]
fn elide_delimited_with_sub() {
    let input = "Hello World\nHow are you?\nGoodbye World";
    let pattern = "Hello [..]\n...\nGoodbye [..]";
    let expected = "Hello [..]\n...\nGoodbye [..]";
    let actual = normalize_to_pattern(input, pattern, &Redactions::new());
    assert_eq!(expected, actual);
}

#[test]
fn leading_elide() {
    let input = "Hello\nWorld\nGoodbye";
    let pattern = "...\nGoodbye";
    let expected = "...\nGoodbye";
    let actual = normalize_to_pattern(input, pattern, &Redactions::new());
    assert_eq!(expected, actual);
}

#[test]
fn trailing_elide() {
    let input = "Hello\nWorld\nGoodbye";
    let pattern = "Hello\n...";
    let expected = "Hello\n...";
    let actual = normalize_to_pattern(input, pattern, &Redactions::new());
    assert_eq!(expected, actual);
}

#[test]
fn middle_elide() {
    let input = "Hello\nWorld\nGoodbye";
    let pattern = "Hello\n...\nGoodbye";
    let expected = "Hello\n...\nGoodbye";
    let actual = normalize_to_pattern(input, pattern, &Redactions::new());
    assert_eq!(expected, actual);
}

#[test]
fn post_elide_diverge() {
    let input = "Hello\nSun\nAnd\nWorld";
    let pattern = "Hello\n...\nMoon";
    let expected = "Hello\nSun\nAnd\nWorld";
    let actual = normalize_to_pattern(input, pattern, &Redactions::new());
    assert_eq!(expected, actual);
}

#[test]
fn post_diverge_elide() {
    let input = "Hello\nWorld\nGoodbye\nSir";
    let pattern = "Hello\nMoon\nGoodbye\n...";
    let expected = "Hello\nWorld\nGoodbye\nSir";
    let actual = normalize_to_pattern(input, pattern, &Redactions::new());
    assert_eq!(expected, actual);
}

#[test]
fn inline_elide() {
    let input = "Hello\nWorld\nGoodbye\nSir";
    let pattern = "Hello\nW[..]d\nGoodbye\nSir";
    let expected = "Hello\nW[..]d\nGoodbye\nSir";
    let actual = normalize_to_pattern(input, pattern, &Redactions::new());
    assert_eq!(expected, actual);
}

#[test]
fn line_matches_cases() {
    let cases = [
        ("", "", true),
        ("", "[..]", true),
        ("hello", "hello", true),
        ("hello", "goodbye", false),
        ("hello", "[..]", true),
        ("hello", "he[..]", true),
        ("hello", "go[..]", false),
        ("hello", "[..]o", true),
        ("hello", "[..]e", false),
        ("hello", "he[..]o", true),
        ("hello", "he[..]e", false),
        ("hello", "go[..]o", false),
        ("hello", "go[..]e", false),
        (
            "hello world, goodbye moon",
            "hello [..], goodbye [..]",
            true,
        ),
        (
            "hello world, goodbye moon",
            "goodbye [..], goodbye [..]",
            false,
        ),
        (
            "hello world, goodbye moon",
            "goodbye [..], hello [..]",
            false,
        ),
        ("hello world, goodbye moon", "hello [..], [..] moon", true),
        (
            "hello world, goodbye moon",
            "goodbye [..], [..] moon",
            false,
        ),
        ("hello world, goodbye moon", "hello [..], [..] world", false),
    ];
    for (line, pattern, expected) in cases {
        let actual = line_matches(line, pattern, &Redactions::new());
        assert_eq!(expected, actual, "line={:?}  pattern={:?}", line, pattern);
    }
}

#[test]
fn substitute_literal() {
    let input = "Hello world!";
    let pattern = "Hello [OBJECT]!";
    let mut sub = Redactions::new();
    sub.insert("[OBJECT]", "world").unwrap();
    let actual = normalize_to_pattern(input, pattern, &sub);
    assert_eq!(actual, pattern);
}

#[test]
fn substitute_path() {
    let input = "input: /home/epage";
    let pattern = "input: [HOME]";
    let mut sub = Redactions::new();
    let sep = std::path::MAIN_SEPARATOR.to_string();
    let redacted = PathBuf::from(sep).join("home").join("epage");
    sub.insert("[HOME]", redacted.to_str().unwrap()).unwrap();
    let actual = normalize_to_pattern(input, pattern, &sub);
    assert_eq!(actual, pattern);
}

#[test]
fn substitute_overlapping_path() {
    let input = "\
a: /home/epage
b: /home/epage/snapbox";
    let pattern = "\
a: [A]
b: [B]";
    let mut sub = Redactions::new();
    let sep = std::path::MAIN_SEPARATOR.to_string();
    let redacted = PathBuf::from(&sep).join("home").join("epage");
    sub.insert("[A]", redacted.to_str().unwrap()).unwrap();
    let redacted = PathBuf::from(sep)
        .join("home")
        .join("epage")
        .join("snapbox");
    sub.insert("[B]", redacted.to_str().unwrap()).unwrap();
    let actual = normalize_to_pattern(input, pattern, &sub);
    assert_eq!(actual, pattern);
}

#[test]
fn substitute_disabled() {
    let input = "cargo";
    let pattern = "cargo[EXE]";
    let mut sub = Redactions::new();
    sub.insert("[EXE]", "").unwrap();
    let actual = normalize_to_pattern(input, pattern, &sub);
    assert_eq!(actual, pattern);
}

#[test]
fn normalizing_a_pattern_to_itself_gives_it_back() {
    let mut sub = Redactions::new();
    sub.insert("[HOME]", "/home/alice").unwrap();
    for p in ["", "Hello\nWorld", "...\n[..]x\n", "/home/alice [HOME]\n..."] {
        assert_eq!(normalize_to_pattern(p, p, &sub), p);
        assert_eq!(normalize_to_pattern(p, p, &Redactions::new()), p);
    }
}

#[test]
fn divergence_keeps_the_rest_of_the_input() {
    let input = "a\nb\nc\nd\n";
    let pattern = "a\n...\nc\nX\n";
    assert_eq!(normalize_to_pattern(input, pattern, &Redactions::new()), "a\n...\nc\nd\n");
}

#[test]
fn elision_anchors_on_the_first_match() {
    let input = "a\nx\nb\nx\nb\n";
    let pattern = "a\n...\nb\nx\nb\n";
    assert_eq!(
        normalize_to_pattern(input, pattern, &Redactions::new()),
        "a\n...\nb\nx\nb\n"
    );
    let pattern = "a\n...\nb\nz\n";
    assert_eq!(
        normalize_to_pattern(input, pattern, &Redactions::new()),
        "a\n...\nb\nx\nb\n"
    );
}

#[test]
fn elision_without_anchor_gives_up() {
    let input = "a\nb\n";
    let pattern = "...\nz\n";
    assert_eq!(normalize_to_pattern(input, pattern, &Redactions::new()), "a\nb\n");
}

#[test]
fn redaction_round_trip() {
    let mut sub = Redactions::new();
    sub.insert("[HOME]", "/home/alice").unwrap();
    assert_eq!(
        normalize_to_pattern("input: /home/alice", "input: [HOME]", &sub),
        "input: [HOME]"
    );
}

#[test]
fn redaction_applies_to_the_unmatched_tail() {
    let mut sub = Redactions::new();
    sub.insert("[HOME]", "/home/alice").unwrap();
    assert_eq!(
        normalize_to_pattern("a\n/home/alice/x\n", "b\n", &sub),
        "a\n[HOME]/x\n"
    );
}

#[test]
fn inline_wildcard_examples() {
    let r = Redactions::new();
    assert!(line_matches("hello world, goodbye moon", "hello [..], goodbye [..]", &r));
    assert!(!line_matches("hello world, goodbye moon", "hello [..], [..] world", &r));
    assert!(line_matches("abab", "[..]b", &r));
    assert!(line_matches("axb", "a[..][..]b", &r));
    assert!(!line_matches("ab", "ab[..]ab", &r));
}

#[test]
fn line_matches_with_cleared_placeholder() {
    let mut sub = Redactions::new();
    sub.insert("[EXE]", "").unwrap();
    assert!(line_matches("cargo", "cargo[EXE]", &sub));
    assert!(line_matches("cargo[EXE]", "cargo[EXE]", &sub));
    assert!(!line_matches("cargo.exe", "cargo[EXE]", &sub));
}

#[test]
fn elision_marker() {
    assert!(is_line_elide("..."));
    assert!(is_line_elide("...\n"));
    assert!(!is_line_elide("....\n"));
    assert!(!is_line_elide(".. \n"));
    assert!(!is_line_elide(""));
}
