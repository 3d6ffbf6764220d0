use claimr::json_out::{error_document, escape, query_document, query_error_document, string_array};
use claimr::Answer;

#[test]
fn escaping_covers_quotes_backslashes_and_controls() {
    assert_eq!(escape(r#"a"b\c"#), r#"a\"b\\c"#);
    assert_eq!(escape("a\nb\tc\r"), "a\\nb\\tc\\r");
    assert_eq!(escape("\u{01}"), "\\u0001");
    assert_eq!(escape("père = 37/2"), "père = 37/2");
}

#[test]
fn documents_take_their_documented_shapes() {
    let truth = Answer { equations: vec![], disequations: vec![], constraints: vec![] };
    assert_eq!(
        query_document("?- ok(s1).", &vec![truth]),
        r#"{"query":"?- ok(s1).","outcome":"solutions","answers":[{"equations":[],"disequations":[],"constraints":[]}]}"#
    );
    assert_eq!(query_document("?- ok(s2).", &vec![]), r#"{"query":"?- ok(s2).","outcome":"none","answers":[]}"#);
    let bound = Answer {
        equations: vec!["X = 3".to_string()],
        disequations: vec!["X != Y".to_string()],
        constraints: vec!["age(alice) = 30".to_string()],
    };
    assert_eq!(
        query_document("?- q(X).", &vec![bound]),
        r#"{"query":"?- q(X).","outcome":"solutions","answers":[{"equations":["X = 3"],"disequations":["X != Y"],"constraints":["age(alice) = 30"]}]}"#
    );
    assert_eq!(
        query_error_document("?- q(X).", "boom"),
        r#"{"query":"?- q(X).","outcome":"error","error":{"message":"boom"}}"#
    );
    assert_eq!(
        error_document("f.claimr", Some(2), Some(1), "Expected Dot."),
        r#"{"error":{"file":"f.claimr","line":2,"column":1,"message":"Expected Dot."}}"#
    );
    assert_eq!(error_document("f.claimr", None, None, "cannot read"), r#"{"error":{"file":"f.claimr","message":"cannot read"}}"#);
}

#[test]
fn control_characters_use_hex_escapes() {
    assert_eq!(escape("\u{1f}"), "\\u001f");
    assert_eq!(escape("\u{0b}x"), "\\u000bx");
    assert_eq!(string_array(&vec!["a\"".to_string(), "b".to_string()]), r#"["a\"","b"]"#);
    assert_eq!(string_array(&vec![]), "[]");
}
