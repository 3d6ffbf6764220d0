use claimr::highlight::{line_tokens, TokenKind};
use claimr::highlight::TokenKind::{Comment, Number, Operator, Predicate, Punctuation, Variable};

fn kinds(line: &str) -> Vec<(String, TokenKind)> {
    line_tokens(line).into_iter().map(|t| (line[t.range.clone()].to_string(), t.kind)).collect()
}

#[test]
fn a_clause_tokenizes_by_role() {
    assert_eq!(
        kinds("grandparent(X, Z) :- parent(X, Y), parent(Y, Z). % family"),
        vec![
            ("grandparent".into(), Predicate),
            ("(".into(), Punctuation),
            ("X".into(), Variable),
            (",".into(), Punctuation),
            ("Z".into(), Variable),
            (")".into(), Punctuation),
            (":-".into(), Operator),
            ("parent".into(), Predicate),
            ("(".into(), Punctuation),
            ("X".into(), Variable),
            (",".into(), Punctuation),
            ("Y".into(), Variable),
            (")".into(), Punctuation),
            (",".into(), Punctuation),
            ("parent".into(), Predicate),
            ("(".into(), Punctuation),
            ("Y".into(), Variable),
            (",".into(), Punctuation),
            ("Z".into(), Variable),
            (")".into(), Punctuation),
            (".".into(), Punctuation),
            ("% family".into(), Comment),
        ]
    );
}

#[test]
fn queries_numbers_and_relops_lex() {
    assert_eq!(
        kinds("?- total(T), T >= 18.5."),
        vec![
            ("?-".into(), Operator),
            ("total".into(), Predicate),
            ("(".into(), Punctuation),
            ("T".into(), Variable),
            (")".into(), Punctuation),
            (",".into(), Punctuation),
            ("T".into(), Variable),
            (">=".into(), Operator),
            ("18.5".into(), Number),
            (".".into(), Punctuation),
        ]
    );
}

#[test]
fn mid_edit_junk_is_skipped_not_fatal() {
    assert!(!line_tokens("p(X@# :-").is_empty());
    assert!(line_tokens("").is_empty());
}

#[test]
fn operators_lex_longest_first() {
    assert_eq!(
        kinds("{ X != 1 } => ok(é)."),
        vec![
            ("{".into(), Punctuation),
            ("X".into(), Variable),
            ("!=".into(), Operator),
            ("1".into(), Number),
            ("}".into(), Punctuation),
            ("=>".into(), Operator),
            ("ok".into(), Predicate),
            ("(".into(), Punctuation),
            (")".into(), Punctuation),
            (".".into(), Punctuation),
        ]
    );
    assert_eq!(line_tokens("abc")[0].kind, TokenKind::Ident);
    assert_eq!(line_tokens("Abc")[0].kind, TokenKind::Variable);
    assert_eq!(line_tokens("12.5")[0].kind, TokenKind::Number);
    assert_eq!(line_tokens("% x")[0].kind, TokenKind::Comment);
}
