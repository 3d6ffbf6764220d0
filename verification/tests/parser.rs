use claimr::{all_consuming_parse_clause, completeness, display_name, name_is_plain, parse_program, Clause, Completeness, Expr};

#[test]
fn test_parse_fact() {
    let input = "human(socrates).";
    let result = all_consuming_parse_clause(input);
    assert!(matches!(result, Ok((_, Clause::Fact(_)))));
}

#[test]
fn test_parse_rule() {
    let input = "mortal(X) :- human(X).";
    let result = all_consuming_parse_clause(input);
    assert!(matches!(result, Ok((_, Clause::Rule { .. }))));
}

#[test]
fn test_parse_constraint_fact() {
    let input = "{ age(socrates) > 70 }.";
    let result = all_consuming_parse_clause(input);
    assert!(matches!(result, Ok((_, Clause::ConstraintFact(_)))));
}

#[test]
fn test_parse_constraint_rule() {
    let input = "eligible(X) :- { age(X) >= 18 }.";
    let result = all_consuming_parse_clause(input);
    assert!(matches!(result, Ok((_, Clause::ConstraintRule { .. }))));
}

#[test]
fn test_parse_implication() {
    let input = "{ age(X) >= 18 } => eligible(X).";
    let result = all_consuming_parse_clause(input);
    assert!(matches!(result, Ok((_, Clause::Implication { .. }))));
}

#[test]
fn test_parse_program() {
    let input = "human(socrates).\nmortal(X) :- human(X).\n\n?- mortal(socrates).\n";
    let clauses = parse_program(input).expect("program parses");
    assert_eq!(clauses.len(), 3);
}

#[test]
fn test_parse_query() {
    let input = "?- eligible(alice), { age(alice) >= 18 }.";
    let result = all_consuming_parse_clause(input);
    assert!(matches!(result, Ok((_, Clause::Query(_)))));
}

#[test]
fn errors_are_positioned() {
    let cases: &[(&str, usize, usize)] = &[
        ("human(socrates)\nmortal(X) :- human(X).\n", 2, 1),
        ("mortal(X) :- human(X.\n", 1, 21),
        ("{ age(X) 18 }.\n", 1, 10),
        ("?- .\n", 1, 4),
        ("Human(socrates).\n", 1, 1),
    ];
    for (src, line, col) in cases {
        let err = parse_program(src).unwrap_err();
        assert_eq!((err.line, err.column), (Some(*line), Some(*col)), "for {src:?}: {err:?}");
    }
}

#[test]
fn quoted_spellings_carry_content_and_round_trip() {
    let clauses = parse_program(
        "x('situation:frame-in-spec').\nx('it\\'s a test').\nx('a\\\\b').\nx('').\nx(abc).\n",
    )
    .unwrap();
    let names: Vec<String> = clauses
        .iter()
        .map(|c| match c {
            Clause::Fact(atom) => match &atom.args[0] {
                Expr::Ident(name) => name.clone(),
                other => panic!("{other:?}"),
            },
            other => panic!("{other:?}"),
        })
        .collect();
    assert_eq!(names, vec!["situation:frame-in-spec", "it's a test", "a\\b", "", "abc"]);
    for (content, printed) in [
        ("abc", "abc"),
        ("situation:frame-in-spec", "'situation:frame-in-spec'"),
        ("it's a test", "'it\\'s a test'"),
        ("a\\b", "'a\\\\b'"),
        ("", "''"),
        ("Abc", "'Abc'"),
    ] {
        assert_eq!(display_name(content), printed, "{content}");
    }
    assert!(name_is_plain("a_b1") && !name_is_plain("A") && !name_is_plain("a-b"));
    let a = parse_program("x('abc').").unwrap();
    let b = parse_program("x(abc).").unwrap();
    assert_eq!(a, b);
}

#[test]
fn clauses_print_back_in_canonical_form() {
    let src = "average(X, Y, (X + Y) / 2). p(X) :- { X - (1 - 2) >= -3 * -Y }, q(X). { a != b } => 'it\\'s'(X). ?- p(A), { A = 1.5 }.";
    let printed: Vec<String> = parse_program(src).unwrap().iter().map(|c| c.to_string()).collect();
    assert_eq!(printed[0], "average(X, Y, (X + Y) / 2).");
    assert_eq!(printed[1], "p(X) :- { X - (1 - 2) >= -3 * -Y }, q(X).");
    assert_eq!(printed[2], "{ a != b } => 'it\\'s'(X).");
    assert_eq!(printed[3], "?- p(A), { A = 3/2 }.");
    // A fraction prints as `3/2`, which reads back as a division.
    for text in &printed[..3] {
        let again: Vec<String> = parse_program(text).unwrap().iter().map(|c| c.to_string()).collect();
        assert_eq!(&again[0], text);
    }
}

#[test]
fn comments_and_errors() {
    let clauses = parse_program("% a comment\np(1). % trailing\n").unwrap();
    assert_eq!(clauses.len(), 1);
    let err = parse_program("p(1) & q.").unwrap_err();
    assert_eq!((err.line, err.column), (Some(1), Some(6)));
    assert!(parse_program("x('open.").is_err());
    let err = parse_program("p(1).\n  q(").unwrap_err();
    assert_eq!(err.line, Some(2));
}

#[test]
fn completeness_detection() {
    assert!(matches!(completeness("human(socrates)."), Completeness::Complete(_)));
    assert!(matches!(completeness("mortal(X) :- human(X)"), Completeness::Incomplete));
    assert!(matches!(completeness("mortal(X) :-\n"), Completeness::Incomplete));
    assert!(matches!(completeness("?- p(X)"), Completeness::Incomplete));
    assert!(matches!(completeness("?- { X = 1.5 }."), Completeness::Complete(_)));
    assert!(matches!(completeness("?- { X = 1 }. % done"), Completeness::Complete(_)));
    assert!(matches!(completeness("?- p(X) q."), Completeness::Error(_)));
    assert!(matches!(completeness("{ age(x) > 3 }."), Completeness::Complete(_)));
    assert!(matches!(completeness("?- { X = 1 }."), Completeness::Complete(_)));
    assert!(matches!(completeness("?- p(1"), Completeness::Incomplete));
}

#[test]
fn file_syntax_at_the_prompt() {
    let Completeness::Complete(cs) = completeness("?- p(X), q(X).") else { panic!() };
    assert!(matches!(cs[0], Clause::Query(_)));
    let Completeness::Complete(cs) = completeness("p(a).") else { panic!() };
    assert!(matches!(cs[0], Clause::Fact(_)));
    let Completeness::Complete(cs) = completeness("p(X) :- q(X).") else { panic!() };
    assert!(matches!(cs[0], Clause::Rule { .. }));
}

#[test]
fn grammar_stops_name_the_expected_tokens() {
    let cases: &[(&str, usize, usize, usize, &str)] = &[
        ("p(a)", 1, 5, 4, "Expected one of Dot, If."),
        ("p(a, b", 1, 7, 6, "Expected one of Comma, RParen."),
        ("p :- q.", 1, 3, 2, "Expected LParen."),
        ("?- p(X), .", 1, 10, 9, "Expected one of Ident, LBrace."),
        ("{ X > 1 } p(X).", 1, 11, 10, "Expected one of Dot, Implies."),
        ("{ X 1 }.", 1, 5, 4, "Expected one of Eq, Neq, Lt, Gt, Le, Ge, Plus, Minus, Star, Slash."),
        ("{ X > 1 } => p(X)", 1, 18, 17, "Expected Dot."),
        ("p(a) :- q(b)", 1, 13, 12, "Expected one of Comma, Dot."),
        ("p(a) :- q(b), { X = (1 + 2 }.", 1, 28, 27, "Expected RParen."),
        ("=", 1, 1, 0, "Expected one of Ident, LBrace, Ask."),
    ];
    for (src, line, col, offset, msg) in cases {
        let err = parse_program(src).unwrap_err();
        assert_eq!(
            (err.line, err.column, err.offset, err.message.as_str()),
            (Some(*line), Some(*col), Some(*offset), *msg),
            "for {src:?}"
        );
    }
}

#[test]
fn rules_with_a_block_are_constraint_rules() {
    let cs = parse_program("p(X) :- q(X), { X > 1 }.\np(X) :- q(X).\n").unwrap();
    assert!(matches!(cs[0], Clause::ConstraintRule { .. }));
    assert!(matches!(cs[1], Clause::Rule { .. }));
}

#[test]
fn arithmetic_groups_to_the_left() {
    let cs = parse_program("p(1 - 2 - 3, 2 * 3 + 4).").unwrap();
    let text = cs[0].to_string();
    assert_eq!(text, "p(1 - 2 - 3, 2 * 3 + 4).");
    let cs2 = parse_program("p(1 - (2 - 3)).").unwrap();
    assert_eq!(cs2[0].to_string(), "p(1 - (2 - 3)).");
}
