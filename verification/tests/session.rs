use claimr::session::{classify_line, ending, on_interrupt, parse_command, show_answer, wants_next};
use claimr::session::{AtInterrupt, Command, Ending, Line, Session, Show};
use claimr::{parse_program, Clause, EvalError};

fn clauses(src: &str) -> Vec<Clause> {
    parse_program(src).expect("parses")
}

#[test]
fn lines_at_the_prompt() {
    assert!(matches!(classify_line("   ", true), Line::Blank));
    assert!(matches!(classify_line("% note", true), Line::Blank));
    assert!(matches!(classify_line(" :load f.claimr ", true), Line::Command(c) if c == "load f.claimr"));
    assert!(matches!(classify_line("exit.", true), Line::Leave));
    assert!(matches!(classify_line(" halt ..", true), Line::Leave));
    assert!(matches!(classify_line("quit", true), Line::Leave));
    assert!(matches!(classify_line("quit", false), Line::Collect));
    assert!(matches!(classify_line("p(a).", true), Line::Collect));
    assert!(matches!(classify_line("exits.", true), Line::Collect));
}

#[test]
fn commands_are_read() {
    assert!(matches!(parse_command("q"), Command::Quit));
    assert!(matches!(parse_command("?"), Command::Help));
    assert!(matches!(parse_command("load  dir/f.claimr "), Command::Load(f) if f == "dir/f.claimr"));
    assert!(matches!(parse_command("load"), Command::LoadUsage));
    assert!(matches!(parse_command("r"), Command::Reload));
    assert!(matches!(parse_command("limit 0"), Command::Limit(None)));
    assert!(matches!(parse_command("limit 7"), Command::Limit(Some(7))));
    assert!(matches!(parse_command("limit x"), Command::LimitUsage));
    assert!(matches!(parse_command("all"), Command::ToggleAll));
    assert!(matches!(parse_command("bogus 1"), Command::Unknown(n) if n == "bogus"));
    assert!(matches!(parse_command(" load x"), Command::Unknown(n) if n.is_empty()));
}

#[test]
fn replies_interrupts_and_endings() {
    assert!(wants_next(" ; "));
    assert!(wants_next("next"));
    assert!(!wants_next(""));
    assert!(!wants_next("."));
    assert!(on_interrupt(false, true) == (AtInterrupt::Discard, false));
    assert!(on_interrupt(true, false) == (AtInterrupt::Hint, true));
    assert!(on_interrupt(true, true) == (AtInterrupt::Leave, true));
    assert!(show_answer(true, Some(2), 2, true) == Show::PrintAndStop);
    assert!(show_answer(true, Some(2), 1, true) == Show::Print);
    assert!(show_answer(false, None, 1, false) == Show::Last);
    assert!(show_answer(false, None, 1, true) == Show::Ask);
    assert!(ending(true, true, 0, false) == Ending::Interrupted);
    assert!(ending(false, true, 0, false) == Ending::Failed);
    assert!(ending(false, false, 3, false) == Ending::False);
    assert!(ending(false, false, 3, true) == Ending::Quiet);
    assert!(ending(false, false, 0, true) == Ending::False);
}

#[test]
fn a_session_grows_lists_and_rolls_back() {
    let mut s = Session::new(Some(5));
    assert!(!s.all_mode());
    assert_eq!(s.limit(), Some(5));
    s.add_clause(clauses("p(b).").remove(0)).expect("compiles");
    let qs = s.load_clauses("f.claimr", clauses("p(a). ?- p(X). q(a).")).expect("compiles");
    assert_eq!(qs.len(), 1);
    assert_eq!(qs[0].to_string(), "?- p(X).");
    assert_eq!(s.listing(), vec!["p(a).".to_string(), "q(a).".to_string(), "p(b).".to_string()]);
    let bad = s.load_clauses("g.claimr", clauses("r(a). { 1 > 2 }."));
    assert_eq!(bad.err(), Some(EvalError::InitialStoreUnsatisfiable));
    assert_eq!(s.listing().len(), 3);
    let p = s.query_program(clauses("?- p(X).").remove(0)).expect("compiles");
    assert_eq!(p.queries().len(), 1);
    assert_eq!(s.listing().len(), 3);
    assert!(s.toggle_all());
    let files = s.take_loaded();
    assert_eq!(files, vec!["f.claimr".to_string()]);
    assert!(s.listing().is_empty());
    s.set_limit(None);
    assert_eq!(s.limit(), None);
}

const FAMILY: &str = "parent(tom, bob).
parent(tom, liz).
parent(bob, ann).
parent(bob, pat).
sibling(X, Y) :- parent(P, X), parent(P, Y), { X != Y }.
?- parent(tom, X).
";

fn answers_of(s: &mut Session, query: Clause) -> Vec<String> {
    let program = s.query_program(query).expect("compiles");
    let q = program.queries().last().expect("the query");
    let mut sols = program.solve(q);
    let mut out = Vec::new();
    while let Some(a) = sols.next_answer() {
        out.push(a.to_string());
    }
    out
}

#[test]
fn load_reload_clear() {
    let mut s = Session::new(None);
    // Loading hands back the file's queries to be answered.
    let qs = s.load_clauses("family.claimr", clauses(FAMILY)).expect("loads");
    assert_eq!(qs.len(), 1);
    let q = qs.into_iter().next().unwrap();
    assert_eq!(q.to_string(), "?- parent(tom, X).");
    assert_eq!(answers_of(&mut s, q), vec!["X = bob", "X = liz"]);
    // A fact typed at the prompt is visible...
    s.add_clause(clauses("parent(zeus, athena).").remove(0)).expect("compiles");
    assert_eq!(answers_of(&mut s, clauses("?- parent(zeus, C).").remove(0)), vec!["C = athena"]);
    // ...:reload drops it and reads the files again...
    let files = s.take_loaded();
    assert_eq!(files, vec!["family.claimr".to_string()]);
    for f in files {
        let qs = s.load_clauses(&f, clauses(FAMILY)).expect("loads");
        let q = qs.into_iter().next().unwrap();
        assert_eq!(answers_of(&mut s, q), vec!["X = bob", "X = liz"]);
    }
    assert!(answers_of(&mut s, clauses("?- parent(zeus, C).").remove(0)).is_empty());
    assert_eq!(answers_of(&mut s, clauses("?- sibling(pat, S).").remove(0)), vec!["S = ann"]);
    // ...and :clear empties everything.
    s.clear();
    assert!(answers_of(&mut s, clauses("?- parent(tom, C).").remove(0)).is_empty());
    assert!(s.listing().is_empty());
}
