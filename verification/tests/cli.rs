use claimr::cli::{parse_args, usage};

fn args(v: &[&str]) -> Vec<String> {
    v.iter().map(|s| s.to_string()).collect()
}

#[test]
fn a_file_runs_in_batch_mode() {
    let o = parse_args(&args(&["prog.claimr"])).expect("valid");
    assert!(!o.parse_only && !o.interactive && !o.json);
    assert_eq!(o.limit, None);
    assert_eq!(o.path.as_deref(), Some("prog.claimr"));
}

#[test]
fn flags_and_the_limit_are_read() {
    let o = parse_args(&args(&["--limit", "3", "--json", "x.claimr"])).expect("valid");
    assert!(o.json);
    assert_eq!(o.limit, Some(3));
    let o = parse_args(&args(&["-i", "x.claimr", "--limit", "+0"])).expect("valid");
    assert!(o.interactive);
    assert_eq!(o.limit, Some(0));
    let o = parse_args(&args(&[])).expect("no arguments: the interactive loop");
    assert_eq!(o.path, None);
}

#[test]
fn bad_command_lines_are_refused_with_a_message() {
    assert_eq!(parse_args(&args(&["--limit"])).err().as_deref(), Some("--limit needs a number"));
    assert_eq!(parse_args(&args(&["--limit", "x2"])).err().as_deref(), Some("bad --limit value \"x2\""));
    assert_eq!(parse_args(&args(&["--limit", "-1"])).err().as_deref(), Some("bad --limit value \"-1\""));
    assert_eq!(parse_args(&args(&["--help"])).err().as_deref(), Some(usage()));
    assert_eq!(parse_args(&args(&["a", "b"])).err().as_deref(), Some(usage()));
    assert_eq!(parse_args(&args(&["--frob"])).err(), Some(format!("unknown option --frob\n{}", usage())));
    assert_eq!(parse_args(&args(&["-i"])).err(), Some(format!("-i needs a file\n{}", usage())));
    assert_eq!(parse_args(&args(&["--parse"])).err(), Some(format!("--parse needs a file\n{}", usage())));
    assert_eq!(parse_args(&args(&["--json"])).err(), Some(format!("--json needs a file (batch mode)\n{}", usage())));
    assert_eq!(
        parse_args(&args(&["--json", "-i", "f"])).err(),
        Some(format!("--json needs a file (batch mode)\n{}", usage()))
    );
    assert_eq!(
        parse_args(&args(&["--json", "--parse", "f"])).err(),
        Some(format!("--json and --parse don't combine\n{}", usage()))
    );
}
