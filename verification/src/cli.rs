//! The command line: which mode to run in, on which file, with what cap on
//! the answers printed per query.

use vstd::prelude::*;
use crate::text::{chars_of, push_all, push_str, same_text, string_from_chars};

verus! {

/// How to run.
pub struct Options {
    /// `--parse`: print the parsed clauses instead of running.
    pub parse_only: bool,
    /// `-i`: run the file, then continue interactively.
    pub interactive: bool,
    /// `--json`: one JSON document per query.
    pub json: bool,
    /// `--limit N`: at most `N` answers per query.
    pub limit: Option<usize>,
    /// The program file.
    pub path: Option<String>,
}

/// The usage text.
pub open spec fn usage_text() -> Seq<char> {
    "usage: claimr [--parse] [--limit N] <file.claimr>   run a program
       claimr --json [--limit N] <file.claimr>      run a program, JSON per query
       claimr [--limit N]                            interactive loop
       claimr -i <file.claimr>                       run, then interactive"@
}

/// The usage text.
pub fn usage() -> (s: &'static str)
    ensures
        s@ == usage_text(),
{
    "usage: claimr [--parse] [--limit N] <file.claimr>   run a program
       claimr --json [--limit N] <file.claimr>      run a program, JSON per query
       claimr [--limit N]                            interactive loop
       claimr -i <file.claimr>                       run, then interactive"
}

/// `c` is an ASCII digit.
pub open spec fn is_digit_char(c: char) -> bool {
    '0' <= c && c <= '9'
}

/// The value of a run of decimal digits.
pub open spec fn digits_value(d: Seq<char>) -> nat
    decreases d.len(),
{
    if d.len() == 0 {
        0
    } else {
        digits_value(d.drop_last()) * 10 + (d.last() as nat - '0' as nat) as nat
    }
}

/// `s` without a leading `+`.
pub open spec fn unsigned_digits(s: Seq<char>) -> Seq<char> {
    if s.len() > 0 && s[0] == '+' {
        s.drop_first()
    } else {
        s
    }
}

/// Every character of `d` is a digit.
pub open spec fn all_digits(d: Seq<char>) -> bool {
    forall|k: int| 0 <= k < d.len() ==> is_digit_char(#[trigger] d[k])
}

/// An unsigned decimal as `usize` reads it: an optional `+`, then one or
/// more digits, with a value that fits.
pub open spec fn usize_literal(s: Seq<char>) -> Option<nat> {
    let d = unsigned_digits(s);
    if d.len() > 0 && all_digits(d) && digits_value(d) <= usize::MAX {
        Some(digits_value(d))
    } else {
        None
    }
}

/// Read an unsigned decimal (`str::parse::<usize>`'s syntax).
pub fn parse_usize(s: &Vec<char>) -> (r: Option<usize>)
    ensures
        r matches Some(n) ==> usize_literal(s@) == Some(n as nat),
        r is None ==> usize_literal(s@) is None,
{
    let start: usize = if s.len() > 0 && s[0] == '+' { 1 } else { 0 };
    let ghost d = unsigned_digits(s@);
    proof {
        assert(d =~= s@.subrange(start as int, s@.len() as int));
    }
    if start >= s.len() {
        return None;
    }
    let mut acc: usize = 0;
    let mut i: usize = start;
    while i < s.len()
        invariant
            start <= i <= s@.len(),
            start < s@.len(),
            d == s@.subrange(start as int, s@.len() as int),
            d == unsigned_digits(s@),
            forall|k: int| start <= k < i ==> is_digit_char(#[trigger] s@[k]),
            acc as nat == digits_value(s@.subrange(start as int, i as int)),
        decreases s@.len() - i,
    {
        let c = s[i];
        if !('0' <= c && c <= '9') {
            proof {
                assert(d[i - start] == c);
                assert(!is_digit_char(d[i - start]));
            }
            return None;
        }
        let digit = (c as u32 - '0' as u32) as usize;
        proof {
            assert(digit as nat == (c as nat - '0' as nat) as nat);
        }
        proof {
            assert(s@.subrange(start as int, i + 1).drop_last() =~= s@.subrange(start as int, i as int));
        }
        let next = match acc.checked_mul(10) {
            Some(m) => m.checked_add(digit),
            None => None,
        };
        match next {
            Some(v) => {
                acc = v;
            },
            None => {
                proof {
                    assert(acc * 10 + digit > usize::MAX) by (nonlinear_arith)
                        requires
                            next is None,
                            acc.checked_mul(10) is None ==> acc * 10 > usize::MAX,
                            acc.checked_mul(10) matches Some(m) ==> m == acc * 10 && m + digit > usize::MAX,
                    ;
                    assert(digits_value(s@.subrange(start as int, i + 1)) == acc * 10 + digit);
                    lemma_digits_prefix(s@.subrange(start as int, s@.len() as int), i + 1 - start);
                    assert(s@.subrange(start as int, s@.len() as int).subrange(0, i + 1 - start) =~= s@.subrange(start as int, i + 1));
                }
                return None;
            },
        }
        i = i + 1;
    }
    proof {
        assert(s@.subrange(start as int, i as int) =~= d);
    }
    Some(acc)
}

/// A prefix of a digit run is worth no more than the run.
proof fn lemma_digits_prefix(d: Seq<char>, n: int)
    requires
        0 <= n <= d.len(),
    ensures
        digits_value(d.subrange(0, n)) <= digits_value(d),
    decreases d.len(),
{
    if n < d.len() {
        assert(d.drop_last() =~= d.subrange(0, d.len() - 1));
        lemma_digits_prefix(d.drop_last(), n);
        assert(d.drop_last().subrange(0, n) =~= d.subrange(0, n));
    } else {
        assert(d.subrange(0, n) =~= d);
    }
}

/// `s` in Rust's debug notation: quoted, with escapes.
pub uninterp spec fn debug_quoted(s: Seq<char>) -> Seq<char>;

/// `s` in Rust's debug notation (`format!("{:?}", s)`): the string quoted,
/// with quotes, backslashes and unprintable characters escaped. The result
/// is named, not spelled out: it depends on `s` alone.
#[verifier::external_body]
fn debug_string(s: &str) -> (r: String)
    ensures
        r@ == debug_quoted(s@),
{
    format!("{:?}", s)
}

/// Options read so far, or the message that stopped reading.
pub enum Scan {
    Reading { parse_only: bool, interactive: bool, json: bool, limit: Option<usize>, path: Option<Seq<char>> },
    Stop(Seq<char>),
}

/// Read the arguments from `i` on, left to right.
pub open spec fn scan_args(args: Seq<Seq<char>>, i: int, st: Scan) -> Scan
    decreases args.len() - i,
{
    if i < 0 || i >= args.len() {
        st
    } else {
        match st {
            Scan::Stop(m) => Scan::Stop(m),
            Scan::Reading { parse_only, interactive, json, limit, path } => {
                let a = args[i];
                if a == "--parse"@ {
                    scan_args(args, i + 1, Scan::Reading { parse_only: true, interactive, json, limit, path })
                } else if a == "--json"@ {
                    scan_args(args, i + 1, Scan::Reading { parse_only, interactive, json: true, limit, path })
                } else if a == "-i"@ || a == "--interactive"@ {
                    scan_args(args, i + 1, Scan::Reading { parse_only, interactive: true, json, limit, path })
                } else if a == "--limit"@ {
                    if i + 1 >= args.len() {
                        Scan::Stop("--limit needs a number"@)
                    } else {
                        match usize_literal(args[i + 1]) {
                            Some(n) => scan_args(
                                args,
                                i + 2,
                                Scan::Reading { parse_only, interactive, json, limit: Some(n as usize), path },
                            ),
                            None => Scan::Stop("bad --limit value "@ + debug_quoted(args[i + 1])),
                        }
                    }
                } else if a == "-h"@ || a == "--help"@ {
                    Scan::Stop(usage_text())
                } else if a.len() > 0 && a[0] == '-' {
                    Scan::Stop("unknown option "@ + a + "\n"@ + usage_text())
                } else if path is Some {
                    Scan::Stop(usage_text())
                } else {
                    scan_args(args, i + 1, Scan::Reading { parse_only, interactive, json, limit, path: Some(a) })
                }
            },
        }
    }
}

/// The options the arguments give, or the message to print (with exit
/// status 2): after reading them all, a file is needed for `-i`, `--parse`
/// and `--json`; `--json` is for batch runs and does not combine with
/// `--parse`.
pub open spec fn options_of(args: Seq<Seq<char>>) -> Scan {
    match scan_args(args, 0, Scan::Reading { parse_only: false, interactive: false, json: false, limit: None, path: None }) {
        Scan::Stop(m) => Scan::Stop(m),
        Scan::Reading { parse_only, interactive, json, limit, path } => {
            if interactive && path is None {
                Scan::Stop("-i needs a file"@ + "\n"@ + usage_text())
            } else if parse_only && path is None {
                Scan::Stop("--parse needs a file"@ + "\n"@ + usage_text())
            } else if json && (path is None || interactive) {
                Scan::Stop("--json needs a file (batch mode)"@ + "\n"@ + usage_text())
            } else if json && parse_only {
                Scan::Stop("--json and --parse don't combine"@ + "\n"@ + usage_text())
            } else {
                Scan::Reading { parse_only, interactive, json, limit, path }
            }
        },
    }
}

/// The text of an optional string.
pub open spec fn opt_text(s: Option<String>) -> Option<Seq<char>> {
    match s {
        Some(t) => Some(t@),
        None => None,
    }
}

/// The texts of the arguments.
pub open spec fn arg_texts(args: Seq<String>) -> Seq<Seq<char>> {
    args.map_values(|s: String| s@)
}

/// `msg`, then a line break, then the usage text.
fn with_usage(msg: &str) -> (r: String)
    ensures
        r@ == msg@ + "\n"@ + usage_text(),
{
    let mut out: Vec<char> = chars_of(msg);
    push_str(&mut out, "\n");
    push_str(&mut out, usage());
    string_from_chars(&out)
}

/// Read the command-line arguments (without the program name).
pub fn parse_args(args: &Vec<String>) -> (r: Result<Options, String>)
    ensures
        match (r, options_of(arg_texts(args@))) {
            (Ok(o), Scan::Reading { parse_only, interactive, json, limit, path }) =>
                o.parse_only == parse_only && o.interactive == interactive && o.json == json
                && o.limit == limit && opt_text(o.path) == path,
            (Err(m), Scan::Stop(t)) => m@ == t,
            _ => false,
        },
{
    let ghost texts = arg_texts(args@);
    let mut parse_only = false;
    let mut interactive = false;
    let mut json = false;
    let mut limit: Option<usize> = None;
    let mut path: Option<String> = None;
    let mut i: usize = 0;
    while i < args.len()
        invariant
            i <= args@.len(),
            texts == arg_texts(args@),
            scan_args(texts, 0, Scan::Reading { parse_only: false, interactive: false, json: false, limit: None, path: None })
                == scan_args(texts, i as int, Scan::Reading { parse_only, interactive, json, limit, path: opt_text(path) }),
        decreases args@.len() - i,
    {
        let a = chars_of(args[i].as_str());
        proof {
            assert(texts[i as int] == a@);
        }
        if same_text(&a, "--parse") {
            parse_only = true;
        } else if same_text(&a, "--json") {
            json = true;
        } else if same_text(&a, "-i") || same_text(&a, "--interactive") {
            interactive = true;
        } else if same_text(&a, "--limit") {
            if i + 1 >= args.len() {
                return Err("--limit needs a number".to_string());
            }
            let n = chars_of(args[i + 1].as_str());
            proof {
                assert(texts[i + 1] == n@);
            }
            match parse_usize(&n) {
                Some(v) => {
                    limit = Some(v);
                    i = i + 2;
                    continue;
                },
                None => {
                    let mut out: Vec<char> = chars_of("bad --limit value ");
                    let q = debug_string(args[i + 1].as_str());
                    let qc = chars_of(q.as_str());
                    push_all(&mut out, &qc);
                    return Err(string_from_chars(&out));
                },
            }
        } else if same_text(&a, "-h") || same_text(&a, "--help") {
            return Err(usage().to_string());
        } else if a.len() > 0 && a[0] == '-' {
            let mut out: Vec<char> = chars_of("unknown option ");
            push_all(&mut out, &a);
            push_str(&mut out, "\n");
            push_str(&mut out, usage());
            return Err(string_from_chars(&out));
        } else if path.is_some() {
            return Err(usage().to_string());
        } else {
            path = Some(string_from_chars(&a));
        }
        i = i + 1;
    }
    if interactive && path.is_none() {
        return Err(with_usage("-i needs a file"));
    }
    if parse_only && path.is_none() {
        return Err(with_usage("--parse needs a file"));
    }
    if json && (path.is_none() || interactive) {
        return Err(with_usage("--json needs a file (batch mode)"));
    }
    if json && parse_only {
        return Err(with_usage("--json and --parse don't combine"));
    }
    Ok(Options { parse_only, interactive, json, limit, path })
}

} // verus!
