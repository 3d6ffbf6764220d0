//! An interactive session: the clauses loaded or typed so far, how answers
//! are shown, and what each line typed at the prompt asks for. Reading
//! lines, printing and the interrupt flag belong to the program around the
//! library; every decision between them is made here.

use vstd::prelude::*;
use crate::ast::{Clause, clause_text};
use crate::cli::{parse_usize, usize_literal};
use crate::eval::compile::{query_texts, Program};
use crate::eval::EvalError;
use crate::text::{chars_of, is_white, same_text, string_from_chars, trim_chars, trimmed, white};

verus! {

// --- lines typed at the prompt ---------------------------------------------

/// What a line asks for.
pub enum Line {
    /// Nothing to do (blank, or a comment at an empty prompt).
    Blank,
    /// A `:` command, with the text after the colon.
    Command(String),
    /// Leave the loop (`exit`, `quit`, `halt`, with or without a `.`).
    Leave,
    /// Clause text: add it to the input being collected.
    Collect,
}

/// `s` without its trailing dots.
pub open spec fn strip_dots(s: Seq<char>) -> Seq<char>
    decreases s.len(),
{
    if s.len() > 0 && s.last() == '.' {
        strip_dots(s.drop_last())
    } else {
        s
    }
}

/// A word people reach for to leave.
pub open spec fn leave_word(w: Seq<char>) -> bool {
    w == "exit"@ || w == "quit"@ || w == "halt"@
}

/// What a line means. Away from an empty prompt (in the middle of a
/// clause) every line is clause text.
pub open spec fn line_meaning(line: Seq<char>, buffer_empty: bool) -> (int, Seq<char>) {
    let t = trimmed(line);
    if !buffer_empty {
        (3, Seq::empty())
    } else if t.len() == 0 || t[0] == '%' {
        (0, Seq::empty())
    } else if t[0] == ':' {
        (1, t.drop_first())
    } else if leave_word(trimmed(strip_dots(t))) {
        (2, Seq::empty())
    } else {
        (3, Seq::empty())
    }
}

/// The kind of a line, as numbered by [`line_meaning`].
pub open spec fn line_code(l: Line) -> int {
    match l {
        Line::Blank => 0,
        Line::Command(_) => 1,
        Line::Leave => 2,
        Line::Collect => 3,
    }
}

fn strip_dots_chars(s: &Vec<char>) -> (r: Vec<char>)
    ensures
        r@ == strip_dots(s@),
{
    let mut n: usize = s.len();
    proof {
        assert(s@.subrange(0, n as int) =~= s@);
    }
    while n > 0 && s[n - 1] == '.'
        invariant
            n <= s@.len(),
            strip_dots(s@) == strip_dots(s@.subrange(0, n as int)),
        decreases n,
    {
        proof {
            assert(s@.subrange(0, n as int).drop_last() =~= s@.subrange(0, n - 1));
        }
        n = n - 1;
    }
    let mut out: Vec<char> = Vec::new();
    let mut i: usize = 0;
    while i < n
        invariant
            i <= n <= s@.len(),
            out@ == s@.subrange(0, i as int),
        decreases n - i,
    {
        out.push(s[i]);
        i = i + 1;
    }
    proof {
        assert(out@ =~= s@.subrange(0, n as int));
    }
    out
}

/// What a line typed at the prompt asks for; `buffer_empty` tells whether
/// a clause is being collected.
pub fn classify_line(line: &str, buffer_empty: bool) -> (r: Line)
    ensures
        line_code(r) == line_meaning(line@, buffer_empty).0,
        r matches Line::Command(c) ==> c@ == line_meaning(line@, buffer_empty).1,
{
    if !buffer_empty {
        return Line::Collect;
    }
    let t = trim_chars(&chars_of(line));
    if t.len() == 0 || t[0] == '%' {
        return Line::Blank;
    }
    if t[0] == ':' {
        let mut cmd: Vec<char> = Vec::new();
        let mut i: usize = 1;
        while i < t.len()
            invariant
                1 <= i <= t@.len(),
                cmd@ == t@.subrange(1, i as int),
            decreases t@.len() - i,
        {
            cmd.push(t[i]);
            i = i + 1;
        }
        proof {
            assert(cmd@ =~= t@.drop_first());
        }
        return Line::Command(string_from_chars(&cmd));
    }
    let w = trim_chars(&strip_dots_chars(&t));
    if same_text(&w, "exit") || same_text(&w, "quit") || same_text(&w, "halt") {
        return Line::Leave;
    }
    Line::Collect
}

/// A reply after an answer asks for the next one: `;`, `n` or `next`.
pub open spec fn asks_next(reply: Seq<char>) -> bool {
    let t = trimmed(reply);
    t == ";"@ || t == "n"@ || t == "next"@
}

/// Whether the reply typed after an answer asks for the next one.
pub fn wants_next(reply: &str) -> (b: bool)
    ensures
        b == asks_next(reply@),
{
    let t = trim_chars(&chars_of(reply));
    same_text(&t, ";") || same_text(&t, "n") || same_text(&t, "next")
}

// --- commands ----------------------------------------------------------------

/// A `:` command.
pub enum Command {
    Quit,
    Help,
    /// `:load FILE`.
    Load(String),
    /// `:load` without a file.
    LoadUsage,
    Reload,
    List,
    Clear,
    /// `:limit N`: the new cap (`None` for 0, unlimited).
    Limit(Option<usize>),
    /// `:limit` without a number.
    LimitUsage,
    ToggleAll,
    /// Anything else, by name.
    Unknown(String),
}

/// Where the first whitespace character of `s` is, from `from` on
/// (`s.len()` if none).
pub open spec fn first_white(s: Seq<char>, from: int) -> int
    decreases s.len() - from,
{
    if 0 <= from < s.len() && !is_white(s[from]) {
        first_white(s, from + 1)
    } else {
        from
    }
}

/// The name of a command: up to the first whitespace.
pub open spec fn command_name(cmd: Seq<char>) -> Seq<char> {
    cmd.subrange(0, first_white(cmd, 0))
}

/// The argument of a command: after the first whitespace, trimmed.
pub open spec fn command_arg(cmd: Seq<char>) -> Seq<char> {
    let w = first_white(cmd, 0);
    if w < cmd.len() {
        trimmed(cmd.subrange(w + 1, cmd.len() as int))
    } else {
        Seq::empty()
    }
}

/// Which command `cmd` (the text after `:`) names, with what argument.
pub open spec fn command_meaning(cmd: Seq<char>) -> (int, Seq<char>, Option<usize>) {
    let name = command_name(cmd);
    let arg = command_arg(cmd);
    if name == "quit"@ || name == "q"@ || name == "exit"@ {
        (0, Seq::empty(), None)
    } else if name == "help"@ || name == "h"@ || name == "?"@ {
        (1, Seq::empty(), None)
    } else if name == "load"@ || name == "l"@ {
        if arg.len() == 0 { (3, Seq::empty(), None) } else { (2, arg, None) }
    } else if name == "reload"@ || name == "r"@ {
        (4, Seq::empty(), None)
    } else if name == "list"@ {
        (5, Seq::empty(), None)
    } else if name == "clear"@ {
        (6, Seq::empty(), None)
    } else if name == "limit"@ {
        match usize_literal(arg) {
            Some(n) => (7, Seq::empty(), if n == 0 { None } else { Some(n as usize) }),
            None => (8, Seq::empty(), None),
        }
    } else if name == "all"@ {
        (9, Seq::empty(), None)
    } else {
        (10, name, None)
    }
}

/// The number of a command, as in [`command_meaning`], its text and its
/// cap.
pub open spec fn command_code(c: Command) -> (int, Seq<char>, Option<usize>) {
    match c {
        Command::Quit => (0, Seq::empty(), None),
        Command::Help => (1, Seq::empty(), None),
        Command::Load(f) => (2, f@, None),
        Command::LoadUsage => (3, Seq::empty(), None),
        Command::Reload => (4, Seq::empty(), None),
        Command::List => (5, Seq::empty(), None),
        Command::Clear => (6, Seq::empty(), None),
        Command::Limit(l) => (7, Seq::empty(), l),
        Command::LimitUsage => (8, Seq::empty(), None),
        Command::ToggleAll => (9, Seq::empty(), None),
        Command::Unknown(n) => (10, n@, None),
    }
}

fn subrange_chars(s: &Vec<char>, a: usize, b: usize) -> (r: Vec<char>)
    requires
        a <= b <= s@.len(),
    ensures
        r@ == s@.subrange(a as int, b as int),
{
    let mut out: Vec<char> = Vec::new();
    let mut i: usize = a;
    while i < b
        invariant
            a <= i <= b <= s@.len(),
            out@ == s@.subrange(a as int, i as int),
        decreases b - i,
    {
        out.push(s[i]);
        i = i + 1;
    }
    out
}

/// Read a `:` command (the text after the colon).
pub fn parse_command(cmd: &str) -> (c: Command)
    ensures
        command_code(c) == command_meaning(cmd@),
{
    let s = chars_of(cmd);
    let mut w: usize = 0;
    while w < s.len() && !white(s[w])
        invariant
            w <= s@.len(),
            first_white(s@, 0) == first_white(s@, w as int),
        decreases s@.len() - w,
    {
        w = w + 1;
    }
    let name = subrange_chars(&s, 0, w);
    let arg = if w < s.len() {
        trim_chars(&subrange_chars(&s, w + 1, s.len()))
    } else {
        Vec::new()
    };
    proof {
        assert(name@ == command_name(s@));
        assert(arg@ =~= command_arg(s@));
    }
    if same_text(&name, "quit") || same_text(&name, "q") || same_text(&name, "exit") {
        Command::Quit
    } else if same_text(&name, "help") || same_text(&name, "h") || same_text(&name, "?") {
        Command::Help
    } else if same_text(&name, "load") || same_text(&name, "l") {
        if arg.len() == 0 {
            Command::LoadUsage
        } else {
            Command::Load(string_from_chars(&arg))
        }
    } else if same_text(&name, "reload") || same_text(&name, "r") {
        Command::Reload
    } else if same_text(&name, "list") {
        Command::List
    } else if same_text(&name, "clear") {
        Command::Clear
    } else if same_text(&name, "limit") {
        match parse_usize(&arg) {
            Some(0) => Command::Limit(None),
            Some(n) => Command::Limit(Some(n)),
            None => Command::LimitUsage,
        }
    } else if same_text(&name, "all") {
        Command::ToggleAll
    } else {
        Command::Unknown(string_from_chars(&name))
    }
}

// --- interrupts and answers ---------------------------------------------------

/// What Ctrl-C at the prompt does.
#[derive(PartialEq, Eq, Structural)]
pub enum AtInterrupt {
    /// Drop the clause being typed.
    Discard,
    /// A second Ctrl-C in a row at an empty prompt: leave.
    Leave,
    /// Say how to leave.
    Hint,
}

/// Ctrl-C at the prompt, with a clause being typed or not, right after
/// another Ctrl-C or not: what to do, and whether the next one leaves.
pub fn on_interrupt(buffer_empty: bool, again: bool) -> (r: (AtInterrupt, bool))
    ensures
        r == (if !buffer_empty {
            (AtInterrupt::Discard, false)
        } else if again {
            (AtInterrupt::Leave, again)
        } else {
            (AtInterrupt::Hint, true)
        }),
{
    if !buffer_empty {
        (AtInterrupt::Discard, false)
    } else if again {
        (AtInterrupt::Leave, again)
    } else {
        (AtInterrupt::Hint, true)
    }
}

/// The cap on answers is reached.
pub open spec fn reached(limit: Option<usize>, count: nat) -> bool {
    limit matches Some(l) && count >= l
}

/// Whether `count` answers reach the cap.
pub fn limit_reached(limit: Option<usize>, count: usize) -> (b: bool)
    ensures
        b == reached(limit, count as nat),
{
    match limit {
        Some(l) => count >= l,
        None => false,
    }
}

/// How to show an answer.
#[derive(PartialEq, Eq, Structural)]
pub enum Show {
    /// Print it and go on (all answers).
    Print,
    /// Print it and stop: the cap is reached.
    PrintAndStop,
    /// Print it with a final `.`: nothing can follow.
    Last,
    /// Print it and ask whether to go on.
    Ask,
}

/// How to show answer number `count`: all at once (`all`) up to the cap,
/// or one at a time, finishing with `.` when no alternative remains.
pub fn show_answer(all: bool, limit: Option<usize>, count: usize, may_continue: bool) -> (s: Show)
    ensures
        s == (if all {
            if reached(limit, count as nat) { Show::PrintAndStop } else { Show::Print }
        } else if !may_continue {
            Show::Last
        } else {
            Show::Ask
        }),
{
    if all {
        if limit_reached(limit, count) {
            Show::PrintAndStop
        } else {
            Show::Print
        }
    } else if !may_continue {
        Show::Last
    } else {
        Show::Ask
    }
}

/// What to say when a query has no further answer.
#[derive(PartialEq, Eq, Structural)]
pub enum Ending {
    /// `interrupted.`
    Interrupted,
    /// The runtime error that stopped the search.
    Failed,
    /// `false.`
    False,
    /// Nothing more.
    Quiet,
}

/// The end of a query's answers: interrupted, stopped by an error, or
/// `false.` unless answers were printed all at once.
pub fn ending(interrupted: bool, failed: bool, count: usize, all: bool) -> (e: Ending)
    ensures
        e == (if interrupted {
            Ending::Interrupted
        } else if failed {
            Ending::Failed
        } else if count == 0 || !all {
            Ending::False
        } else {
            Ending::Quiet
        }),
{
    if interrupted {
        Ending::Interrupted
    } else if failed {
        Ending::Failed
    } else if count == 0 || !all {
        Ending::False
    } else {
        Ending::Quiet
    }
}

// --- the session ----------------------------------------------------------------

/// Where a session clause came from.
pub enum Origin {
    /// A loaded file, by path.
    File(String),
    /// Typed at the prompt.
    Prompt,
}

/// The file an origin names, if any.
pub open spec fn origin_file(o: Origin) -> Option<Seq<char>> {
    match o {
        Origin::File(p) => Some(p@),
        Origin::Prompt => None,
    }
}

/// The clauses of a session, the program they compile to, the files
/// loaded, and how answers are shown.
pub struct Session {
    clauses: Vec<Clause>,
    origins: Vec<Origin>,
    loaded: Vec<String>,
    program: Program,
    /// Print all answers of a query at once instead of one at a time.
    all_mode: bool,
    /// At most this many answers per query when printing them all.
    limit: Option<usize>,
}

/// The clauses of `cs` that are not queries.
pub open spec fn non_queries(cs: Seq<Clause>) -> Seq<Clause>
    decreases cs.len(),
{
    if cs.len() == 0 {
        Seq::empty()
    } else {
        non_queries(cs.drop_last()) + (if cs.last() is Query { Seq::empty() } else { seq![cs.last()] })
    }
}

/// The queries of `cs`.
pub open spec fn queries(cs: Seq<Clause>) -> Seq<Clause>
    decreases cs.len(),
{
    if cs.len() == 0 {
        Seq::empty()
    } else {
        queries(cs.drop_last()) + (if cs.last() is Query { seq![cs.last()] } else { Seq::empty() })
    }
}

/// The texts of the clauses of `cs` whose origin is a file (`from_file`)
/// or the prompt (otherwise), in order.
pub open spec fn texts_from(cs: Seq<Clause>, os: Seq<Option<Seq<char>>>, from_file: bool) -> Seq<Seq<char>>
    decreases cs.len(),
{
    if cs.len() == 0 || os.len() != cs.len() {
        Seq::empty()
    } else {
        texts_from(cs.drop_last(), os.drop_last(), from_file)
            + (if (os.last() is Some) == from_file { seq![clause_text(cs.last())] } else { Seq::empty() })
    }
}

impl Session {
    /// The session's clauses, in order.
    pub closed spec fn clauses_spec(&self) -> Seq<Clause> {
        self.clauses@
    }

    /// Where each clause came from.
    pub closed spec fn origins_spec(&self) -> Seq<Option<Seq<char>>> {
        self.origins@.map_values(|o: Origin| origin_file(o))
    }

    /// The files loaded, in the order first loaded.
    pub closed spec fn loaded_spec(&self) -> Seq<Seq<char>> {
        self.loaded@.map_values(|f: String| f@)
    }

    /// Whether all answers are printed at once.
    pub closed spec fn all_spec(&self) -> bool {
        self.all_mode
    }

    /// The cap on answers printed at once.
    pub closed spec fn limit_spec(&self) -> Option<usize> {
        self.limit
    }

    /// Whether all answers are printed at once.
    pub fn all_mode(&self) -> (b: bool)
        ensures
            b == self.all_spec(),
    {
        self.all_mode
    }

    /// The cap on answers printed at once.
    pub fn limit(&self) -> (l: Option<usize>)
        ensures
            l == self.limit_spec(),
    {
        self.limit
    }

    /// `:limit`: set the cap.
    pub fn set_limit(&mut self, l: Option<usize>)
        ensures
            final(self).limit_spec() == l,
            final(self).all_spec() == old(self).all_spec(),
            final(self).clauses_spec() == old(self).clauses_spec(),
            final(self).origins_spec() == old(self).origins_spec(),
            final(self).loaded_spec() == old(self).loaded_spec(),
            final(self).program_spec() == old(self).program_spec(),
            final(self).wf() == old(self).wf(),
    {
        self.limit = l;
    }

    /// The program compiled from the clauses.
    pub closed spec fn program_spec(&self) -> Program {
        self.program
    }

    /// One origin per clause, and the program has the clauses' queries.
    pub closed spec fn wf(&self) -> bool {
        &&& self.clauses@.len() == self.origins@.len()
        &&& self.program.query_texts_spec() == query_texts(self.clauses@)
    }

    /// An empty session, stepping through answers, with `limit` as the cap.
    pub fn new(limit: Option<usize>) -> (s: Session)
        ensures
            s.wf(),
            s.clauses_spec().len() == 0,
            s.loaded_spec().len() == 0,
            !s.all_spec(),
            s.limit_spec() == limit,
    {
        let s = Session {
            clauses: Vec::new(),
            origins: Vec::new(),
            loaded: Vec::new(),
            program: Program::empty(),
            all_mode: false,
            limit,
        };
        proof {
            assert(s.loaded_spec() =~= Seq::<Seq<char>>::empty());
        }
        s
    }

    /// The program compiled from the session's clauses.
    pub fn program(&self) -> (p: &Program)
        ensures
            *p == self.program_spec(),
    {
        &self.program
    }

    /// Compile the clauses; on failure drop those from position `n` on and
    /// keep the previous program.
    fn commit(&mut self, n: usize) -> (r: Result<(), EvalError>)
        requires
            n <= old(self).clauses@.len(),
            old(self).clauses@.len() == old(self).origins@.len(),
            old(self).program.query_texts_spec() == query_texts(old(self).clauses@.take(n as int)),
        ensures
            final(self).wf(),
            final(self).loaded == old(self).loaded,
            final(self).all_spec() == old(self).all_spec(),
            final(self).limit_spec() == old(self).limit_spec(),
            r is Ok ==> final(self).clauses@ == old(self).clauses@ && final(self).origins@ == old(self).origins@,
            r matches Err(e) ==> e == EvalError::InitialStoreUnsatisfiable
                && final(self).clauses@ == old(self).clauses@.take(n as int)
                && final(self).origins@ == old(self).origins@.take(n as int)
                && final(self).program == old(self).program,
    {
        match Program::compile(self.clauses.as_slice()) {
            Ok(p) => {
                self.program = p;
                Ok(())
            },
            Err(e) => {
                self.clauses.truncate(n);
                self.origins.truncate(n);
                Err(e)
            },
        }
    }

    /// Add the clauses read from the file at `path`: its queries are handed
    /// back (in order) to be answered; the others join the session. If the
    /// session no longer compiles, it is left as it was and the error
    /// returned. The file is remembered for `:reload`.
    pub fn load_clauses(&mut self, path: &str, clauses: Vec<Clause>) -> (r: Result<Vec<Clause>, EvalError>)
        requires
            old(self).wf(),
        ensures
            final(self).wf(),
            final(self).all_spec() == old(self).all_spec(),
            final(self).limit_spec() == old(self).limit_spec(),
            r matches Ok(qs) ==> qs@ == queries(clauses@)
                && final(self).clauses_spec() == old(self).clauses_spec() + non_queries(clauses@)
                && final(self).origins_spec() == old(self).origins_spec()
                    + Seq::new(non_queries(clauses@).len(), |k: int| Some(path@))
                && final(self).loaded_spec() == (if old(self).loaded_spec().contains(path@) {
                    old(self).loaded_spec()
                } else {
                    old(self).loaded_spec().push(path@)
                }),
            r matches Err(e) ==> e == EvalError::InitialStoreUnsatisfiable
                && final(self).clauses_spec() == old(self).clauses_spec()
                && final(self).origins_spec() == old(self).origins_spec()
                && final(self).loaded_spec() == old(self).loaded_spec()
                && final(self).program_spec() == old(self).program_spec(),
    {
        let n = self.clauses.len();
        let ghost c0 = self.clauses@;
        let ghost o0 = self.origins@;
        let ghost input = clauses@;
        let n_in = clauses.len();
        // Reverse, so that popping yields the clauses in order.
        let mut rest = clauses;
        let mut rev: Vec<Clause> = Vec::new();
        while rest.len() > 0
            invariant
                rest@ == input.take(rest@.len() as int),
                rev@.len() + rest@.len() == input.len(),
                forall|k: int| 0 <= k < rev@.len() ==> #[trigger] rev@[k] == input[input.len() - 1 - k],
            decreases rest@.len(),
        {
            let ghost r0 = rest@;
            let c = rest.pop().unwrap();
            proof {
                assert(c == input[r0.len() - 1]);
            }
            rev.push(c);
            proof {
                assert(rest@ =~= input.take(rest@.len() as int));
            }
        }
        let mut qs: Vec<Clause> = Vec::new();
        let mut taken: usize = 0;
        while rev.len() > 0
            invariant
                taken + rev@.len() == input.len(),
                input.len() == n_in,
                forall|k: int| 0 <= k < rev@.len() ==> #[trigger] rev@[k] == input[input.len() - 1 - k],
                qs@ == queries(input.take(taken as int)),
                self.clauses@ == c0 + non_queries(input.take(taken as int)),
                self.origins@.len() == self.clauses@.len(),
                self.origins@.subrange(0, n as int) == o0,
                forall|k: int| n <= k < self.origins@.len() ==> origin_file(#[trigger] self.origins@[k]) == Some(path@),
                n == c0.len(),
                c0.len() == o0.len(),
                self.program == old(self).program,
                self.loaded == old(self).loaded,
                self.all_mode == old(self).all_mode,
                self.limit == old(self).limit,
            decreases rev@.len(),
        {
            let ghost r0 = rev@;
            let c = rev.pop().unwrap();
            proof {
                assert(c == r0[r0.len() - 1]);
                assert(c == input[taken as int]);
                assert(input.take(taken + 1).drop_last() =~= input.take(taken as int));
                assert(input.take(taken + 1).last() == input[taken as int]);
            }
            if let Clause::Query(_) = &c {
                qs.push(c);
            } else {
                self.clauses.push(c);
                self.origins.push(Origin::File(path.to_string()));
            }
            taken = taken + 1;
        }
        proof {
            assert(input.take(input.len() as int) =~= input);
            assert(c0 =~= self.clauses@.take(n as int));
        }
        let ghost before_commit = self.origins@;
        match self.commit(n) {
            Ok(()) => {
                if !self.knows(path) {
                    self.loaded.push(path.to_string());
                }
                proof {
                    let added = Seq::new(non_queries(input).len(), |k: int| Some(path@));
                    assert(self.origins_spec() =~= o0.map_values(|o: Origin| origin_file(o)) + added) by {
                        assert forall|k: int| 0 <= k < self.origins@.len() implies
                            #[trigger] self.origins_spec()[k] == (o0.map_values(|o: Origin| origin_file(o)) + added)[k] by {
                            if k < n {
                                assert(self.origins@[k] == o0[k]);
                            }
                        }
                    }
                    assert(self.loaded_spec() =~= (if old(self).loaded_spec().contains(path@) {
                        old(self).loaded_spec()
                    } else {
                        old(self).loaded_spec().push(path@)
                    }));
                }
                Ok(qs)
            },
            Err(e) => {
                proof {
                    assert(self.origins@ =~= o0);
                    assert(self.clauses@ =~= c0);
                }
                Err(e)
            },
        }
    }

    /// Whether `path` is among the loaded files.
    fn knows(&self, path: &str) -> (b: bool)
        ensures
            b == self.loaded_spec().contains(path@),
    {
        let p = chars_of(path);
        let mut i: usize = 0;
        while i < self.loaded.len()
            invariant
                i <= self.loaded@.len(),
                p@ == path@,
                forall|k: int| 0 <= k < i ==> self.loaded@[k]@ != path@,
            decreases self.loaded@.len() - i,
        {
            if same_text(&p, self.loaded[i].as_str()) {
                proof {
                    assert(self.loaded_spec()[i as int] == path@);
                }
                return true;
            }
            i = i + 1;
        }
        proof {
            if self.loaded_spec().contains(path@) {
                let k = choose|k: int| 0 <= k < self.loaded_spec().len() && self.loaded_spec()[k] == path@;
                assert(self.loaded@[k]@ == path@);
            }
        }
        false
    }

    /// Add a clause typed at the prompt. If the session no longer compiles,
    /// it is left as it was and the error returned.
    pub fn add_clause(&mut self, c: Clause) -> (r: Result<(), EvalError>)
        requires
            old(self).wf(),
        ensures
            final(self).wf(),
            final(self).loaded_spec() == old(self).loaded_spec(),
            final(self).all_spec() == old(self).all_spec(),
            final(self).limit_spec() == old(self).limit_spec(),
            r is Ok ==> final(self).clauses_spec() == old(self).clauses_spec().push(c)
                && final(self).origins_spec() == old(self).origins_spec().push(None),
            r matches Err(e) ==> e == EvalError::InitialStoreUnsatisfiable
                && final(self).clauses_spec() == old(self).clauses_spec()
                && final(self).origins_spec() == old(self).origins_spec()
                && final(self).program_spec() == old(self).program_spec(),
    {
        let n = self.clauses.len();
        let ghost c0 = self.clauses@;
        let ghost o0 = self.origins@;
        self.clauses.push(c);
        self.origins.push(Origin::Prompt);
        proof {
            assert(self.clauses@.take(n as int) =~= c0);
            assert(self.origins@.take(n as int) =~= o0);
        }
        let r = self.commit(n);
        proof {
            assert(self.origins_spec() =~= (if r is Ok {
                o0.map_values(|o: Origin| origin_file(o)).push(None)
            } else {
                o0.map_values(|o: Origin| origin_file(o))
            }));
        }
        r
    }

    /// The program of the session's clauses followed by `query`, to answer
    /// it; the session itself is unchanged.
    pub fn query_program(&mut self, query: Clause) -> (r: Result<Program, EvalError>)
        requires
            old(self).wf(),
        ensures
            final(self).clauses_spec() == old(self).clauses_spec(),
            final(self).origins_spec() == old(self).origins_spec(),
            final(self).loaded_spec() == old(self).loaded_spec(),
            final(self).program_spec() == old(self).program_spec(),
            final(self).all_spec() == old(self).all_spec(),
            final(self).limit_spec() == old(self).limit_spec(),
            final(self).wf(),
            r matches Ok(p) ==> p.query_texts_spec() == query_texts(old(self).clauses_spec().push(query)),
            r matches Err(e) ==> e == EvalError::InitialStoreUnsatisfiable,
    {
        let ghost before = *self;
        self.clauses.push(query);
        let r = Program::compile(self.clauses.as_slice());
        self.clauses.pop();
        proof {
            assert(self.clauses@ =~= before.clauses@);
        }
        r
    }

    /// Start `:reload`: forget the clauses and the loaded files, and hand
    /// the files back to be read again in order.
    pub fn take_loaded(&mut self) -> (files: Vec<String>)
        requires
            old(self).wf(),
        ensures
            final(self).wf(),
            files@.map_values(|f: String| f@) == old(self).loaded_spec(),
            final(self).clauses_spec().len() == 0,
            final(self).loaded_spec().len() == 0,
            final(self).all_spec() == old(self).all_spec(),
            final(self).limit_spec() == old(self).limit_spec(),
    {
        let mut files: Vec<String> = Vec::new();
        std::mem::swap(&mut files, &mut self.loaded);
        self.clauses = Vec::new();
        self.origins = Vec::new();
        self.program = Program::empty();
        proof {
            assert(self.loaded_spec() =~= Seq::<Seq<char>>::empty());
        }
        files
    }

    /// `:clear`: no clauses, no loaded files.
    pub fn clear(&mut self)
        requires
            old(self).wf(),
        ensures
            final(self).wf(),
            final(self).clauses_spec().len() == 0,
            final(self).loaded_spec().len() == 0,
            final(self).all_spec() == old(self).all_spec(),
            final(self).limit_spec() == old(self).limit_spec(),
    {
        self.clauses = Vec::new();
        self.origins = Vec::new();
        self.loaded = Vec::new();
        self.program = Program::empty();
        proof {
            assert(self.loaded_spec() =~= Seq::<Seq<char>>::empty());
        }
    }

    /// `:list`: the clauses from files first, then those typed at the
    /// prompt, each group in order.
    pub fn listing(&self) -> (texts: Vec<String>)
        requires
            self.wf(),
        ensures
            texts@.map_values(|t: String| t@) == texts_from(self.clauses_spec(), self.origins_spec(), true)
                + texts_from(self.clauses_spec(), self.origins_spec(), false),
    {
        let mut out = self.texts_of(true);
        let mut b = self.texts_of(false);
        let ghost av = out@;
        let ghost bv = b@;
        out.append(&mut b);
        proof {
            assert(out@.map_values(|t: String| t@) =~= av.map_values(|t: String| t@) + bv.map_values(|t: String| t@));
        }
        out
    }

    /// The texts of the clauses from files (`from_file`) or from the
    /// prompt, in order.
    fn texts_of(&self, from_file: bool) -> (texts: Vec<String>)
        requires
            self.wf(),
        ensures
            texts@.map_values(|t: String| t@) == texts_from(self.clauses_spec(), self.origins_spec(), from_file),
    {
        let mut out: Vec<String> = Vec::new();
        let mut i: usize = 0;
        while i < self.clauses.len()
            invariant
                i <= self.clauses@.len(),
                self.clauses@.len() == self.origins@.len(),
                out@.map_values(|t: String| t@) == texts_from(
                    self.clauses@.take(i as int),
                    self.origins_spec().take(i as int),
                    from_file,
                ),
            decreases self.clauses@.len() - i,
        {
            let is_file = match &self.origins[i] {
                Origin::File(_) => true,
                Origin::Prompt => false,
            };
            proof {
                assert(self.clauses@.take(i + 1).drop_last() =~= self.clauses@.take(i as int));
                assert(self.origins_spec().take(i + 1).drop_last() =~= self.origins_spec().take(i as int));
                assert(self.origins_spec()[i as int] == origin_file(self.origins@[i as int]));
            }
            if is_file == from_file {
                out.push(self.clauses[i].to_string());
            }
            i = i + 1;
            proof {
                assert(out@.map_values(|t: String| t@) =~= texts_from(
                    self.clauses@.take(i as int),
                    self.origins_spec().take(i as int),
                    from_file,
                ));
            }
        }
        proof {
            assert(self.clauses@.take(i as int) =~= self.clauses@);
            assert(self.origins_spec().take(i as int) =~= self.origins_spec());
        }
        out
    }

    /// `:all`: switch between printing all answers and stepping; the new
    /// mode.
    pub fn toggle_all(&mut self) -> (all: bool)
        ensures
            all == !old(self).all_spec(),
            final(self).all_spec() == all,
            final(self).limit_spec() == old(self).limit_spec(),
            final(self).clauses_spec() == old(self).clauses_spec(),
            final(self).origins_spec() == old(self).origins_spec(),
            final(self).loaded_spec() == old(self).loaded_spec(),
            final(self).program_spec() == old(self).program_spec(),
            final(self).wf() == old(self).wf(),
    {
        self.all_mode = !self.all_mode;
        self.all_mode
    }
}

} // verus!
