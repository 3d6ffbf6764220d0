//! The SLD machine: goals left to right, clauses in program order,
//! chronological backtracking through choice points and the store's trail.
//! Iterative — resolution depth never touches the Rust stack.
//!
//! A resolution step is taken only if head unification, the clause's
//! arithmetic definitions and any constraint goals reached leave the store
//! satisfiable; before an answer is yielded the store is finalized (exact
//! determination, disequation re-checks).

use vstd::prelude::*;
use crate::ast::RelOp;
use crate::text::{push_all, push_str, string_from_chars};
use super::answer::{Answer, emit_count, emits, equation_fits, query_roots, reaches, render_answer, render_terms, shown_difs, shows_bounds, strings_view};
use super::compile::{build, plain_goal, vars_kept, Program, Query, TClause, TGoal};
use super::error::EvalError;
use super::store::{Addr, Cell, Mark, Store, alias_root, deref_chain};
use super::symbol::Symbol;

verus! {

/// A runtime goal.
#[derive(Debug, Clone, Copy)]
pub enum RtGoal {
    Call(Addr),
    Eq(Addr, Addr),
    Dif(Addr, Addr),
    Rel(RelOp, Addr, Addr),
}

/// A cell of the goal lists: a goal and the index of the rest of its list.
/// Lists share their tails, so snapshotting one into a choice point is free.
#[derive(Debug, Clone, Copy)]
struct GoalNode {
    goal: RtGoal,
    next: Option<usize>,
}

struct ChoicePoint {
    /// Goals remaining after the call being retried.
    rest: Option<usize>,
    call: Addr,
    functor: Symbol,
    arity: usize,
    next_clause: usize,
    mark: Mark,
    /// Goal cells created after this point are garbage on return to it.
    arena: usize,
}

/// What a bounded run of the search produced.
pub enum Step {
    /// The next answer.
    Answer(Answer),
    /// The search is over (exhausted, or stopped by an error).
    Done,
    /// The step budget ran out; resuming continues where it stopped.
    Paused,
}

enum RunResult {
    Found,
    Failed,
    Paused,
}

/// The solutions of one query, produced on demand; each request resumes the
/// search where the previous answer left it. If the search stops on a
/// runtime error (a non-linear residue, a cyclic attribute term) it ends and
/// [`Solutions::error`] reports it.
pub struct Solutions<'p> {
    program: &'p Program,
    store: Store,
    nodes: Vec<GoalNode>,
    goals: Option<usize>,
    choice_points: Vec<ChoicePoint>,
    query_vars: Vec<(String, Addr)>,
    started: bool,
    /// A run was paused mid-search.
    in_progress: bool,
    exhausted: bool,
    error: Option<EvalError>,
    interrupted: bool,
}

/// Instantiate a goal template.
fn instantiate_goal(store: &mut Store, g: &TGoal, vars: &mut Vec<Option<Addr>>) -> (r: Option<RtGoal>)
    requires
        old(store).wf(),
    ensures
        final(store).evolves(&*old(store)),
        vars_kept(final(vars)@, old(vars)@),
        plain_goal(*g, old(vars)@.len()) ==> r is Some,
        r matches Some(rg) ==> match (*g, rg) {
            (TGoal::Call(_), RtGoal::Call(_)) => true,
            (TGoal::Eq(..), RtGoal::Eq(..)) => true,
            (TGoal::Dif(..), RtGoal::Dif(..)) => true,
            (TGoal::Rel(op, ..), RtGoal::Rel(op2, ..)) => op == op2,
            _ => false,
        },
{
    match g {
        TGoal::Call(t) => {
            let a = build(store, t, vars)?;
            Some(RtGoal::Call(a))
        },
        TGoal::Eq(a, b) => {
            let a = build(store, a, vars)?;
            let b = build(store, b, vars)?;
            Some(RtGoal::Eq(a, b))
        },
        TGoal::Dif(a, b) => {
            let a = build(store, a, vars)?;
            let b = build(store, b, vars)?;
            Some(RtGoal::Dif(a, b))
        },
        TGoal::Rel(op, a, b) => {
            let a = build(store, a, vars)?;
            let b = build(store, b, vars)?;
            Some(RtGoal::Rel(*op, a, b))
        },
    }
}

fn empty_vars(n: usize) -> (v: Vec<Option<Addr>>)
    ensures
        v@.len() == n,
{
    let mut v: Vec<Option<Addr>> = Vec::new();
    let mut i: usize = 0;
    while i < n
        invariant
            i <= n,
            v@.len() == i,
        decreases n - i,
    {
        v.push(None);
        i = i + 1;
    }
    v
}

/// The predicate a call goal invokes.
/// The predicate a call names: its functor and arity after following
/// bindings.
fn pred_key(store: &Store, call: Addr) -> (r: Option<(Symbol, usize)>)
    ensures
        r == (if call < store.heap_len() {
            match store.cell_at(deref_chain(store.slots(), call as int, store.heap_len())) {
                Cell::Struct(f, args) => Some((f, args@.len() as usize)),
                Cell::Const(c) => Some((c, 0usize)),
                _ => None,
            }
        } else {
            None
        }),
{
    let d = store.deref(call);
    if d >= store.len() {
        return None;
    }
    match store.cell(d) {
        Cell::Struct(f, args) => Some((*f, args.len())),
        Cell::Const(c) => Some((*c, 0)),
        _ => None,
    }
}

impl<'p> Solutions<'p> {
    /// The machine's invariant: a well-formed store, and choice points whose
    /// marks are valid and taken in order.
    pub closed spec fn inv(&self) -> bool {
        &&& self.store.wf()
        &&& forall|i: int| 0 <= i < self.choice_points@.len() ==>
            self.store.valid_mark(#[trigger] self.choice_points@[i].mark)
        &&& forall|i: int, j: int| 0 <= i <= j < self.choice_points@.len() ==>
            (#[trigger] self.choice_points@[i]).mark.position() <= (#[trigger] self.choice_points@[j]).mark.position()
            && self.choice_points@[i].mark.trail_len() <= self.choice_points@[j].mark.trail_len()
            && self.choice_points@[i].mark.within(self.choice_points@[j].mark)
        &&& self.exhausted ==> !self.in_progress
        &&& self.in_progress ==> self.started
    }

    /// Where the search stands: started, paused mid-run, exhausted, its
    /// error, interrupted.
    closed spec fn control(&self) -> (bool, bool, bool, Option<EvalError>, bool) {
        (self.started, self.in_progress, self.exhausted, self.error, self.interrupted)
    }

    /// The search is over: every further request reports that it is done.
    pub closed spec fn finished(&self) -> bool {
        self.exhausted
    }

    /// An answer was given and no search is under way.
    pub closed spec fn after_answer(&self) -> bool {
        self.started && !self.in_progress
    }

    /// A bounded run stopped mid-search; the next request resumes it.
    pub closed spec fn paused(&self) -> bool {
        self.in_progress
    }

    /// The runtime error that stopped the search, if any.
    pub closed spec fn error_spec(&self) -> Option<EvalError> {
        self.error
    }

    /// No non-linear product is left undetermined in the store: what an
    /// answer states is exact.
    pub closed spec fn exact(&self) -> bool {
        self.store.products_linear()
    }

    /// The constraint store the search works on.
    pub closed spec fn store_spec(&self) -> Store {
        self.store
    }

    /// The query's variables, by name, with their heap addresses.
    pub closed spec fn query_vars_spec(&self) -> Seq<(String, Addr)> {
        self.query_vars@
    }

    /// The program's names, by symbol number.
    pub closed spec fn symbol_names(&self) -> Seq<Seq<char>> {
        self.program.symbols_spec()@
    }

    /// `a` leads with the equations of the query variables that have one,
    /// in query-variable order, as the current store gives them.
    pub open spec fn leads_with_equations(&self, a: Answer) -> bool {
        let st = self.store_spec();
        let qv = self.query_vars_spec();
        &&& a.equations@.len() >= emit_count(st, qv, qv.len() as int)
        &&& forall|i: int| #![trigger emits(st, qv, i)] 0 <= i < qv.len() && emits(st, qv, i)
            ==> equation_fits(st, self.symbol_names(), qv, i, a.equations@[emit_count(st, qv, i)]@)
    }

    /// The constraints of `a` hold the bound lines of the class of every
    /// numeric variable reachable from the query.
    pub closed spec fn bounds_shown(&self, a: Answer) -> bool {
        let st = self.store_spec();
        let roots = query_roots(self.query_vars_spec());
        forall|x: int| #![trigger reaches(st, roots, x)]
            0 <= x < st.heap_len() && st.cell_at(x) is Var && reaches(st, roots, x) && st.slots()[x].numvar is Some
            ==> shows_bounds(st, alias_root(st.image().aliases, st.slots()[x].numvar->0, st.alias_len()),
                strings_view(a.constraints@))
    }

    /// Untried alternatives remain and the search is not over.
    pub closed spec fn may_continue_spec(&self) -> bool {
        !self.exhausted && self.choice_points@.len() > 0
    }

    /// Start the search for `query` over `program`.
    pub(crate) fn new(program: &'p Program, query: &Query) -> (s: Solutions<'p>)
        ensures
            s.inv(),
            !s.paused(),
            !s.interrupted_spec(),
    {
        let mut store = Store::new();
        // Constraint facts first (validated satisfiable at compile time).
        let initial_ok = program.post_initial(&mut store);
        store.set_baseline();
        let mut vars = empty_vars(query.var_names().len());
        let mut ok = initial_ok;
        // Build in source order (definitions post in order), then link.
        let mut built: Vec<RtGoal> = Vec::new();
        let qgoals = query.goals();
        let mut i: usize = 0;
        while i < qgoals.len()
            invariant
                store.wf(),
            decreases qgoals@.len() - i,
        {
            match instantiate_goal(&mut store, &qgoals[i], &mut vars) {
                Some(rg) => built.push(rg),
                None => {
                    ok = false;
                    break;
                },
            }
            i = i + 1;
        }
        let mut nodes: Vec<GoalNode> = Vec::new();
        let mut goals: Option<usize> = None;
        let mut k = built.len();
        while k > 0
            invariant
                k <= built@.len(),
            decreases k,
        {
            k = k - 1;
            nodes.push(GoalNode { goal: built[k], next: goals });
            goals = Some(nodes.len() - 1);
        }
        let mut query_vars: Vec<(String, Addr)> = Vec::new();
        let qnames = query.var_names();
        let mut j: usize = 0;
        while j < qnames.len()
            invariant
                j <= qnames@.len(),
            decreases qnames@.len() - j,
        {
            if j < vars.len() {
                if let Some(a) = vars[j] {
                    query_vars.push((qnames[j].clone(), a));
                }
            }
            j = j + 1;
        }
        let error = store.take_error();
        Solutions {
            program,
            store,
            nodes,
            goals,
            choice_points: Vec::new(),
            query_vars,
            started: false,
            in_progress: false,
            exhausted: !ok,
            error,
            interrupted: false,
        }
    }

    /// The runtime error that stopped the search, if any.
    pub fn error(&self) -> (r: Option<&EvalError>)
        ensures
            match r {
                Some(e) => self.error_spec() == Some(*e),
                None => self.error_spec() is None,
            },
    {
        match &self.error {
            Some(e) => Some(e),
            None => None,
        }
    }

    /// Stop the search: no further answers, no error; [`Solutions::interrupted`]
    /// becomes true.
    pub fn interrupt(&mut self)
        requires
            old(self).inv(),
        ensures
            final(self).inv(),
            final(self).interrupted_spec(),
            final(self).finished(),
            !final(self).paused(),
            final(self).error_spec() == old(self).error_spec(),
    {
        self.exhausted = true;
        self.in_progress = false;
        self.interrupted = true;
    }

    pub closed spec fn interrupted_spec(&self) -> bool {
        self.interrupted
    }

    /// True if the search was stopped through [`Solutions::interrupt`].
    pub fn interrupted(&self) -> (b: bool)
        ensures
            b == self.interrupted_spec(),
    {
        self.interrupted
    }

    /// True if asking for another answer could still find one: the search
    /// has untried alternatives. False after exhaustion or when the last
    /// answer left no choice point.
    pub fn may_continue(&self) -> (b: bool)
        ensures
            b == self.may_continue_spec(),
            self.finished() ==> !b,
    {
        !self.exhausted && self.choice_points.len() > 0
    }

    /// Push a goal cell; its index.
    fn push_node(&mut self, goal: RtGoal, next: Option<usize>) -> (i: usize)
        requires
            old(self).inv(),
        ensures
            i == old(self).nodes@.len(),
            final(self).nodes@ == old(self).nodes@.push(GoalNode { goal, next }),
            final(self).store == old(self).store,
            final(self).goals == old(self).goals,
            final(self).inv(),
            final(self).choice_points@.len() == old(self).choice_points@.len(),
            final(self).control() == old(self).control(),
    {
        self.nodes.push(GoalNode { goal, next });
        self.nodes.len() - 1
    }

    /// Try clauses `from..` of `functor/arity` against `call`; on success
    /// install the clause body in front of `rest` (and a choice point if
    /// clauses remain).
    fn try_clauses(&mut self, functor: Symbol, arity: usize, from: usize, call: Addr, rest: Option<usize>) -> (ok: bool)
        requires
            old(self).inv(),
        ensures
            final(self).inv(),
            !ok ==> final(self).choice_points@.len() == old(self).choice_points@.len(),
            final(self).choice_points@.len() <= old(self).choice_points@.len() + 1,
            final(self).control() == old(self).control(),
            old(self).program.inv() && functor.0 < old(self).program.names().len()
                && from >= old(self).program.clauses_for(old(self).program.names()[functor.0 as int], arity as nat).len()
                ==> !ok && *final(self) == *old(self),
    {
        let program = self.program;
        let clauses: &Vec<TClause> = match program.clauses_of(functor, arity) {
            Some(c) => c,
            None => {
                return false;
            },
        };
        let mut j = from;
        while j < clauses.len()
            invariant
                self.inv(),
                j >= from,
                from >= clauses@.len() ==> *self == *old(self),
                old(self).program.inv() && functor.0 < old(self).program.names().len() ==>
                    clauses@ == old(self).program.clauses_for(old(self).program.names()[functor.0 as int], arity as nat),
                self.choice_points@.len() == old(self).choice_points@.len(),
                self.control() == old(self).control(),
            decreases clauses@.len() - j,
        {
            let mark = self.store.mark();
            let clause = &clauses[j];
            let mut vars = empty_vars(clause.nvars);
            let head = match build(&mut self.store, &clause.head, &mut vars) {
                Some(h) => h,
                None => {
                    self.store.undo_to(&mark);
                    if self.store.has_error() {
                        return false;
                    }
                    j = j + 1;
                    continue;
                },
            };
            if !self.store.post_eq(head, call) {
                self.store.undo_to(&mark);
                j = j + 1;
                continue;
            }
            // Instantiate the body (posting its arithmetic definitions).
            let mut body: Vec<RtGoal> = Vec::new();
            let mut ok = true;
            let mut g: usize = 0;
            while g < clause.body.len()
                invariant
                    self.inv(),
                    self.store.valid_mark(mark),
                    self.choice_points@.len() == old(self).choice_points@.len(),
                    self.control() == old(self).control(),
                    forall|i: int| 0 <= i < self.choice_points@.len() ==>
                        (#[trigger] self.choice_points@[i]).mark.position() <= mark.position()
                        && self.choice_points@[i].mark.trail_len() <= mark.trail_len()
                        && self.choice_points@[i].mark.within(mark),
                decreases clause.body@.len() - g,
            {
                match instantiate_goal(&mut self.store, &clause.body[g], &mut vars) {
                    Some(rg) => body.push(rg),
                    None => {
                        ok = false;
                        break;
                    },
                }
                g = g + 1;
            }
            if !ok {
                self.store.undo_to(&mark);
                if self.store.has_error() {
                    return false;
                }
                j = j + 1;
                continue;
            }
            if j + 1 < clauses.len() {
                let arena = self.nodes.len();
                self.choice_points.push(ChoicePoint {
                    rest,
                    call,
                    functor,
                    arity,
                    next_clause: j + 1,
                    mark,
                    arena,
                });
            }
            let mut goals = rest;
            let mut k = body.len();
            while k > 0
                invariant
                    self.inv(),
                    k <= body@.len(),
                    self.choice_points@.len() <= old(self).choice_points@.len() + 1,
                    self.control() == old(self).control(),
                decreases k,
            {
                k = k - 1;
                let idx = self.push_node(body[k], goals);
                goals = Some(idx);
            }
            self.goals = goals;
            return true;
        }
        false
    }

    /// Return to the most recent choice point with clauses left. False if
    /// the search space is exhausted (or a store error stopped it).
    fn backtrack(&mut self) -> (ok: bool)
        requires
            old(self).inv(),
        ensures
            final(self).inv(),
            final(self).control() == old(self).control(),
            old(self).choice_points@.len() == 0 ==> !ok && *final(self) == *old(self),
    {
        while self.choice_points.len() > 0
            invariant
                self.inv(),
                self.control() == old(self).control(),
                old(self).choice_points@.len() == 0 ==> *self == *old(self),
            decreases self.choice_points@.len(),
        {
            let cp = self.choice_points.pop().unwrap();
            self.store.undo_to(&cp.mark);
            self.nodes.truncate(cp.arena);
            if self.try_clauses(cp.functor, cp.arity, cp.next_clause, cp.call, cp.rest) {
                return true;
            }
            if self.store.has_error() {
                return false;
            }
        }
        false
    }

    /// Run until the goal list is empty and the store finalizes (an
    /// answer), the search is exhausted or stopped, or `budget` steps pass.
    fn run(&mut self, budget: u64) -> (r: RunResult)
        requires
            old(self).inv(),
        ensures
            final(self).inv(),
            final(self).control() == old(self).control(),
            r is Found ==> final(self).exact(),
            budget == 0 ==> r is Paused && *final(self) == *old(self),
            budget > 0 && old(self).store.error_spec() is Some ==> r is Failed && *final(self) == *old(self),
    {
        let mut steps: u64 = 0;
        while steps < budget
            invariant
                self.inv(),
                self.control() == old(self).control(),
                steps == 0 ==> *self == *old(self),
                steps <= budget,
                old(self).store.error_spec() is Some ==> steps == 0,
            decreases budget - steps,
        {
            let ghost first = steps == 0;
            steps = steps + 1;
            if self.store.has_error() {
                assert(first ==> *self == *old(self));
                return RunResult::Failed;
            }
            let node = match self.goals {
                None => {
                    // All goals solved: finalize the store for this answer.
                    if self.store.finalize() {
                        return RunResult::Found;
                    }
                    if self.store.has_error() || self.store.has_nonlinear() || !self.backtrack() {
                        return RunResult::Failed;
                    }
                    continue;
                },
                Some(i) => {
                    if i >= self.nodes.len() {
                        return RunResult::Failed;
                    }
                    self.nodes[i]
                },
            };
            let rest = node.next;
            let ok = match node.goal {
                RtGoal::Call(call) => match pred_key(&self.store, call) {
                    Some((f, n)) => self.try_clauses(f, n, 0, call, rest),
                    None => false,
                },
                RtGoal::Eq(a, b) => {
                    self.goals = rest;
                    self.store.post_eq_goal(a, b)
                },
                RtGoal::Dif(a, b) => {
                    self.goals = rest;
                    self.store.post_dif_goal(a, b)
                },
                RtGoal::Rel(op, a, b) => {
                    self.goals = rest;
                    self.store.post_rel(op, a, b)
                },
            };
            if !ok && (self.store.has_error() || !self.backtrack()) {
                return RunResult::Failed;
            }
        }
        RunResult::Paused
    }

    /// Take the store's runtime error, rendering a non-linear residue with
    /// the query's variable names.
    fn take_error(&mut self) -> (e: Option<EvalError>)
        requires
            old(self).inv(),
        ensures
            final(self).inv(),
            final(self).control() == old(self).control(),
            old(self).store.error_spec() is Some ==> e == old(self).store.error_spec(),
            old(self).store.error_spec() is None && old(self).store.nonlinear_spec() is None ==> e is None,
            old(self).store.error_spec() is None && old(self).store.nonlinear_spec() is Some ==> e matches Some(EvalError::NonLinear { .. }),
            final(self).store.error_spec() is None,
    {
        if let Some(e) = self.store.take_error() {
            return Some(e);
        }
        let (a, b, op) = self.store.take_nonlinear()?;
        let mut addrs: Vec<Addr> = Vec::new();
        addrs.push(a);
        addrs.push(b);
        let rendered = render_terms(self.program.symbols(), &self.store, &self.query_vars, &addrs);
        if rendered.len() < 2 {
            return None;
        }
        let mut text = rendered[0].clone();
        text.push(' ');
        text.push(op);
        text.push(' ');
        push_all(&mut text, &rendered[1]);
        Some(EvalError::NonLinear { constraint: string_from_chars(&text) })
    }

    /// Search for the next answer for at most `budget` steps.
    pub fn next_within(&mut self, budget: u64) -> (s: Step)
        requires
            old(self).inv(),
        ensures
            final(self).inv(),
            old(self).finished() ==> s is Done && *final(self) == *old(self),
            s is Done ==> final(self).finished(),
            !(s is Done) ==> !final(self).finished() && final(self).error_spec() == old(self).error_spec(),
            (s is Paused) == final(self).paused(),
            final(self).interrupted_spec() == old(self).interrupted_spec(),
            s is Answer ==> final(self).exact(),
            s matches Step::Answer(a) ==> a.disequations@.len()
                == shown_difs(final(self).store_spec(), query_roots(final(self).query_vars_spec())).len(),
            s matches Step::Answer(a) ==> final(self).leads_with_equations(a),
            s is Answer ==> final(self).after_answer(),
            old(self).after_answer() && !old(self).may_continue_spec() ==> s is Done,
            s matches Step::Answer(a) ==> final(self).bounds_shown(a),
    {
        if !self.in_progress {
            if self.exhausted {
                return Step::Done;
            }
            if self.started && !self.backtrack() {
                self.exhausted = true;
                self.error = self.take_error();
                return Step::Done;
            }
            self.started = true;
            self.in_progress = true;
        }
        match self.run(budget) {
            RunResult::Found => {
                self.in_progress = false;
                Step::Answer(render_answer(self.program.symbols(), &self.store, &self.query_vars))
            },
            RunResult::Failed => {
                self.in_progress = false;
                self.exhausted = true;
                self.error = self.take_error();
                Step::Done
            },
            RunResult::Paused => Step::Paused,
        }
    }

    /// The next answer, if there is one.
    pub fn next_answer(&mut self) -> (a: Option<Answer>)
        requires
            old(self).inv(),
        ensures
            final(self).inv(),
            old(self).finished() ==> a is None && *final(self) == *old(self),
            a is Some ==> !final(self).finished() && !final(self).paused()
                && final(self).error_spec() == old(self).error_spec() && final(self).exact(),
            a is None ==> final(self).finished() || final(self).paused(),
            a matches Some(x) ==> x.disequations@.len()
                == shown_difs(final(self).store_spec(), query_roots(final(self).query_vars_spec())).len(),
            a matches Some(x) ==> final(self).leads_with_equations(x),
            a is Some ==> final(self).after_answer(),
            a matches Some(x) ==> final(self).bounds_shown(x),
            old(self).after_answer() && !old(self).may_continue_spec() ==> a is None && final(self).finished(),
            final(self).interrupted_spec() == old(self).interrupted_spec(),
    {
        match self.next_within(u64::MAX) {
            Step::Answer(a) => Some(a),
            _ => None,
        }
    }
}

impl Program {
    /// Answer a query: its solutions, computed on demand.
    pub fn solve<'p>(&'p self, query: &Query) -> (s: Solutions<'p>)
        ensures
            s.inv(),
            !s.paused(),
            !s.interrupted_spec(),
    {
        Solutions::new(self, query)
    }
}

} // verus!
