//! Lowering syntax-tree clauses to the runtime program: clause templates with
//! pre-numbered variables (structure copying at instantiation), the
//! predicate index, the initial store's constraint facts, and the queries.

use vstd::prelude::*;
use crate::ast::{self, ArithOp, Clause, Expr, Goal, RelOp, clause_text};
use crate::number::Number;
use crate::parser::Span;
use super::error::EvalError;
use super::store::{Addr, Cell, Store};
use super::symbol::{Symbol, Symbols, distinct_names};

verus! {

/// A term template: variables are clause-local indices; arithmetic is kept
/// as constructors and posted to the store at instantiation.
#[derive(Debug)]
pub enum TTerm {
    Var(usize),
    Number(Number),
    Const(Symbol),
    Compound(Symbol, Vec<TTerm>),
    Neg(Box<TTerm>),
    Arith(ArithOp, Box<TTerm>, Box<TTerm>),
}

/// A body goal template.
#[derive(Debug)]
pub enum TGoal {
    Call(TTerm),
    Eq(TTerm, TTerm),
    Dif(TTerm, TTerm),
    Rel(RelOp, TTerm, TTerm),
}

/// A compiled clause: head, body, and the number of distinct variables.
#[derive(Debug)]
pub struct TClause {
    pub head: TTerm,
    pub body: Vec<TGoal>,
    pub nvars: usize,
}

/// A compiled query: its goals, its variable names in order of first
/// occurrence, and its source rendering.
#[derive(Debug)]
pub struct Query {
    pub goals: Vec<TGoal>,
    pub var_names: Vec<String>,
    text: String,
}

impl Query {
    pub closed spec fn text_spec(&self) -> Seq<char> {
        self.text@
    }

    /// The goal templates, as held.
    pub closed spec fn goals_spec(&self) -> Vec<TGoal> {
        self.goals
    }

    /// The variable names, as held.
    pub closed spec fn var_names_spec(&self) -> Vec<String> {
        self.var_names
    }

    /// The goal templates.
    pub(crate) fn goals(&self) -> (g: &Vec<TGoal>)
        ensures
            *g == self.goals_spec(),
    {
        &self.goals
    }

    /// The variable names, in order of first occurrence.
    pub(crate) fn var_names(&self) -> (v: &Vec<String>)
        ensures
            *v == self.var_names_spec(),
    {
        &self.var_names
    }

    /// The query as written (canonically re-rendered), e.g. `?- mortal(X).`
    pub fn text(&self) -> (s: &str)
        ensures
            s@ == self.text_spec(),
    {
        self.text.as_str()
    }
}

/// The renderings of the queries among `s`, in order.
pub open spec fn query_texts(s: Seq<Clause>) -> Seq<Seq<char>>
    decreases s.len(),
{
    if s.len() == 0 {
        Seq::empty()
    } else {
        query_texts(s.drop_last()) + (if s.last() is Query {
            seq![clause_text(s.last())]
        } else {
            Seq::empty()
        })
    }
}

/// A compiled program, ready to answer queries.
#[derive(Debug)]
pub struct Program {
    pub symbols: Symbols,
    /// Predicate (functor and arity) → its clauses in program order.
    preds: Vec<(Symbol, usize, Vec<TClause>)>,
    /// Constraint facts, each with its variable count: the initial store.
    pub initial: Vec<(Vec<TGoal>, usize)>,
    queries: Vec<Query>,
}

/// Per-clause variable numbering, in order of first occurrence.
pub struct VarMap {
    names: Vec<String>,
}

impl View for VarMap {
    type V = Seq<Seq<char>>;

    closed spec fn view(&self) -> Seq<Seq<char>> {
        self.names@.map_values(|s: String| s@)
    }
}

impl VarMap {
    pub fn new() -> (m: VarMap)
        ensures
            m@ == Seq::<Seq<char>>::empty(),
    {
        let m = VarMap { names: Vec::new() };
        assert(m@ =~= Seq::<Seq<char>>::empty());
        m
    }

    /// The number of `name`: its first occurrence's, or the next one.
    pub fn get(&mut self, name: &str) -> (i: usize)
        ensures
            i < final(self)@.len(),
            final(self)@[i as int] == name@,
            forall|j: int| 0 <= j < i ==> final(self)@[j] != name@,
            old(self)@.contains(name@) ==> final(self)@ == old(self)@,
            !old(self)@.contains(name@) ==> final(self)@ == old(self)@.push(name@) && i == old(self)@.len(),
    {
        let owned = name.to_string();
        let mut i: usize = 0;
        while i < self.names.len()
            invariant
                i <= self.names@.len(),
                owned@ == name@,
                forall|j: int| 0 <= j < i ==> self@[j] != name@,
            decreases self.names@.len() - i,
        {
            if self.names[i] == owned {
                proof {
                    assert(self@[i as int] == name@);
                }
                return i;
            }
            i = i + 1;
        }
        proof {
            assert(!self@.contains(name@));
        }
        let ghost before = self@;
        self.names.push(owned);
        proof {
            assert(self@ =~= before.push(name@));
        }
        i
    }

    /// The number of distinct variables seen.
    pub fn len(&self) -> (n: usize)
        ensures
            n == self@.len(),
    {
        self.names.len()
    }

    /// The names, in numbering order.
    pub fn names(&self) -> (v: Vec<String>)
        ensures
            v@.map_values(|s: String| s@) == self@,
    {
        let mut v: Vec<String> = Vec::new();
        let mut i: usize = 0;
        while i < self.names.len()
            invariant
                i <= self.names@.len(),
                v@.len() == i,
                forall|j: int| 0 <= j < i ==> v@[j]@ == self.names@[j]@,
            decreases self.names@.len() - i,
        {
            v.push(self.names[i].clone());
            i = i + 1;
        }
        proof {
            assert(v@.map_values(|s: String| s@) =~= self@);
        }
        v
    }
}

/// `i` numbers variable `name`: its first occurrence in `vars`.
pub open spec fn numbers(vars: Seq<Seq<char>>, i: int, name: Seq<char>) -> bool {
    &&& 0 <= i < vars.len()
    &&& vars[i] == name
    &&& forall|j: int| 0 <= j < i ==> vars[j] != name
}

/// `t` is the template of `e`, its variables numbered by `vars` and its
/// names interned in `syms`.
pub open spec fn lowers_to(e: Expr, t: TTerm, vars: Seq<Seq<char>>, syms: Seq<Seq<char>>) -> bool
    decreases e, 0nat,
{
    match e {
        Expr::Var(v) => t matches TTerm::Var(i) && numbers(vars, i as int, v@),
        Expr::Number(n) => t matches TTerm::Number(m) && m@ == n@,
        Expr::Ident(x) => t matches TTerm::Const(c) && c.0 < syms.len() && syms[c.0 as int] == x@,
        Expr::Atom(a) => atom_lowers_to(*a, t, vars, syms),
        Expr::Neg(x) => t matches TTerm::Neg(y) && lowers_to(*x, *y, vars, syms),
        Expr::Binary { op, left, right } => t matches TTerm::Arith(o, l, r) && o == op
            && lowers_to(*left, *l, vars, syms) && lowers_to(*right, *r, vars, syms),
    }
}

/// `t` is the compound template of atom `a`.
pub open spec fn atom_lowers_to(a: ast::Atom, t: TTerm, vars: Seq<Seq<char>>, syms: Seq<Seq<char>>) -> bool
    decreases a, 1nat,
{
    &&& t matches TTerm::Compound(f, args)
    &&& f.0 < syms.len() && syms[f.0 as int] == a.name@
    &&& args@.len() == a.args@.len()
    &&& forall|j: int| 0 <= j < a.args@.len() ==> lowers_to(#[trigger] a.args@[j], args@[j], vars, syms)
}

/// An equation lowers to unification, `!=` to a disequation, the others to
/// numeric relations.
pub open spec fn constraint_lowers_to(c: ast::Constraint, g: TGoal, vars: Seq<Seq<char>>, syms: Seq<Seq<char>>) -> bool {
    match g {
        TGoal::Eq(l, r) => c.op == RelOp::Eq && lowers_to(c.left, l, vars, syms) && lowers_to(c.right, r, vars, syms),
        TGoal::Dif(l, r) => c.op == RelOp::Neq && lowers_to(c.left, l, vars, syms) && lowers_to(c.right, r, vars, syms),
        TGoal::Rel(op, l, r) => op == c.op && op != RelOp::Eq && op != RelOp::Neq
            && lowers_to(c.left, l, vars, syms) && lowers_to(c.right, r, vars, syms),
        TGoal::Call(_) => false,
    }
}

/// `out` is the goals of block `ce`, one per constraint.
pub open spec fn block_lowers_to(ce: ast::ConstraintExpr, out: Seq<TGoal>, vars: Seq<Seq<char>>, syms: Seq<Seq<char>>) -> bool {
    &&& out.len() == ce.terms@.len()
    &&& forall|k: int| 0 <= k < out.len() ==> constraint_lowers_to(#[trigger] ce.terms@[k], out[k], vars, syms)
}

/// How many goals a body goal lowers to.
pub open spec fn goal_size(g: Goal) -> nat {
    match g {
        Goal::Atom(_) => 1,
        Goal::Constraint(ce) => ce.terms@.len(),
    }
}

/// `out` is a body's goals: a call per atom, a goal per constraint of a
/// block, in order.
pub open spec fn body_lowers_to(goals: Seq<Goal>, out: Seq<TGoal>, vars: Seq<Seq<char>>, syms: Seq<Seq<char>>) -> bool
    decreases goals.len(),
{
    if goals.len() == 0 {
        out.len() == 0
    } else {
        let n = goal_size(goals.last());
        &&& out.len() >= n
        &&& body_lowers_to(goals.drop_last(), out.take(out.len() - n), vars, syms)
        &&& match goals.last() {
            Goal::Atom(a) => out.last() matches TGoal::Call(t) && atom_lowers_to(a, t, vars, syms),
            Goal::Constraint(ce) => block_lowers_to(ce, out.skip(out.len() - n), vars, syms),
        }
    }
}

/// Lowering holds on: numbering and interning only add names.
proof fn lemma_lowers_mono(e: Expr, t: TTerm, v1: Seq<Seq<char>>, s1: Seq<Seq<char>>, v2: Seq<Seq<char>>, s2: Seq<Seq<char>>)
    requires
        lowers_to(e, t, v1, s1),
        v1.is_prefix_of(v2),
        s1.is_prefix_of(s2),
    ensures
        lowers_to(e, t, v2, s2),
    decreases e, 0nat,
{
    match e {
        Expr::Atom(a) => {
            lemma_atom_lowers_mono(*a, t, v1, s1, v2, s2);
        },
        Expr::Neg(x) => {
            if let TTerm::Neg(y) = t {
                lemma_lowers_mono(*x, *y, v1, s1, v2, s2);
            }
        },
        Expr::Binary { op, left, right } => {
            if let TTerm::Arith(o, l, r) = t {
                lemma_lowers_mono(*left, *l, v1, s1, v2, s2);
                lemma_lowers_mono(*right, *r, v1, s1, v2, s2);
            }
        },
        Expr::Var(v) => {
            if let TTerm::Var(i) = t {
                assert(v2[i as int] == v1[i as int]);
                assert forall|j: int| 0 <= j < i implies v2[j] != v@ by {
                    assert(v2[j] == v1[j]);
                }
            }
        },
        Expr::Ident(x) => {
            if let TTerm::Const(c) = t {
                assert(s2[c.0 as int] == s1[c.0 as int]);
            }
        },
        Expr::Number(_) => {},
    }
}

proof fn lemma_atom_lowers_mono(a: ast::Atom, t: TTerm, v1: Seq<Seq<char>>, s1: Seq<Seq<char>>, v2: Seq<Seq<char>>, s2: Seq<Seq<char>>)
    requires
        atom_lowers_to(a, t, v1, s1),
        v1.is_prefix_of(v2),
        s1.is_prefix_of(s2),
    ensures
        atom_lowers_to(a, t, v2, s2),
    decreases a, 1nat,
{
    if let TTerm::Compound(f, args) = t {
        assert(s2[f.0 as int] == s1[f.0 as int]);
        assert forall|j: int| 0 <= j < a.args@.len() implies lowers_to(#[trigger] a.args@[j], args@[j], v2, s2) by {
            lemma_lowers_mono(a.args@[j], args@[j], v1, s1, v2, s2);
        }
    }
}

proof fn lemma_constraint_lowers_mono(c: ast::Constraint, g: TGoal, v1: Seq<Seq<char>>, s1: Seq<Seq<char>>, v2: Seq<Seq<char>>, s2: Seq<Seq<char>>)
    requires
        constraint_lowers_to(c, g, v1, s1),
        v1.is_prefix_of(v2),
        s1.is_prefix_of(s2),
    ensures
        constraint_lowers_to(c, g, v2, s2),
{
    match g {
        TGoal::Eq(l, r) => {
            lemma_lowers_mono(c.left, l, v1, s1, v2, s2);
            lemma_lowers_mono(c.right, r, v1, s1, v2, s2);
        },
        TGoal::Dif(l, r) => {
            lemma_lowers_mono(c.left, l, v1, s1, v2, s2);
            lemma_lowers_mono(c.right, r, v1, s1, v2, s2);
        },
        TGoal::Rel(_, l, r) => {
            lemma_lowers_mono(c.left, l, v1, s1, v2, s2);
            lemma_lowers_mono(c.right, r, v1, s1, v2, s2);
        },
        TGoal::Call(_) => {},
    }
}

fn lower_term(symbols: &mut Symbols, vars: &mut VarMap, e: &Expr) -> (t: TTerm)
    ensures
        old(vars)@.is_prefix_of(final(vars)@),
        old(symbols)@.is_prefix_of(final(symbols)@),
        lowers_to(*e, t, final(vars)@, final(symbols)@),
    decreases e, 0nat,
{
    match e {
        Expr::Var(v) => TTerm::Var(vars.get(v.as_str())),
        Expr::Number(n) => TTerm::Number(n.copy()),
        Expr::Ident(i) => TTerm::Const(symbols.intern(i.as_str())),
        Expr::Atom(a) => lower_atom(symbols, vars, a),
        Expr::Neg(x) => TTerm::Neg(Box::new(lower_term(symbols, vars, x))),
        Expr::Binary { op, left, right } => {
            let ghost v0 = vars@;
            let ghost s0 = symbols@;
            let l = lower_term(symbols, vars, left);
            let ghost v1 = vars@;
            let ghost s1 = symbols@;
            let r = lower_term(symbols, vars, right);
            proof {
                lemma_lowers_mono(**left, l, v1, s1, vars@, symbols@);
            }
            TTerm::Arith(*op, Box::new(l), Box::new(r))
        },
    }
}

fn lower_atom(symbols: &mut Symbols, vars: &mut VarMap, a: &ast::Atom) -> (t: TTerm)
    ensures
        t is Compound,
        old(vars)@.is_prefix_of(final(vars)@),
        old(symbols)@.is_prefix_of(final(symbols)@),
        atom_lowers_to(*a, t, final(vars)@, final(symbols)@),
    decreases a, 1nat,
{
    let f = symbols.intern(a.name.as_str());
    let mut args: Vec<TTerm> = Vec::new();
    let mut i: usize = 0;
    while i < a.args.len()
        invariant
            i <= a.args@.len(),
            args@.len() == i,
            old(vars)@.is_prefix_of(vars@),
            old(symbols)@.is_prefix_of(symbols@),
            f.0 < symbols@.len(),
            symbols@[f.0 as int] == a.name@,
            forall|j: int| 0 <= j < i ==> lowers_to(#[trigger] a.args@[j], args@[j], vars@, symbols@),
        decreases a.args@.len() - i,
    {
        let ghost v0 = vars@;
        let ghost s0 = symbols@;
        let t = lower_term(symbols, vars, &a.args[i]);
        proof {
            assert forall|j: int| 0 <= j < i implies lowers_to(#[trigger] a.args@[j], args@[j], vars@, symbols@) by {
                lemma_lowers_mono(a.args@[j], args@[j], v0, s0, vars@, symbols@);
            }
        }
        args.push(t);
        i = i + 1;
    }
    TTerm::Compound(f, args)
}

fn lower_constraint(symbols: &mut Symbols, vars: &mut VarMap, c: &ast::Constraint) -> (g: TGoal)
    ensures
        old(vars)@.is_prefix_of(final(vars)@),
        old(symbols)@.is_prefix_of(final(symbols)@),
        constraint_lowers_to(*c, g, final(vars)@, final(symbols)@),
{
    let l = lower_term(symbols, vars, &c.left);
    let ghost v1 = vars@;
    let ghost s1 = symbols@;
    let r = lower_term(symbols, vars, &c.right);
    proof {
        lemma_lowers_mono(c.left, l, v1, s1, vars@, symbols@);
    }
    match c.op {
        RelOp::Eq => TGoal::Eq(l, r),
        RelOp::Neq => TGoal::Dif(l, r),
        op => TGoal::Rel(op, l, r),
    }
}

fn lower_block(symbols: &mut Symbols, vars: &mut VarMap, ce: &ast::ConstraintExpr, out: &mut Vec<TGoal>)
    ensures
        old(vars)@.is_prefix_of(final(vars)@),
        old(symbols)@.is_prefix_of(final(symbols)@),
        final(out)@.len() == old(out)@.len() + ce.terms@.len(),
        final(out)@.take(old(out)@.len() as int) == old(out)@,
        block_lowers_to(*ce, final(out)@.skip(old(out)@.len() as int), final(vars)@, final(symbols)@),
{
    let ghost start = out@.len();
    let mut i: usize = 0;
    while i < ce.terms.len()
        invariant
            i <= ce.terms@.len(),
            start == old(out)@.len(),
            out@.len() == start + i,
            out@.take(start as int) == old(out)@,
            old(vars)@.is_prefix_of(vars@),
            old(symbols)@.is_prefix_of(symbols@),
            forall|k: int| 0 <= k < i ==> constraint_lowers_to(#[trigger] ce.terms@[k], out@[start + k], vars@, symbols@),
        decreases ce.terms@.len() - i,
    {
        let ghost v0 = vars@;
        let ghost s0 = symbols@;
        let ghost o0 = out@;
        let g = lower_constraint(symbols, vars, &ce.terms[i]);
        proof {
            assert forall|k: int| 0 <= k < i implies constraint_lowers_to(#[trigger] ce.terms@[k], out@[start + k], vars@, symbols@) by {
                lemma_constraint_lowers_mono(ce.terms@[k], out@[start + k], v0, s0, vars@, symbols@);
            }
        }
        out.push(g);
        proof {
            assert(out@.take(start as int) =~= o0.take(start as int));
            assert forall|k: int| 0 <= k < i + 1 implies constraint_lowers_to(#[trigger] ce.terms@[k], out@[start + k], vars@, symbols@) by {
                if k < i {
                    assert(out@[start + k] == o0[start + k]);
                }
            }
        }
        i = i + 1;
    }
    proof {
        let tail = out@.skip(start as int);
        assert forall|k: int| 0 <= k < tail.len() implies constraint_lowers_to(#[trigger] ce.terms@[k], tail[k], vars@, symbols@) by {
            assert(tail[k] == out@[start + k]);
        }
    }
}

fn lower_body(symbols: &mut Symbols, vars: &mut VarMap, goals: &Vec<Goal>) -> (out: Vec<TGoal>)
    ensures
        old(vars)@.is_prefix_of(final(vars)@),
        old(symbols)@.is_prefix_of(final(symbols)@),
        body_lowers_to(goals@, out@, final(vars)@, final(symbols)@),
{
    let mut out: Vec<TGoal> = Vec::new();
    let mut i: usize = 0;
    proof {
        assert(goals@.take(0) =~= Seq::<Goal>::empty());
    }
    while i < goals.len()
        invariant
            i <= goals@.len(),
            old(vars)@.is_prefix_of(vars@),
            old(symbols)@.is_prefix_of(symbols@),
            body_lowers_to(goals@.take(i as int), out@, vars@, symbols@),
        decreases goals@.len() - i,
    {
        let ghost v0 = vars@;
        let ghost s0 = symbols@;
        let ghost o0 = out@;
        match &goals[i] {
            Goal::Atom(a) => out.push(TGoal::Call(lower_atom(symbols, vars, a))),
            Goal::Constraint(ce) => lower_block(symbols, vars, ce, &mut out),
        }
        proof {
            lemma_body_lowers_mono(goals@.take(i as int), o0, v0, s0, vars@, symbols@);
            let g = goals@.take(i + 1);
            assert(g.drop_last() =~= goals@.take(i as int));
            assert(g.last() == goals@[i as int]);
            let n = goal_size(g.last());
            assert(out@.take(out@.len() - n) =~= o0);
        }
        i = i + 1;
    }
    proof {
        assert(goals@.take(goals@.len() as int) =~= goals@);
    }
    out
}

proof fn lemma_body_lowers_mono(goals: Seq<Goal>, out: Seq<TGoal>, v1: Seq<Seq<char>>, s1: Seq<Seq<char>>, v2: Seq<Seq<char>>, s2: Seq<Seq<char>>)
    requires
        body_lowers_to(goals, out, v1, s1),
        v1.is_prefix_of(v2),
        s1.is_prefix_of(s2),
    ensures
        body_lowers_to(goals, out, v2, s2),
    decreases goals.len(),
{
    if goals.len() > 0 {
        let n = goal_size(goals.last());
        lemma_body_lowers_mono(goals.drop_last(), out.take(out.len() - n), v1, s1, v2, s2);
        match goals.last() {
            Goal::Atom(a) => {
                if let TGoal::Call(t) = out.last() {
                    lemma_atom_lowers_mono(a, t, v1, s1, v2, s2);
                }
            },
            Goal::Constraint(ce) => {
                let tail = out.skip(out.len() - n);
                assert forall|k: int| 0 <= k < tail.len() implies constraint_lowers_to(#[trigger] ce.terms@[k], tail[k], v2, s2) by {
                    lemma_constraint_lowers_mono(ce.terms@[k], tail[k], v1, s1, v2, s2);
                }
            },
        }
    }
}

/// A template without arithmetic whose variables are numbered below `n`.
pub open spec fn plain_term(t: TTerm, n: nat) -> bool
    decreases t,
{
    match t {
        TTerm::Var(i) => i < n,
        TTerm::Number(_) => true,
        TTerm::Const(_) => true,
        TTerm::Compound(_, args) => forall|k: int| 0 <= k < args@.len() ==> plain_term(#[trigger] args@[k], n),
        TTerm::Neg(_) => false,
        TTerm::Arith(..) => false,
    }
}

/// A goal template without arithmetic whose variables are numbered below `n`.
pub open spec fn plain_goal(g: TGoal, n: nat) -> bool {
    match g {
        TGoal::Call(t) => plain_term(t, n),
        TGoal::Eq(a, b) => plain_term(a, n) && plain_term(b, n),
        TGoal::Dif(a, b) => plain_term(a, n) && plain_term(b, n),
        TGoal::Rel(_, a, b) => plain_term(a, n) && plain_term(b, n),
    }
}

/// Variables already given an address keep it.
pub open spec fn vars_kept(later: Seq<Option<Addr>>, earlier: Seq<Option<Addr>>) -> bool {
    &&& later.len() == earlier.len()
    &&& forall|i: int| 0 <= i < earlier.len() && (#[trigger] earlier[i]) is Some ==> later[i] == earlier[i]
}

/// Instantiate a template on the heap, allocating fresh variables on first
/// use (structure copying) and posting arithmetic. `None` if posting fails.
pub(crate) fn build(store: &mut Store, t: &TTerm, vars: &mut Vec<Option<Addr>>) -> (r: Option<Addr>)
    requires
        old(store).wf(),
    ensures
        final(store).evolves(&*old(store)),
        vars_kept(final(vars)@, old(vars)@),
        plain_term(*t, old(vars)@.len()) ==> r is Some,
        *t matches TTerm::Var(i) ==> (i < old(vars)@.len() && old(vars)@[i as int] is Some ==> r == old(vars)@[i as int]),
        *t matches TTerm::Const(c) ==> r matches Some(x) && x == old(store).heap_len()
            && final(store).cell_at(x as int) == Cell::Const(c)
            && final(store).heap_len() == old(store).heap_len() + 1
            && final(store).slots().drop_last() == old(store).slots()
            && (old(store).quiescent() ==> final(store).quiescent()),
    decreases *t, 1nat,
{
    match t {
        TTerm::Var(i) => {
            if *i >= vars.len() {
                return None;
            }
            match vars[*i] {
                Some(a) => Some(a),
                None => {
                    let a = store.new_var();
                    vars.set(*i, Some(a));
                    Some(a)
                },
            }
        },
        TTerm::Number(n) => Some(store.new_num(n.copy())),
        TTerm::Const(c) => Some(store.new_const(*c)),
        TTerm::Compound(f, args) => {
            let addrs = build_args(store, args, vars)?;
            Some(store.new_struct(*f, addrs))
        },
        TTerm::Neg(x) => {
            let a = build(store, x, vars)?;
            store.post_neg(a)
        },
        TTerm::Arith(op, l, r) => {
            let a = build(store, l, vars)?;
            let b = build(store, r, vars)?;
            store.post_arith(*op, a, b)
        },
    }
}

/// A goal `c1 != c2` between two different constants.
pub open spec fn distinct_constants_dif(g: TGoal) -> bool {
    g matches TGoal::Dif(TTerm::Const(x), TTerm::Const(y)) && x != y
}

/// Every constraint fact of `p` is made of disequations between different
/// constants.
pub open spec fn initial_trivial(p: Program) -> bool {
    forall|i: int, j: int| 0 <= i < p.initial_spec().len() && 0 <= j < p.initial_spec()[i].0@.len()
        ==> distinct_constants_dif(#[trigger] p.initial_spec()[i].0@[j])
}

/// Instantiate each argument template in order.
fn build_args(store: &mut Store, args: &Vec<TTerm>, vars: &mut Vec<Option<Addr>>) -> (r: Option<Vec<Addr>>)
    requires
        old(store).wf(),
    ensures
        final(store).evolves(&*old(store)),
        vars_kept(final(vars)@, old(vars)@),
        (forall|k: int| 0 <= k < args@.len() ==> plain_term(#[trigger] args@[k], old(vars)@.len()))
            ==> (r matches Some(v) && v@.len() == args@.len()),
        r matches Some(v) ==> v@.len() == args@.len(),
    decreases *args, 0nat,
{
    let mut addrs: Vec<Addr> = Vec::new();
    let mut i: usize = 0;
    while i < args.len()
        invariant
            i <= args@.len(),
            store.evolves(&*old(store)),
            vars_kept(vars@, old(vars)@),
            addrs@.len() == i,
        decreases args@.len() - i,
    {
        match build(store, &args[i], vars) {
            Some(a) => addrs.push(a),
            None => {
                return None;
            },
        }
        i = i + 1;
    }
    Some(addrs)
}

/// The predicate a clause defines, by name and arity (none for constraint
/// facts and queries).
pub open spec fn head_of(c: Clause) -> Option<(Seq<char>, nat)> {
    match c {
        Clause::Fact(a) => Some((a.name@, a.args@.len())),
        Clause::Rule { head, .. } => Some((head.name@, head.args@.len())),
        Clause::ConstraintRule { head, .. } => Some((head.name@, head.args@.len())),
        Clause::Implication { head, .. } => Some((head.name@, head.args@.len())),
        _ => None,
    }
}

/// `tc` is the template of clause `c` with its variables numbered by
/// `vars`: a fact has no body; `{c} => h` is `h :- {c}`.
pub open spec fn lowered_with(c: Clause, tc: TClause, vars: Seq<Seq<char>>, syms: Seq<Seq<char>>) -> bool {
    &&& vars.len() == tc.nvars
    &&& match c {
        Clause::Fact(a) => atom_lowers_to(a, tc.head, vars, syms) && tc.body@.len() == 0,
        Clause::Rule { head, body } => atom_lowers_to(head, tc.head, vars, syms)
            && body_lowers_to(body@, tc.body@, vars, syms),
        Clause::ConstraintRule { head, body } => atom_lowers_to(head, tc.head, vars, syms)
            && body_lowers_to(body@, tc.body@, vars, syms),
        Clause::Implication { constraint, head } => atom_lowers_to(head, tc.head, vars, syms)
            && block_lowers_to(constraint, tc.body@, vars, syms),
        _ => false,
    }
}

/// `tc` is the template of clause `c`, up to the numbering of its
/// variables.
pub open spec fn clause_lowers_to(c: Clause, tc: TClause, syms: Seq<Seq<char>>) -> bool {
    exists|vars: Seq<Seq<char>>| #[trigger] lowered_with(c, tc, vars, syms)
}

/// `g` is the initial-store entry of constraint fact `c`.
pub open spec fn fact_lowers_to(c: Clause, g: (Vec<TGoal>, usize), syms: Seq<Seq<char>>) -> bool {
    &&& c matches Clause::ConstraintFact(ce)
    &&& exists|vars: Seq<Seq<char>>| vars.len() == g.1 && #[trigger] block_lowers_to(ce, g.0@, vars, syms)
}

/// `q` is the compiled query `c`: its goals with variables numbered by its
/// variable names.
pub closed spec fn query_lowers_to(c: Clause, q: Query, syms: Seq<Seq<char>>) -> bool {
    &&& c matches Clause::Query(body)
    &&& body_lowers_to(body@, q.goals@, q.var_names@.map_values(|s: String| s@), syms)
}

/// The clauses defining `name`/`arity`, in order.
pub open spec fn defining(cs: Seq<Clause>, name: Seq<char>, arity: nat) -> Seq<Clause> {
    cs.filter(|c: Clause| head_of(c) == Some((name, arity)))
}

pub open spec fn constraint_facts(cs: Seq<Clause>) -> Seq<Clause> {
    cs.filter(|c: Clause| c is ConstraintFact)
}

pub open spec fn query_clauses(cs: Seq<Clause>) -> Seq<Clause> {
    cs.filter(|c: Clause| c is Query)
}

/// Lowering holds on as names are interned.
proof fn lemma_clause_lowers_mono(c: Clause, tc: TClause, s1: Seq<Seq<char>>, s2: Seq<Seq<char>>)
    requires
        clause_lowers_to(c, tc, s1),
        s1.is_prefix_of(s2),
    ensures
        clause_lowers_to(c, tc, s2),
{
    let vars = choose|vars: Seq<Seq<char>>| #[trigger] lowered_with(c, tc, vars, s1);
    assert(vars.is_prefix_of(vars));
    match c {
        Clause::Fact(a) => {
            lemma_atom_lowers_mono(a, tc.head, vars, s1, vars, s2);
        },
        Clause::Rule { head, body } => {
            lemma_atom_lowers_mono(head, tc.head, vars, s1, vars, s2);
            lemma_body_lowers_mono(body@, tc.body@, vars, s1, vars, s2);
        },
        Clause::ConstraintRule { head, body } => {
            lemma_atom_lowers_mono(head, tc.head, vars, s1, vars, s2);
            lemma_body_lowers_mono(body@, tc.body@, vars, s1, vars, s2);
        },
        Clause::Implication { constraint, head } => {
            lemma_atom_lowers_mono(head, tc.head, vars, s1, vars, s2);
            lemma_block_lowers_mono(constraint, tc.body@, vars, s1, vars, s2);
        },
        _ => {},
    }
    assert(lowered_with(c, tc, vars, s2));
}

proof fn lemma_block_lowers_mono(ce: ast::ConstraintExpr, out: Seq<TGoal>, v1: Seq<Seq<char>>, s1: Seq<Seq<char>>, v2: Seq<Seq<char>>, s2: Seq<Seq<char>>)
    requires
        block_lowers_to(ce, out, v1, s1),
        v1.is_prefix_of(v2),
        s1.is_prefix_of(s2),
    ensures
        block_lowers_to(ce, out, v2, s2),
{
    assert forall|k: int| 0 <= k < out.len() implies constraint_lowers_to(#[trigger] ce.terms@[k], out[k], v2, s2) by {
        lemma_constraint_lowers_mono(ce.terms@[k], out[k], v1, s1, v2, s2);
    }
}

proof fn lemma_fact_lowers_mono(c: Clause, g: (Vec<TGoal>, usize), s1: Seq<Seq<char>>, s2: Seq<Seq<char>>)
    requires
        fact_lowers_to(c, g, s1),
        s1.is_prefix_of(s2),
    ensures
        fact_lowers_to(c, g, s2),
{
    if let Clause::ConstraintFact(ce) = c {
        let vars = choose|vars: Seq<Seq<char>>| vars.len() == g.1 && #[trigger] block_lowers_to(ce, g.0@, vars, s1);
        assert(vars.is_prefix_of(vars));
        lemma_block_lowers_mono(ce, g.0@, vars, s1, vars, s2);
    }
}

proof fn lemma_query_lowers_mono(c: Clause, q: Query, s1: Seq<Seq<char>>, s2: Seq<Seq<char>>)
    requires
        query_lowers_to(c, q, s1),
        s1.is_prefix_of(s2),
    ensures
        query_lowers_to(c, q, s2),
{
    if let Clause::Query(body) = c {
        let vars = q.var_names@.map_values(|s: String| s@);
        assert(vars.is_prefix_of(vars));
        lemma_body_lowers_mono(body@, q.goals@, vars, s1, vars, s2);
    }
}

/// Interning more names changes no predicate's clauses.
proof fn lemma_grow_symbols(p0: Program, p1: Program)
    requires
        p0.inv(),
        p1.preds == p0.preds,
        p0.symbols@.is_prefix_of(p1.symbols@),
        distinct_names(p1.symbols@),
    ensures
        p1.inv(),
        forall|n: Seq<char>, a: nat| #[trigger] p1.clauses_for(n, a) == p0.clauses_for(n, a),
{
    assert forall|i: int, n: Seq<char>, a: nat| #[trigger] p1.keyed(i, n, a) == p0.keyed(i, n, a) by {
        if 0 <= i < p0.preds@.len() {
            let g = p0.preds@[i].0.0 as int;
            assert(p1.symbols@[g] == p0.symbols@[g]);
        }
    }
    assert forall|n: Seq<char>, a: nat| #[trigger] p1.clauses_for(n, a) == p0.clauses_for(n, a) by {
        if exists|i: int| p0.keyed(i, n, a) {
            let i = choose|i: int| p0.keyed(i, n, a);
            p0.lemma_keyed(i, n, a);
            p1.lemma_keyed(i, n, a);
        } else {
            p0.lemma_unkeyed(n, a);
            p1.lemma_unkeyed(n, a);
        }
    }
}

/// The clauses of clause-and-position pairs.
pub open spec fn first_parts(s: Seq<(Clause, Span)>) -> Seq<Clause> {
    s.map_values(|p: (Clause, Span)| p.0)
}

/// `p` holds the clauses `cs` compiled: each predicate's clauses in order,
/// the constraint facts as the initial store, the queries in order.
pub open spec fn compiles_to(cs: Seq<Clause>, p: Program) -> bool {
    &&& forall|name: Seq<char>, arity: nat| #![trigger p.clauses_for(name, arity)]
        p.clauses_for(name, arity).len() == defining(cs, name, arity).len()
        && forall|j: int| 0 <= j < defining(cs, name, arity).len() ==>
            clause_lowers_to(defining(cs, name, arity)[j], #[trigger] p.clauses_for(name, arity)[j], p.names())
    &&& p.initial_spec().len() == constraint_facts(cs).len()
    &&& forall|j: int| 0 <= j < p.initial_spec().len() ==> fact_lowers_to(constraint_facts(cs)[j], #[trigger] p.initial_spec()[j], p.names())
    &&& p.queries_spec().len() == query_clauses(cs).len()
    &&& forall|j: int| 0 <= j < p.queries_spec().len() ==> query_lowers_to(query_clauses(cs)[j], #[trigger] p.queries_spec()[j], p.names())
}

/// Filtering after one more element.
proof fn lemma_filter_push(cs: Seq<Clause>, c: Clause, f: spec_fn(Clause) -> bool)
    ensures
        cs.push(c).filter(f) == (if f(c) { cs.filter(f).push(c) } else { cs.filter(f) }),
{
    reveal(Seq::filter);
    assert(cs.push(c).drop_last() =~= cs);
    assert(cs.push(c).last() == c);
}

/// Adding clause `c` to a program of `cs` gives the program of `cs` and `c`.
proof fn lemma_compile_step(cs: Seq<Clause>, c: Clause, p0: Program, p1: Program)
    requires
        compiles_to(cs, p0),
        p0.symbols@.is_prefix_of(p1.symbols@),
        head_of(c) matches Some((name, arity)) ==> {
            let before = p0.clauses_for(name, arity);
            let after = p1.clauses_for(name, arity);
            &&& after.len() == before.len() + 1
            &&& after.take(before.len() as int) == before
            &&& clause_lowers_to(c, after.last(), p1.symbols@)
        },
        forall|n2: Seq<char>, a2: nat| head_of(c) != Some((n2, a2)) ==>
            #[trigger] p1.clauses_for(n2, a2) == p0.clauses_for(n2, a2),
        c is ConstraintFact ==> p1.initial@.len() == p0.initial@.len() + 1
            && p1.initial@.take(p0.initial@.len() as int) == p0.initial@
            && fact_lowers_to(c, p1.initial@.last(), p1.symbols@),
        !(c is ConstraintFact) ==> p1.initial@ == p0.initial@,
        c is Query ==> p1.queries_spec().len() == p0.queries_spec().len() + 1
            && p1.queries_spec().take(p0.queries_spec().len() as int) == p0.queries_spec()
            && query_lowers_to(c, p1.queries_spec().last(), p1.symbols@),
        !(c is Query) ==> p1.queries_spec() == p0.queries_spec(),
    ensures
        compiles_to(cs.push(c), p1),
{
    let s0 = p0.symbols@;
    let s1 = p1.symbols@;
    let cs2 = cs.push(c);
    assert forall|name: Seq<char>, arity: nat| #![trigger p1.clauses_for(name, arity)]
        p1.clauses_for(name, arity).len() == defining(cs2, name, arity).len()
        && forall|j: int| 0 <= j < defining(cs2, name, arity).len() ==>
            clause_lowers_to(defining(cs2, name, arity)[j], #[trigger] p1.clauses_for(name, arity)[j], s1) by {
        lemma_filter_push(cs, c, |x: Clause| head_of(x) == Some((name, arity)));
        let d0 = defining(cs, name, arity);
        let l0 = p0.clauses_for(name, arity);
        let l1 = p1.clauses_for(name, arity);
        assert(l0.len() == d0.len());
        assert forall|j: int| 0 <= j < d0.len() implies clause_lowers_to(d0[j], l1[j], s1) by {
            assert(clause_lowers_to(d0[j], l0[j], s0));
            if head_of(c) == Some((name, arity)) {
                assert(l1[j] == l1.take(l0.len() as int)[j]);
            }
            lemma_clause_lowers_mono(d0[j], l0[j], s0, s1);
        }
    }
    lemma_filter_push(cs, c, |x: Clause| x is ConstraintFact);
    assert forall|j: int| 0 <= j < p1.initial@.len() implies fact_lowers_to(constraint_facts(cs2)[j], #[trigger] p1.initial@[j], s1) by {
        if j < p0.initial@.len() {
            assert(fact_lowers_to(constraint_facts(cs)[j], p0.initial@[j], s0));
            if c is ConstraintFact {
                assert(p1.initial@[j] == p1.initial@.take(p0.initial@.len() as int)[j]);
            }
            lemma_fact_lowers_mono(constraint_facts(cs)[j], p0.initial@[j], s0, s1);
        }
    }
    lemma_filter_push(cs, c, |x: Clause| x is Query);
    assert forall|j: int| 0 <= j < p1.queries_spec().len() implies query_lowers_to(query_clauses(cs2)[j], #[trigger] p1.queries_spec()[j], s1) by {
        if j < p0.queries_spec().len() {
            assert(query_lowers_to(query_clauses(cs)[j], p0.queries_spec()[j], s0));
            if c is Query {
                assert(p1.queries_spec()[j] == p1.queries_spec().take(p0.queries_spec().len() as int)[j]);
            }
            lemma_query_lowers_mono(query_clauses(cs)[j], p0.queries_spec()[j], s0, s1);
        }
    }
}

fn head_key(t: &TTerm) -> (r: (Symbol, usize))
    ensures
        t matches TTerm::Compound(f, args) ==> r.0 == f && r.1 == args@.len(),
{
    match t {
        TTerm::Compound(f, args) => (*f, args.len()),
        TTerm::Const(c) => (*c, 0),
        _ => (Symbol(0), 0),
    }
}

fn empty_vars(n: usize) -> (v: Vec<Option<Addr>>)
    ensures
        v@.len() == n,
{
    let mut v: Vec<Option<Addr>> = Vec::new();
    let mut i: usize = 0;
    while i < n
        invariant
            i <= n,
            v@.len() == i,
        decreases n - i,
    {
        v.push(None);
        i = i + 1;
    }
    v
}

impl Program {
    /// Each predicate has one entry, named in the symbol table, whose names
    /// are distinct.
    pub closed spec fn inv(&self) -> bool {
        &&& distinct_names(self.symbols@)
        &&& forall|i: int| 0 <= i < self.preds@.len() ==> (#[trigger] self.preds@[i]).0.0 < self.symbols@.len()
        &&& forall|i: int, j: int| 0 <= i < j < self.preds@.len() ==>
            !((#[trigger] self.preds@[i]).0 == (#[trigger] self.preds@[j]).0 && self.preds@[i].1 == self.preds@[j].1)
    }

    /// Entry `i` is predicate `name`/`arity`.
    spec fn keyed(&self, i: int, name: Seq<char>, arity: nat) -> bool {
        &&& 0 <= i < self.preds@.len()
        &&& self.preds@[i].0.0 < self.symbols@.len()
        &&& self.symbols@[self.preds@[i].0.0 as int] == name
        &&& self.preds@[i].1 == arity
    }

    /// The clauses defining predicate `name`/`arity`, in program order.
    pub closed spec fn clauses_for(&self, name: Seq<char>, arity: nat) -> Seq<TClause> {
        if exists|i: int| self.keyed(i, name, arity) {
            self.preds@[choose|i: int| self.keyed(i, name, arity)].2@
        } else {
            Seq::empty()
        }
    }

    proof fn lemma_keyed(&self, i: int, name: Seq<char>, arity: nat)
        requires
            self.inv(),
            self.keyed(i, name, arity),
        ensures
            self.clauses_for(name, arity) == self.preds@[i].2@,
    {
        let j = choose|j: int| self.keyed(j, name, arity);
        assert(self.keyed(j, name, arity));
        if j != i {
            assert(self.preds@[i].0 == self.preds@[j].0);
            if i < j {
                assert(!(self.preds@[i].0 == self.preds@[j].0 && self.preds@[i].1 == self.preds@[j].1));
            } else {
                assert(!(self.preds@[j].0 == self.preds@[i].0 && self.preds@[j].1 == self.preds@[i].1));
            }
        }
    }

    proof fn lemma_unkeyed(&self, name: Seq<char>, arity: nat)
        requires
            forall|i: int| !self.keyed(i, name, arity),
        ensures
            self.clauses_for(name, arity) == Seq::<TClause>::empty(),
    {
    }

    /// Append a clause to its predicate's list, creating the list on first
    /// use.
    fn push_clause(&mut self, clause: TClause)
        requires
            old(self).inv(),
            clause.head matches TTerm::Compound(f, _) && f.0 < old(self).symbols@.len(),
        ensures
            final(self).inv(),
            final(self).queries == old(self).queries,
            final(self).initial == old(self).initial,
            final(self).symbols == old(self).symbols,
            clause.head matches TTerm::Compound(f, args) ==> {
                let name = old(self).symbols@[f.0 as int];
                &&& final(self).clauses_for(name, args@.len()) == old(self).clauses_for(name, args@.len()).push(clause)
                &&& forall|n2: Seq<char>, a2: nat| !(n2 == name && a2 == args@.len()) ==>
                    #[trigger] final(self).clauses_for(n2, a2) == old(self).clauses_for(n2, a2)
            },
    {
        let (f, n) = head_key(&clause.head);
        let ghost name = self.symbols@[f.0 as int];
        let ghost before = *self;
        let mut i: usize = 0;
        while i < self.preds.len()
            invariant
                i <= self.preds@.len(),
                *self == before,
                before.inv(),
                before == *old(self),
                f.0 < before.symbols@.len(),
                name == before.symbols@[f.0 as int],
                clause.head matches TTerm::Compound(g, args) && g == f && args@.len() == n,
                forall|k: int| 0 <= k < i ==> !((#[trigger] self.preds@[k]).0 == f && self.preds@[k].1 == n),
            decreases self.preds@.len() - i,
        {
            if self.preds[i].0 == f && self.preds[i].1 == n {
                proof {
                    before.lemma_keyed(i as int, name, n as nat);
                }
                let (g, m, mut list) = self.preds.swap_remove(i);
                list.push(clause);
                self.preds.push((g, m, list));
                proof {
                    let last = before.preds@.len() - 1;
                    let nl = self.preds@.len();
                    assert(nl == before.preds@.len());
                    // Where each entry came from.
                    let from = |a: int| if a == nl - 1 { i as int } else if a == i { last } else { a };
                    assert forall|a: int| 0 <= a < nl implies
                        (#[trigger] self.preds@[a]).0 == before.preds@[from(a)].0 && self.preds@[a].1 == before.preds@[from(a)].1
                        && 0 <= from(a) < nl by {
                        if a == nl - 1 {
                        } else if a == i {
                        } else {
                        }
                    }
                    assert forall|a: int, b: int| 0 <= a < b < nl implies
                        !((#[trigger] self.preds@[a]).0 == (#[trigger] self.preds@[b]).0 && self.preds@[a].1 == self.preds@[b].1) by {
                        let oa = from(a);
                        let ob = from(b);
                        assert(oa != ob);
                        if oa < ob {
                            assert(!(before.preds@[oa].0 == before.preds@[ob].0 && before.preds@[oa].1 == before.preds@[ob].1));
                        } else {
                            assert(!(before.preds@[ob].0 == before.preds@[oa].0 && before.preds@[ob].1 == before.preds@[oa].1));
                        }
                    }
                    assert(self.keyed(self.preds@.len() - 1, name, n as nat));
                    self.lemma_keyed(self.preds@.len() - 1, name, n as nat);
                    assert forall|n2: Seq<char>, a2: nat| !(n2 == name && a2 == n) implies
                        #[trigger] self.clauses_for(n2, a2) == before.clauses_for(n2, a2) by {
                        if exists|k: int| before.keyed(k, n2, a2) {
                            let k = choose|k: int| before.keyed(k, n2, a2);
                            before.lemma_keyed(k, n2, a2);
                            let nk = if k == last { i as int } else { k };
                            assert(k != i);
                            assert(self.keyed(nk, n2, a2));
                            self.lemma_keyed(nk, n2, a2);
                        } else {
                            assert forall|k: int| !self.keyed(k, n2, a2) by {
                                if self.keyed(k, n2, a2) {
                                    if k == self.preds@.len() - 1 {
                                    } else if k == i {
                                        assert(before.keyed(last, n2, a2));
                                    } else {
                                        assert(before.keyed(k, n2, a2));
                                    }
                                }
                            }
                            self.lemma_unkeyed(n2, a2);
                            before.lemma_unkeyed(n2, a2);
                        }
                    }
                }
                return;
            }
            i = i + 1;
        }
        let mut list: Vec<TClause> = Vec::new();
        list.push(clause);
        self.preds.push((f, n, list));
        proof {
            let last = self.preds@.len() - 1;
            assert forall|k: int| 0 <= k < before.preds@.len() implies #[trigger] self.preds@[k] == before.preds@[k] by {}
            assert(self.keyed(last, name, n as nat));
            self.lemma_keyed(last, name, n as nat);
            assert forall|k: int| !before.keyed(k, name, n as nat) by {
                if before.keyed(k, name, n as nat) {
                    let g = before.preds@[k].0;
                    if g.0 != f.0 {
                        assert(before.symbols@[g.0 as int] == before.symbols@[f.0 as int]);
                        if g.0 < f.0 {
                            assert(before.symbols@[g.0 as int] != before.symbols@[f.0 as int]);
                        } else {
                            assert(before.symbols@[f.0 as int] != before.symbols@[g.0 as int]);
                        }
                    }
                    assert(before.preds@[k].0 == f && before.preds@[k].1 == n);
                }
            }
            before.lemma_unkeyed(name, n as nat);
            assert(self.clauses_for(name, n as nat) =~= before.clauses_for(name, n as nat).push(clause));
            assert forall|n2: Seq<char>, a2: nat| !(n2 == name && a2 == n) implies
                #[trigger] self.clauses_for(n2, a2) == before.clauses_for(n2, a2) by {
                if exists|k: int| before.keyed(k, n2, a2) {
                    let k = choose|k: int| before.keyed(k, n2, a2);
                    before.lemma_keyed(k, n2, a2);
                    assert(self.keyed(k, n2, a2));
                    self.lemma_keyed(k, n2, a2);
                } else {
                    assert forall|k: int| !self.keyed(k, n2, a2) by {
                        if self.keyed(k, n2, a2) && k < last {
                            assert(before.keyed(k, n2, a2));
                        }
                    }
                    self.lemma_unkeyed(n2, a2);
                    before.lemma_unkeyed(n2, a2);
                }
            }
        }
    }

    /// The compiled queries, in order.
    pub closed spec fn queries_spec(&self) -> Seq<Query> {
        self.queries@
    }

    /// The interned names.
    pub closed spec fn names(&self) -> Seq<Seq<char>> {
        self.symbols@
    }

    /// The initial store's constraint facts, each with its variable count.
    pub closed spec fn initial_spec(&self) -> Seq<(Vec<TGoal>, usize)> {
        self.initial@
    }

    /// The program of no clauses, before any is added.
    fn blank() -> (p: Program)
        ensures
            p.inv(),
            compiles_to(Seq::empty(), p),
            p.query_texts_spec() == Seq::<Seq<char>>::empty(),
    {
        let p = Program { symbols: Symbols::new(), preds: Vec::new(), initial: Vec::new(), queries: Vec::new() };
        proof {
            assert(p.query_texts_spec() =~= Seq::<Seq<char>>::empty());
            reveal(Seq::filter);
            assert forall|n: Seq<char>, a: nat| #[trigger] p.clauses_for(n, a).len() == defining(Seq::empty(), n, a).len() by {
                p.lemma_unkeyed(n, a);
            }
        }
        p
    }

    /// Compile clauses into a program. Positions in errors are unknown; see
    /// [`Program::compile_spanned`].
    pub fn compile(clauses: &[Clause]) -> (r: Result<Program, EvalError>)
        ensures
            r matches Ok(p) ==> p.query_texts_spec() == query_texts(clauses@),
            r matches Ok(p) ==> compiles_to(clauses@, p) && p.inv(),
            r matches Err(e) ==> e == EvalError::InitialStoreUnsatisfiable,
            (forall|k: int| 0 <= k < clauses@.len() ==> !(#[trigger] clauses@[k] is ConstraintFact)) ==> r is Ok,
            r is Err ==> exists|p: Program| #[trigger] compiles_to(clauses@, p) && p.inv() && !initial_trivial(p),
    {
        let mut program = Program::blank();
        let mut i: usize = 0;
        proof {
            assert(clauses@.take(0) =~= Seq::<Clause>::empty());
        }
        while i < clauses.len()
            invariant
                i <= clauses@.len(),
                program.inv(),
                compiles_to(clauses@.take(i as int), program),
                program.query_texts_spec() == query_texts(clauses@.take(i as int)),
                (forall|k: int| 0 <= k < i ==> !(#[trigger] clauses@[k] is ConstraintFact)) ==> program.initial@.len() == 0,
            decreases clauses@.len() - i,
        {
            proof {
                assert(clauses@.take(i + 1).drop_last() =~= clauses@.take(i as int));
                assert(clauses@.take(i + 1).last() == clauses@[i as int]);
                assert(clauses@.take(i + 1) =~= clauses@.take(i as int).push(clauses@[i as int]));
            }
            let ghost p0 = program;
            program.add_clause(&clauses[i]);
            proof {
                lemma_compile_step(clauses@.take(i as int), clauses@[i as int], p0, program);
            }
            i = i + 1;
        }
        proof {
            assert(clauses@.take(clauses@.len() as int) =~= clauses@);
        }
        // The initial store must be satisfiable, or the program has no models.
        let mut store = Store::new();
        if !program.post_initial(&mut store) {
            proof {
                assert(compiles_to(clauses@, program));
            }
            return Err(EvalError::InitialStoreUnsatisfiable);
        }
        Ok(program)
    }

    /// Compile clauses parsed with their positions.
    pub fn compile_spanned(clauses: &[(Clause, Span)]) -> (r: Result<Program, EvalError>)
        ensures
            r matches Ok(p) ==> p.query_texts_spec() == query_texts(first_parts(clauses@)),
            r matches Ok(p) ==> compiles_to(first_parts(clauses@), p) && p.inv(),
            r matches Err(e) ==> e == EvalError::InitialStoreUnsatisfiable,
            (forall|k: int| 0 <= k < clauses@.len() ==> !((#[trigger] clauses@[k]).0 is ConstraintFact)) ==> r is Ok,
            r is Err ==> exists|p: Program| #[trigger] compiles_to(first_parts(clauses@), p) && p.inv() && !initial_trivial(p),
    {
        let ghost cs = first_parts(clauses@);
        let mut program = Program::blank();
        let mut i: usize = 0;
        proof {
            assert(cs.take(0) =~= Seq::<Clause>::empty());
        }
        while i < clauses.len()
            invariant
                i <= clauses@.len(),
                cs == first_parts(clauses@),
                program.inv(),
                compiles_to(cs.take(i as int), program),
                program.query_texts_spec() == query_texts(cs.take(i as int)),
                (forall|k: int| 0 <= k < i ==> !((#[trigger] clauses@[k]).0 is ConstraintFact)) ==> program.initial@.len() == 0,
            decreases clauses@.len() - i,
        {
            proof {
                assert(cs[i as int] == clauses@[i as int].0);
                assert(cs.take(i + 1).drop_last() =~= cs.take(i as int));
                assert(cs.take(i + 1).last() == cs[i as int]);
                assert(cs.take(i + 1) =~= cs.take(i as int).push(cs[i as int]));
            }
            let ghost p0 = program;
            program.add_clause(&clauses[i].0);
            proof {
                lemma_compile_step(cs.take(i as int), cs[i as int], p0, program);
            }
            i = i + 1;
        }
        proof {
            assert(cs.take(cs.len() as int) =~= cs);
        }
        let mut store = Store::new();
        if !program.post_initial(&mut store) {
            proof {
                assert(compiles_to(first_parts(clauses@), program));
            }
            return Err(EvalError::InitialStoreUnsatisfiable);
        }
        Ok(program)
    }

    pub closed spec fn query_texts_spec(&self) -> Seq<Seq<char>> {
        self.queries@.map_values(|q: Query| q.text_spec())
    }

    /// Lower one clause into the program.
    fn add_clause(&mut self, clause: &Clause)
        requires
            old(self).inv(),
        ensures
            final(self).inv(),
            old(self).symbols@.is_prefix_of(final(self).symbols@),
            final(self).query_texts_spec() == old(self).query_texts_spec() + (if *clause is Query {
                seq![clause_text(*clause)]
            } else {
                Seq::<Seq<char>>::empty()
            }),
            head_of(*clause) matches Some((name, arity)) ==> {
                let before = old(self).clauses_for(name, arity);
                let after = final(self).clauses_for(name, arity);
                &&& after.len() == before.len() + 1
                &&& after.take(before.len() as int) == before
                &&& clause_lowers_to(*clause, after.last(), final(self).symbols@)
            },
            forall|n2: Seq<char>, a2: nat| head_of(*clause) != Some((n2, a2)) ==>
                #[trigger] final(self).clauses_for(n2, a2) == old(self).clauses_for(n2, a2),
            *clause is ConstraintFact ==> final(self).initial@.len() == old(self).initial@.len() + 1
                && final(self).initial@.take(old(self).initial@.len() as int) == old(self).initial@
                && fact_lowers_to(*clause, final(self).initial@.last(), final(self).symbols@),
            !(*clause is ConstraintFact) ==> final(self).initial@ == old(self).initial@,
            *clause is Query ==> final(self).queries@.len() == old(self).queries@.len() + 1
                && final(self).queries@.take(old(self).queries@.len() as int) == old(self).queries@
                && query_lowers_to(*clause, final(self).queries@.last(), final(self).symbols@),
            !(*clause is Query) ==> final(self).queries@ == old(self).queries@,
    {
        let mut vars = VarMap::new();
        let ghost before = self.query_texts_spec();
        let ghost p0 = *self;
        match clause {
            Clause::Fact(atom) => {
                let head = lower_atom(&mut self.symbols, &mut vars, atom);
                self.symbols.lemma_distinct();
                proof {
                    lemma_grow_symbols(p0, *self);
                }
                let nvars = vars.len();
                let tc = TClause { head, body: Vec::new(), nvars };
                proof {
                    assert(lowered_with(*clause, tc, vars@, self.symbols@));
                }
                self.push_clause(tc);
            },
            Clause::Rule { head, body } | Clause::ConstraintRule { head, body } => {
                let h = lower_atom(&mut self.symbols, &mut vars, head);
                let ghost v1 = vars@;
                let ghost s1 = self.symbols@;
                let b = lower_body(&mut self.symbols, &mut vars, body);
                self.symbols.lemma_distinct();
                proof {
                    lemma_atom_lowers_mono(*head, h, v1, s1, vars@, self.symbols@);
                    lemma_grow_symbols(p0, *self);
                }
                let nvars = vars.len();
                let tc = TClause { head: h, body: b, nvars };
                proof {
                    assert(lowered_with(*clause, tc, vars@, self.symbols@));
                }
                self.push_clause(tc);
            },
            // `{c} => head.` is sugar for `head :- {c}.`
            Clause::Implication { constraint, head } => {
                let h = lower_atom(&mut self.symbols, &mut vars, head);
                let ghost v1 = vars@;
                let ghost s1 = self.symbols@;
                let mut body: Vec<TGoal> = Vec::new();
                lower_block(&mut self.symbols, &mut vars, constraint, &mut body);
                self.symbols.lemma_distinct();
                proof {
                    lemma_atom_lowers_mono(*head, h, v1, s1, vars@, self.symbols@);
                    lemma_grow_symbols(p0, *self);
                    assert(body@.skip(0) =~= body@);
                }
                let nvars = vars.len();
                let tc = TClause { head: h, body, nvars };
                proof {
                    assert(lowered_with(*clause, tc, vars@, self.symbols@));
                }
                self.push_clause(tc);
            },
            // Global constraints: the initial store.
            Clause::ConstraintFact(ce) => {
                let mut goals: Vec<TGoal> = Vec::new();
                lower_block(&mut self.symbols, &mut vars, ce, &mut goals);
                self.symbols.lemma_distinct();
                proof {
                    assert(goals@.skip(0) =~= goals@);
                }
                let entry = (goals, vars.len());
                proof {
                    assert(block_lowers_to(*ce, entry.0@, vars@, self.symbols@));
                    assert(fact_lowers_to(*clause, entry, self.symbols@));
                }
                self.initial.push(entry);
                proof {
                    lemma_grow_symbols(p0, *self);
                    assert(self.initial@.take(p0.initial@.len() as int) =~= p0.initial@);
                }
            },
            Clause::Query(body) => {
                let goals = lower_body(&mut self.symbols, &mut vars, body);
                self.symbols.lemma_distinct();
                let text = clause.to_string();
                let q = Query { goals, var_names: vars.names(), text };
                proof {
                    assert(query_lowers_to(*clause, q, self.symbols@));
                }
                self.queries.push(q);
                proof {
                    lemma_grow_symbols(p0, *self);
                    assert(self.query_texts_spec() =~= before + seq![clause_text(*clause)]);
                    assert(self.queries@.take(p0.queries@.len() as int) =~= p0.queries@);
                }
                return;
            },
        }
        proof {
            assert(self.query_texts_spec() =~= before);
        }
    }

    /// How many constraint facts the program has.
    pub closed spec fn initial_count(&self) -> nat {
        self.initial@.len()
    }

    /// The program's intern table, as held.
    pub closed spec fn symbols_spec(&self) -> Symbols {
        self.symbols
    }

    /// The program of no clauses.
    pub(crate) fn empty() -> (p: Program)
        ensures
            p.query_texts_spec() == Seq::<Seq<char>>::empty(),
    {
        let p = Program { symbols: Symbols::new(), preds: Vec::new(), initial: Vec::new(), queries: Vec::new() };
        proof {
            assert(p.query_texts_spec() =~= Seq::<Seq<char>>::empty());
        }
        p
    }

    /// The intern table of the program's names.
    pub(crate) fn symbols(&self) -> (s: &Symbols)
        ensures
            *s == self.symbols_spec(),
    {
        &self.symbols
    }

    /// The program's `?-` clauses, in source order.
    pub fn queries(&self) -> (q: &Vec<Query>)
        ensures
            q@.map_values(|x: Query| x.text_spec()) == self.query_texts_spec(),
    {
        &self.queries
    }

    /// Clauses defining the predicate `f`/`n`, in program order (empty if
    /// undefined).
    pub(crate) fn clauses_of(&self, f: Symbol, n: usize) -> (r: Option<&Vec<TClause>>)
        ensures
            self.inv() && f.0 < self.names().len() ==> match r {
                Some(l) => l@ == self.clauses_for(self.names()[f.0 as int], n as nat),
                None => self.clauses_for(self.names()[f.0 as int], n as nat) == Seq::<TClause>::empty(),
            },
    {
        let mut i: usize = 0;
        while i < self.preds.len()
            invariant
                i <= self.preds@.len(),
                forall|k: int| 0 <= k < i ==> !((#[trigger] self.preds@[k]).0 == f && self.preds@[k].1 == n),
            decreases self.preds@.len() - i,
        {
            if self.preds[i].0 == f && self.preds[i].1 == n {
                proof {
                    if self.inv() && f.0 < self.names().len() {
                        self.lemma_keyed(i as int, self.names()[f.0 as int], n as nat);
                    }
                }
                return Some(&self.preds[i].2);
            }
            i = i + 1;
        }
        proof {
            if self.inv() && f.0 < self.names().len() {
                let name = self.names()[f.0 as int];
                assert forall|k: int| !self.keyed(k, name, n as nat) by {
                    if self.keyed(k, name, n as nat) {
                        let g = self.preds@[k].0;
                        if g.0 != f.0 {
                            if g.0 < f.0 {
                                assert(self.symbols@[g.0 as int] != self.symbols@[f.0 as int]);
                            } else {
                                assert(self.symbols@[f.0 as int] != self.symbols@[g.0 as int]);
                            }
                        }
                        assert(self.preds@[k].0 == f);
                    }
                }
                self.lemma_unkeyed(name, n as nat);
            }
        }
        None
    }

    /// Post the constraint facts into a store. False if unsatisfiable.
    pub(crate) fn post_initial(&self, store: &mut Store) -> (ok: bool)
        requires
            old(store).wf(),
        ensures
            final(store).evolves(&*old(store)),
            self.initial_count() == 0 ==> ok,
            (exists|i: int, j: int| 0 <= i < self.initial_spec().len() && 0 <= j < self.initial_spec()[i].0@.len()
                && #[trigger] self.initial_spec()[i].0@[j] is Call) ==> !ok,
            old(store).quiescent() && initial_trivial(*self) ==> ok,
    {
        let ghost trivial = old(store).quiescent() && initial_trivial(*self);
        let mut i: usize = 0;
        while i < self.initial.len()
            invariant
                i <= self.initial@.len(),
                store.evolves(&*old(store)),
                forall|k: int, j: int| 0 <= k < i && 0 <= j < self.initial@[k].0@.len() ==> !(#[trigger] self.initial@[k].0@[j] is Call),
                trivial == (old(store).quiescent() && initial_trivial(*self)),
                trivial ==> store.quiescent(),
            decreases self.initial@.len() - i,
        {
            let goals = &self.initial[i].0;
            let mut vars = empty_vars(self.initial[i].1);
            let mut j: usize = 0;
            while j < goals.len()
                invariant
                    j <= goals@.len(),
                    i < self.initial@.len(),
                    goals == &self.initial@[i as int].0,
                    store.evolves(&*old(store)),
                    forall|k: int, j2: int| 0 <= k < i && 0 <= j2 < self.initial@[k].0@.len() ==> !(#[trigger] self.initial@[k].0@[j2] is Call),
                    forall|j2: int| 0 <= j2 < j ==> !(#[trigger] goals@[j2] is Call),
                    trivial == (old(store).quiescent() && initial_trivial(*self)),
                    trivial ==> store.quiescent(),
                decreases goals@.len() - j,
            {
                proof {
                    if trivial {
                        assert(distinct_constants_dif(self.initial_spec()[i as int].0@[j as int]));
                    }
                }
                let ok = match &goals[j] {
                    TGoal::Eq(a, b) => match (build(store, a, &mut vars), build(store, b, &mut vars)) {
                        (Some(x), Some(y)) => store.post_eq_goal(x, y),
                        _ => false,
                    },
                    TGoal::Dif(a, b) => {
                        let ghost s0 = *store;
                        let ba = build(store, a, &mut vars);
                        let ghost s1 = *store;
                        let bb = build(store, b, &mut vars);
                        match (ba, bb) {
                            (Some(x), Some(y)) => {
                                proof {
                                    if trivial {
                                        let (cx, cy) = (a->Const_0, b->Const_0);
                                        assert(goals@[j as int] == self.initial_spec()[i as int].0@[j as int]);
                                        assert(goals@[j as int] == TGoal::Dif(*a, *b));
                                        assert(*a == TTerm::Const(cx));
                                        assert(*b == TTerm::Const(cy));
                                        assert(x == s0.heap_len());
                                        assert(s1.cell_at(x as int) == Cell::Const(cx));
                                        assert(s1.slots().drop_last() == s0.slots());
                                        assert(x < s1.slots().len());
                                        assert(store.slots().drop_last() == s1.slots());
                                        assert(store.slots().drop_last()[x as int] == store.slots()[x as int]);
                                        assert(store.slots().drop_last()[x as int] == s1.slots()[x as int]);
                                        assert(store.cell_at(x as int) == Cell::Const(cx));
                                        assert(store.const_at(x, cx));
                                        assert(store.const_at(y, cy));
                                    }
                                }
                                store.post_dif_goal(x, y)
                            },
                            _ => false,
                        }
                    },
                    TGoal::Rel(op, a, b) => match (build(store, a, &mut vars), build(store, b, &mut vars)) {
                        (Some(x), Some(y)) => store.post_rel(*op, x, y),
                        _ => false,
                    },
                    TGoal::Call(_) => false,
                };
                if !ok {
                    return false;
                }
                j = j + 1;
            }
            proof {
                assert forall|k: int, j2: int| 0 <= k < i + 1 && 0 <= j2 < self.initial@[k].0@.len()
                    implies !(#[trigger] self.initial@[k].0@[j2] is Call) by {
                    if k == i {
                        assert(goals@[j2] == self.initial@[k].0@[j2]);
                    }
                }
            }
            i = i + 1;
        }
        true
    }
}

} // verus!
