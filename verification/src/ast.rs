//! Abstract syntax tree of a Claimr program — the output of parsing — and
//! its rendering back to Claimr surface syntax (canonical spacing, minimal
//! parentheses, atom names quoted exactly when needed).

use vstd::prelude::*;
use crate::number::{Number, rat_text};
use crate::text::{chars_of, push_all, string_from_chars};

verus! {

/// A top-level clause of a program.
#[derive(Debug, Clone, PartialEq, Eq)]
pub enum Clause {
    Fact(Atom),
    Rule { head: Atom, body: Vec<Goal> },
    ConstraintFact(ConstraintExpr),
    ConstraintRule { head: Atom, body: Vec<Goal> },
    Implication { constraint: ConstraintExpr, head: Atom },
    Query(Vec<Goal>),
}

/// A goal in a rule or query body: an atom to prove, or a constraint block.
#[derive(Debug, Clone, PartialEq, Eq)]
pub enum Goal {
    Atom(Atom),
    Constraint(ConstraintExpr),
}

/// A compound term: `name(arg, ...)`.
#[derive(Debug, PartialEq, Eq)]
pub struct Atom {
    pub name: String,
    pub args: Vec<Expr>,
}

/// A term expression. Arithmetic operators are term constructors admissible
/// anywhere a term goes; the parser does no constant folding.
#[derive(Debug, PartialEq, Eq)]
pub enum Expr {
    Atom(Box<Atom>),
    Var(String),
    /// An exact rational literal.
    Number(Number),
    Ident(String),
    /// Unary minus.
    Neg(Box<Expr>),
    /// A binary arithmetic operation.
    Binary { op: ArithOp, left: Box<Expr>, right: Box<Expr> },
}

/// Binary arithmetic operators.
#[derive(Debug, Clone, Copy, PartialEq, Eq)]
pub enum ArithOp {
    Add,
    Sub,
    Mul,
    Div,
}

/// A single relational constraint `left op right`.
#[derive(Debug, Clone, PartialEq, Eq)]
pub struct Constraint {
    pub left: Expr,
    pub op: RelOp,
    pub right: Expr,
}

/// A conjunction of constraints, as written between `{` and `}`.
#[derive(Debug, Clone, PartialEq, Eq)]
pub struct ConstraintExpr {
    pub terms: Vec<Constraint>,
}

/// Relational operators.
#[derive(Debug, Clone, Copy, PartialEq, Eq)]
pub enum RelOp {
    Eq,
    Neq,
    Lt,
    Gt,
    Le,
    Ge,
}

fn copy_string(s: &String) -> (r: String)
    ensures
        r@ == s@,
{
    s.clone()
}

impl Expr {
    /// A deep copy.
    pub fn copy(&self) -> (r: Expr)
        ensures
            forall|m: nat| #[trigger] expr_text(r, m) == expr_text(*self, m),
            expr_prec(r) == expr_prec(*self),
        decreases *self, 0nat,
    {
        let r = match self {
            Expr::Atom(a) => {
                let c = a.copy();
                let r = Expr::Atom(Box::new(c));
                assert forall|m: nat| #[trigger] expr_text(r, m) == expr_text(*self, m) by {
                    assert(atom_text(c) == atom_text(**a));
                }
                r
            },
            Expr::Var(v) => Expr::Var(copy_string(v)),
            Expr::Number(n) => Expr::Number(n.copy()),
            Expr::Ident(i) => Expr::Ident(copy_string(i)),
            Expr::Neg(e) => {
                let c = e.copy();
                assert(expr_text(c, 3) == expr_text(**e, 3));
                Expr::Neg(Box::new(c))
            },
            Expr::Binary { op, left, right } => {
                let l = left.copy();
                let rr = right.copy();
                assert(expr_text(l, arith_prec(*op)) == expr_text(**left, arith_prec(*op)));
                assert(expr_text(rr, arith_prec(*op) + 1) == expr_text(**right, arith_prec(*op) + 1));
                Expr::Binary { op: *op, left: Box::new(l), right: Box::new(rr) }
            },
        };
        proof {
            assert forall|m: nat| #[trigger] expr_text(r, m) == expr_text(*self, m) by {}
        }
        r
    }
}

impl Atom {
    /// A deep copy.
    pub fn copy(&self) -> (r: Atom)
        ensures
            atom_text(r) == atom_text(*self),
        decreases *self, 1nat,
    {
        let mut args: Vec<Expr> = Vec::new();
        let mut i: usize = 0;
        while i < self.args.len()
            invariant
                i <= self.args.len(),
                args@.len() == i,
                forall|j: int, m: nat| 0 <= j < i ==> #[trigger] expr_text(args@[j], m) == expr_text(self.args@[j], m),
            decreases self.args.len() - i,
        {
            args.push(self.args[i].copy());
            i = i + 1;
        }
        proof {
            lemma_args_text_eq(args@, self.args@);
        }
        Atom { name: copy_string(&self.name), args }
    }
}

/// Argument lists that print alike element by element print alike.
pub proof fn lemma_args_text_eq(a: Seq<Expr>, b: Seq<Expr>)
    requires
        a.len() == b.len(),
        forall|j: int, m: nat| 0 <= j < a.len() ==> #[trigger] expr_text(a[j], m) == expr_text(b[j], m),
    ensures
        args_text(a) == args_text(b),
    decreases a.len(),
{
    if a.len() > 1 {
        lemma_args_text_eq(a.drop_last(), b.drop_last());
        assert(expr_text(a.last(), 0) == expr_text(b.last(), 0));
    } else if a.len() == 1 {
        assert(expr_text(a[0], 0) == expr_text(b[0], 0));
    }
}

impl Clone for Expr {
    fn clone(&self) -> (r: Expr)
        ensures
            forall|m: nat| #[trigger] expr_text(r, m) == expr_text(*self, m),
    {
        self.copy()
    }
}

impl Clone for Atom {
    fn clone(&self) -> (r: Atom)
        ensures
            atom_text(r) == atom_text(*self),
    {
        self.copy()
    }
}

// --- names -------------------------------------------------------------------

pub open spec fn is_lower(c: char) -> bool {
    'a' <= c && c <= 'z'
}

pub open spec fn is_upper(c: char) -> bool {
    'A' <= c && c <= 'Z'
}

pub open spec fn is_name_char(c: char) -> bool {
    is_lower(c) || is_upper(c) || ('0' <= c && c <= '9') || c == '_'
}

/// A name that can be written without quotes: a lowercase letter followed by
/// letters, digits and underscores.
pub open spec fn plain_name(s: Seq<char>) -> bool {
    s.len() > 0 && is_lower(s[0]) && forall|i: int| 0 <= i < s.len() ==> is_name_char(#[trigger] s[i])
}

/// Backslash-escape `\` and `'` inside a quoted name.
pub open spec fn quote_escape(s: Seq<char>) -> Seq<char>
    decreases s.len(),
{
    if s.len() == 0 {
        Seq::empty()
    } else {
        quote_escape(s.drop_last()) + (if s.last() == '\\' || s.last() == '\'' {
            seq!['\\', s.last()]
        } else {
            seq![s.last()]
        })
    }
}

/// How a name prints: plainly when it can, else quoted.
pub open spec fn name_text(s: Seq<char>) -> Seq<char> {
    if plain_name(s) {
        s
    } else {
        seq!['\''] + quote_escape(s) + seq!['\'']
    }
}

fn name_is_plain_chars(s: &Vec<char>) -> (b: bool)
    ensures
        b == plain_name(s@),
{
    if s.len() == 0 || !('a' <= s[0] && s[0] <= 'z') {
        return false;
    }
    let mut i: usize = 0;
    while i < s.len()
        invariant
            i <= s.len(),
            forall|j: int| 0 <= j < i ==> is_name_char(#[trigger] s@[j]),
        decreases s.len() - i,
    {
        let c = s[i];
        if !(('a' <= c && c <= 'z') || ('A' <= c && c <= 'Z') || ('0' <= c && c <= '9') || c == '_') {
            return false;
        }
        i = i + 1;
    }
    true
}

/// True if `name` prints without quotes.
pub fn name_is_plain(name: &str) -> (b: bool)
    ensures
        b == plain_name(name@),
{
    let s = chars_of(name);
    name_is_plain_chars(&s)
}

fn name_text_chars(s: &Vec<char>) -> (r: Vec<char>)
    ensures
        r@ == name_text(s@),
{
    if name_is_plain_chars(s) {
        let mut out: Vec<char> = Vec::new();
        push_all(&mut out, s);
        return out;
    }
    let mut out: Vec<char> = Vec::new();
    out.push('\'');
    let mut i: usize = 0;
    while i < s.len()
        invariant
            i <= s.len(),
            out@ == seq!['\''] + quote_escape(s@.take(i as int)),
        decreases s.len() - i,
    {
        let c = s[i];
        if c == '\\' || c == '\'' {
            out.push('\\');
        }
        out.push(c);
        i = i + 1;
        assert(s@.take(i as int).drop_last() =~= s@.take(i - 1));
    }
    out.push('\'');
    assert(s@.take(s.len() as int) =~= s@);
    out
}

/// The spelling of a name in source: plain when possible, else quoted with
/// `\` and `'` escaped. Every printed form re-parses to the same content.
pub fn display_name(name: &str) -> (s: String)
    ensures
        s@ == name_text(name@),
{
    let v = chars_of(name);
    string_from_chars(&name_text_chars(&v))
}

// --- rendering ---------------------------------------------------------------

pub open spec fn relop_text(op: RelOp) -> Seq<char> {
    match op {
        RelOp::Eq => seq!['='],
        RelOp::Neq => seq!['!', '='],
        RelOp::Lt => seq!['<'],
        RelOp::Gt => seq!['>'],
        RelOp::Le => seq!['<', '='],
        RelOp::Ge => seq!['>', '='],
    }
}

pub open spec fn arith_text(op: ArithOp) -> Seq<char> {
    match op {
        ArithOp::Add => seq!['+'],
        ArithOp::Sub => seq!['-'],
        ArithOp::Mul => seq!['*'],
        ArithOp::Div => seq!['/'],
    }
}

/// Binding strength: `* /` above `+ -`; unary minus is 3, atoms 4.
pub open spec fn arith_prec(op: ArithOp) -> nat {
    match op {
        ArithOp::Add | ArithOp::Sub => 1,
        ArithOp::Mul | ArithOp::Div => 2,
    }
}

pub open spec fn expr_prec(e: Expr) -> nat {
    match e {
        Expr::Binary { op, .. } => arith_prec(op),
        Expr::Neg(_) => 3,
        _ => 4,
    }
}

/// `e` printed in a context that binds at least `min`; parenthesised when
/// it binds less. Binary operators associate to the left.
pub open spec fn expr_text(e: Expr, min: nat) -> Seq<char>
    decreases e, 0nat,
{
    let inner = match e {
        Expr::Atom(a) => atom_text(*a),
        Expr::Var(v) => v@,
        Expr::Number(n) => rat_text(n@),
        Expr::Ident(i) => name_text(i@),
        Expr::Neg(x) => seq!['-'] + expr_text(*x, 3),
        Expr::Binary { op, left, right } => expr_text(*left, arith_prec(op)) + seq![' '] + arith_text(op)
            + seq![' '] + expr_text(*right, arith_prec(op) + 1),
    };
    if expr_prec(e) < min {
        seq!['('] + inner + seq![')']
    } else {
        inner
    }
}

/// `name(arg, ...)`.
pub open spec fn atom_text(a: Atom) -> Seq<char>
    decreases a, 1nat,
{
    name_text(a.name@) + seq!['('] + args_text(a.args@) + seq![')']
}

/// Arguments separated by `, `.
pub open spec fn args_text(s: Seq<Expr>) -> Seq<char>
    decreases s, 2nat,
{
    if s.len() == 0 {
        Seq::empty()
    } else if s.len() == 1 {
        expr_text(s[0], 0)
    } else {
        args_text(s.drop_last()) + seq![',', ' '] + expr_text(s.last(), 0)
    }
}

pub open spec fn constraint_text(c: Constraint) -> Seq<char> {
    expr_text(c.left, 0) + seq![' '] + relop_text(c.op) + seq![' '] + expr_text(c.right, 0)
}

pub open spec fn constraints_text(s: Seq<Constraint>) -> Seq<char>
    decreases s.len(),
{
    if s.len() == 0 {
        Seq::empty()
    } else if s.len() == 1 {
        constraint_text(s[0])
    } else {
        constraints_text(s.drop_last()) + seq![',', ' '] + constraint_text(s.last())
    }
}

/// `{ c1, c2 }`.
pub open spec fn block_text(c: ConstraintExpr) -> Seq<char> {
    seq!['{', ' '] + constraints_text(c.terms@) + seq![' ', '}']
}

pub open spec fn goal_text(g: Goal) -> Seq<char> {
    match g {
        Goal::Atom(a) => atom_text(a),
        Goal::Constraint(c) => block_text(c),
    }
}

pub open spec fn body_text(s: Seq<Goal>) -> Seq<char>
    decreases s.len(),
{
    if s.len() == 0 {
        Seq::empty()
    } else if s.len() == 1 {
        goal_text(s[0])
    } else {
        body_text(s.drop_last()) + seq![',', ' '] + goal_text(s.last())
    }
}

/// A clause in surface syntax, ending in `.`.
pub open spec fn clause_text(c: Clause) -> Seq<char> {
    match c {
        Clause::Fact(a) => atom_text(a) + seq!['.'],
        Clause::Rule { head, body } => atom_text(head) + seq![' ', ':', '-', ' '] + body_text(body@) + seq!['.'],
        Clause::ConstraintRule { head, body } => atom_text(head) + seq![' ', ':', '-', ' '] + body_text(body@) + seq!['.'],
        Clause::ConstraintFact(c) => block_text(c) + seq!['.'],
        Clause::Implication { constraint, head } => block_text(constraint) + seq![' ', '=', '>', ' '] + atom_text(head) + seq!['.'],
        Clause::Query(body) => seq!['?', '-', ' '] + body_text(body@) + seq!['.'],
    }
}

fn push_seq2(out: &mut Vec<char>, a: char, b: char)
    ensures
        final(out)@ == old(out)@ + seq![a, b],
{
    out.push(a);
    out.push(b);
}

impl RelOp {
    pub fn to_text(&self) -> (s: Vec<char>)
        ensures
            s@ == relop_text(*self),
    {
        let mut out: Vec<char> = Vec::new();
        match self {
            RelOp::Eq => out.push('='),
            RelOp::Neq => push_seq2(&mut out, '!', '='),
            RelOp::Lt => out.push('<'),
            RelOp::Gt => out.push('>'),
            RelOp::Le => push_seq2(&mut out, '<', '='),
            RelOp::Ge => push_seq2(&mut out, '>', '='),
        }
        proof {
            assert(out@ =~= relop_text(*self));
        }
        out
    }
}

impl ArithOp {
    /// Binding strength: `* /` above `+ -`.
    pub fn precedence(self) -> (p: u8)
        ensures
            p == arith_prec(self),
    {
        match self {
            ArithOp::Add | ArithOp::Sub => 1,
            ArithOp::Mul | ArithOp::Div => 2,
        }
    }

    pub fn to_char(self) -> (c: char)
        ensures
            seq![c] == arith_text(self),
    {
        match self {
            ArithOp::Add => '+',
            ArithOp::Sub => '-',
            ArithOp::Mul => '*',
            ArithOp::Div => '/',
        }
    }
}

impl Expr {
    fn precedence(&self) -> (p: u8)
        ensures
            p == expr_prec(*self),
    {
        match self {
            Expr::Binary { op, .. } => op.precedence(),
            Expr::Neg(_) => 3,
            _ => 4,
        }
    }

    /// The expression printed in a context binding at least `min`.
    pub fn fmt_prec(&self, min: u8) -> (s: Vec<char>)
        ensures
            s@ == expr_text(*self, min as nat),
        decreases *self, 0nat,
    {
        let prec = self.precedence();
        let parens = prec < min;
        let mut out: Vec<char> = Vec::new();
        if parens {
            out.push('(');
        }
        let ghost start = out@;
        match self {
            Expr::Atom(a) => {
                let t = a.to_text();
                push_all(&mut out, &t);
            },
            Expr::Var(v) => {
                let t = chars_of(v.as_str());
                push_all(&mut out, &t);
            },
            Expr::Number(n) => {
                let t = n.to_text();
                push_all(&mut out, &t);
            },
            Expr::Ident(i) => {
                let t = name_text_chars(&chars_of(i.as_str()));
                push_all(&mut out, &t);
            },
            Expr::Neg(e) => {
                out.push('-');
                let t = e.fmt_prec(3);
                push_all(&mut out, &t);
            },
            Expr::Binary { op, left, right } => {
                let p = op.precedence();
                let l = left.fmt_prec(p);
                push_all(&mut out, &l);
                out.push(' ');
                out.push(op.to_char());
                out.push(' ');
                let r = right.fmt_prec(p + 1);
                push_all(&mut out, &r);
            },
        }
        if parens {
            out.push(')');
        }
        proof {
            assert(out@ =~= expr_text(*self, min as nat));
        }
        out
    }

    /// The expression in surface syntax.
    pub fn to_text(&self) -> (s: Vec<char>)
        ensures
            s@ == expr_text(*self, 0),
    {
        self.fmt_prec(0)
    }
}

impl Atom {
    /// `name(arg, ...)`.
    pub fn to_text(&self) -> (s: Vec<char>)
        ensures
            s@ == atom_text(*self),
        decreases *self, 1nat,
    {
        let mut out = name_text_chars(&chars_of(self.name.as_str()));
        out.push('(');
        let ghost start = out@;
        let mut i: usize = 0;
        while i < self.args.len()
            invariant
                i <= self.args.len(),
                out@ == start + args_text(self.args@.take(i as int)),
            decreases self.args.len() - i,
        {
            proof {
                assert(self.args@.take(i + 1).drop_last() =~= self.args@.take(i as int));
                assert(self.args@.take(i + 1).last() == self.args@[i as int]);
            }
            if i > 0 {
                out.push(',');
                out.push(' ');
            }
            let t = self.args[i].fmt_prec(0);
            push_all(&mut out, &t);
            i = i + 1;
            proof {
                if i == 1 {
                    assert(self.args@.take(1)[0] == self.args@[0]);
                }
            }
        }
        out.push(')');
        assert(self.args@.take(self.args.len() as int) =~= self.args@);
        out
    }
}

impl Constraint {
    pub fn to_text(&self) -> (s: Vec<char>)
        ensures
            s@ == constraint_text(*self),
    {
        let mut out = self.left.to_text();
        out.push(' ');
        let o = self.op.to_text();
        push_all(&mut out, &o);
        out.push(' ');
        let r = self.right.to_text();
        push_all(&mut out, &r);
        out
    }
}

impl ConstraintExpr {
    /// `{ c1, c2 }`.
    pub fn to_text(&self) -> (s: Vec<char>)
        ensures
            s@ == block_text(*self),
    {
        let mut out: Vec<char> = Vec::new();
        out.push('{');
        out.push(' ');
        let ghost start = out@;
        let mut i: usize = 0;
        while i < self.terms.len()
            invariant
                i <= self.terms.len(),
                out@ == start + constraints_text(self.terms@.take(i as int)),
            decreases self.terms.len() - i,
        {
            proof {
                assert(self.terms@.take(i + 1).drop_last() =~= self.terms@.take(i as int));
                assert(self.terms@.take(i + 1).last() == self.terms@[i as int]);
            }
            if i > 0 {
                out.push(',');
                out.push(' ');
            }
            let t = self.terms[i].to_text();
            push_all(&mut out, &t);
            i = i + 1;
            proof {
                if i == 1 {
                    assert(self.terms@.take(1)[0] == self.terms@[0]);
                }
            }
        }
        out.push(' ');
        out.push('}');
        assert(self.terms@.take(self.terms.len() as int) =~= self.terms@);
        out
    }
}

impl Goal {
    pub fn to_text(&self) -> (s: Vec<char>)
        ensures
            s@ == goal_text(*self),
    {
        match self {
            Goal::Atom(a) => a.to_text(),
            Goal::Constraint(c) => c.to_text(),
        }
    }
}

fn body_to_text(body: &Vec<Goal>) -> (s: Vec<char>)
    ensures
        s@ == body_text(body@),
{
    let mut out: Vec<char> = Vec::new();
    let mut i: usize = 0;
    while i < body.len()
        invariant
            i <= body.len(),
            out@ == body_text(body@.take(i as int)),
        decreases body.len() - i,
    {
        proof {
            assert(body@.take(i + 1).drop_last() =~= body@.take(i as int));
            assert(body@.take(i + 1).last() == body@[i as int]);
        }
        if i > 0 {
            out.push(',');
            out.push(' ');
        }
        let t = body[i].to_text();
        push_all(&mut out, &t);
        i = i + 1;
        proof {
            if i == 1 {
                assert(body@.take(1)[0] == body@[0]);
            }
        }
    }
    assert(body@.take(body.len() as int) =~= body@);
    out
}

impl Clause {
    /// The clause in surface syntax.
    pub fn to_text(&self) -> (s: Vec<char>)
        ensures
            s@ == clause_text(*self),
    {
        let mut out: Vec<char>;
        match self {
            Clause::Fact(a) => {
                out = a.to_text();
            },
            Clause::Rule { head, body } | Clause::ConstraintRule { head, body } => {
                out = head.to_text();
                out.push(' ');
                out.push(':');
                out.push('-');
                out.push(' ');
                let b = body_to_text(body);
                push_all(&mut out, &b);
            },
            Clause::ConstraintFact(c) => {
                out = c.to_text();
            },
            Clause::Implication { constraint, head } => {
                out = constraint.to_text();
                out.push(' ');
                out.push('=');
                out.push('>');
                out.push(' ');
                let h = head.to_text();
                push_all(&mut out, &h);
            },
            Clause::Query(body) => {
                out = Vec::new();
                out.push('?');
                out.push('-');
                out.push(' ');
                let b = body_to_text(body);
                push_all(&mut out, &b);
            },
        }
        out.push('.');
        proof {
            assert(out@ =~= clause_text(*self));
        }
        out
    }

    /// The clause in surface syntax, as a `String`.
    pub fn to_string(&self) -> (s: String)
        ensures
            s@ == clause_text(*self),
    {
        string_from_chars(&self.to_text())
    }
}

} // verus!
