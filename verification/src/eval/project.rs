//! Elimination of internal variables from a linear system over the
//! rationals: Gaussian substitution through equalities, then
//! Fourier–Motzkin over the inequalities, within a budget.

use vstd::prelude::*;
use crate::number::Number;
use crate::solver::{LinExpr, SVar};
use crate::solver::linexpr::{lemma_coeff_in, terms_wf};

verus! {

/// Above this many inequalities Fourier–Motzkin stops eliminating a
/// variable, which then survives.
pub const FM_BUDGET: usize = 256;

/// The relation of a constraint `expr ⋈ 0`.
#[derive(Debug, Clone, Copy, PartialEq, Eq, Structural)]
pub enum Kind {
    /// `expr = 0`
    Eq,
    /// `expr >= 0`
    Ge,
    /// `expr > 0`
    Gt,
    /// `expr != 0`
    Ne,
}

/// `expr ⋈ 0`.
#[derive(Debug)]
pub struct Constraint {
    pub expr: LinExpr,
    pub kind: Kind,
}

/// `v` occurs in `e` (with a non-zero coefficient).
pub open spec fn mentions(e: LinExpr, v: SVar) -> bool {
    e.coeff_spec(v.0).0 != 0
}

/// No equality of `cs` mentions a variable of `vs`.
pub open spec fn eqs_free_of(cs: Seq<Constraint>, vs: Seq<SVar>) -> bool {
    forall|k: int, j: int| 0 <= k < cs.len() && 0 <= j < vs.len() && (#[trigger] cs[k]).kind == Kind::Eq
        ==> !mentions(cs[k].expr, #[trigger] vs[j])
}

/// The kinds of the inequalities and disequations of `cs`, in order.
pub open spec fn ineq_kinds(cs: Seq<Constraint>) -> Seq<Kind>
    decreases cs.len(),
{
    if cs.len() == 0 {
        Seq::empty()
    } else if cs.last().kind == Kind::Eq {
        ineq_kinds(cs.drop_last())
    } else {
        ineq_kinds(cs.drop_last()).push(cs.last().kind)
    }
}

proof fn lemma_ineq_kinds_push(cs: Seq<Constraint>, c: Constraint)
    ensures
        ineq_kinds(cs.push(c)) == (if c.kind == Kind::Eq { ineq_kinds(cs) } else { ineq_kinds(cs).push(c.kind) }),
{
    assert(cs.push(c).drop_last() =~= cs);
}

proof fn lemma_ineq_kinds_take(cs: Seq<Constraint>, k: int)
    requires
        0 <= k < cs.len(),
    ensures
        ineq_kinds(cs.take(k + 1)) == (if cs[k].kind == Kind::Eq {
            ineq_kinds(cs.take(k))
        } else {
            ineq_kinds(cs.take(k)).push(cs[k].kind)
        }),
{
    assert(cs.take(k + 1) =~= cs.take(k).push(cs[k]));
    lemma_ineq_kinds_push(cs.take(k), cs[k]);
}

/// The disequations of `cs`, in order, by their expressions.
pub open spec fn disequation_views(cs: Seq<Constraint>) -> Seq<(Seq<(usize, (int, int))>, (int, int))>
    decreases cs.len(),
{
    if cs.len() == 0 {
        Seq::empty()
    } else if cs.last().kind == Kind::Ne {
        disequation_views(cs.drop_last()).push(cs.last().expr@)
    } else {
        disequation_views(cs.drop_last())
    }
}

proof fn lemma_disequations_push(cs: Seq<Constraint>, c: Constraint)
    ensures
        disequation_views(cs.push(c)) == (if c.kind == Kind::Ne {
            disequation_views(cs).push(c.expr@)
        } else {
            disequation_views(cs)
        }),
{
    assert(cs.push(c).drop_last() =~= cs);
}

proof fn lemma_disequations_append(a: Seq<Constraint>, b: Seq<Constraint>)
    ensures
        disequation_views(a + b) == disequation_views(a) + disequation_views(b),
    decreases b.len(),
{
    if b.len() == 0 {
        assert(a + b =~= a);
        assert(disequation_views(a) + disequation_views(b) =~= disequation_views(a));
    } else {
        lemma_disequations_append(a, b.drop_last());
        assert((a + b).drop_last() =~= a + b.drop_last());
        assert((a + b).last() == b.last());
        if b.last().kind == Kind::Ne {
            assert(disequation_views(a) + disequation_views(b) =~= (disequation_views(a) + disequation_views(b.drop_last())).push(b.last().expr@));
        }
    }
}

proof fn lemma_disequations_none(cs: Seq<Constraint>)
    requires
        forall|q: int| 0 <= q < cs.len() ==> (#[trigger] cs[q]).kind != Kind::Ne,
    ensures
        disequation_views(cs) == Seq::<(Seq<(usize, (int, int))>, (int, int))>::empty(),
    decreases cs.len(),
{
    if cs.len() > 0 {
        assert(cs.last() == cs[cs.len() - 1]);
        lemma_disequations_none(cs.drop_last());
    }
}

/// `v` occurs in `vs`.
pub fn has_var(vs: &Vec<SVar>, v: SVar) -> (b: bool)
    ensures
        b == vs@.contains(v),
{
    let mut i: usize = 0;
    while i < vs.len()
        invariant
            i <= vs@.len(),
            forall|k: int| 0 <= k < i ==> vs@[k] != v,
        decreases vs@.len() - i,
    {
        if vs[i] == v {
            return true;
        }
        i = i + 1;
    }
    false
}

/// The variable of term `i` of `e` is mentioned with its coefficient.
proof fn lemma_term_mentioned(e: LinExpr, i: int)
    requires
        terms_wf(e@.0),
        0 <= i < e@.0.len(),
    ensures
        e.coeff_spec(e@.0[i].0) == e@.0[i].1,
        mentions(e, SVar(e@.0[i].0)),
{
    lemma_coeff_in(e@.0, e@.0[i].0);
}

/// A variable that is no term's variable is not mentioned.
proof fn lemma_not_mentioned(e: LinExpr, v: usize)
    requires
        terms_wf(e@.0),
        forall|i: int| 0 <= i < e@.0.len() ==> e@.0[i].0 != v,
    ensures
        e.coeff_spec(v) == (0int, 1int),
{
    lemma_coeff_in(e@.0, v);
}

/// From `expr = 0` with `v` in it: `v = rhs`, where `rhs` does not mention
/// `v` nor anything `expr` does not mention.
fn solve_for(expr: &LinExpr, v: SVar) -> (rhs: LinExpr)
    requires
        mentions(*expr, v),
    ensures
        !mentions(rhs, v),
        forall|u: usize| #![trigger rhs.coeff_spec(u)] expr.coeff_spec(u).0 == 0 ==> rhs.coeff_spec(u).0 == 0,
{
    let a = expr.coeff(v).unwrap().copy();
    let mut rhs = expr.copy();
    rhs.take(v);
    rhs.negate();
    let inv = a.recip().unwrap();
    rhs.scale(&inv);
    proof {
        if inv@.0 == 0 {
            assert forall|u: usize| #[trigger] rhs.coeff_spec(u).0 == 0 by {
                lemma_coeff_in(rhs@.0, u);
            }
        }
    }
    rhs
}

/// Substitute `v = rhs` (with `rhs` free of `v`) into `e`.
fn substitute(e: &mut LinExpr, v: SVar, rhs: &LinExpr)
    requires
        !mentions(*rhs, v),
    ensures
        !mentions(*final(e), v),
        forall|u: usize| #![trigger final(e).coeff_spec(u)]
            old(e).coeff_spec(u).0 == 0 && rhs.coeff_spec(u).0 == 0 ==> final(e).coeff_spec(u).0 == 0,
{
    if let Some(a) = e.take(v) {
        e.add_scaled(rhs, &a);
    }
}

/// A copy of a constraint.
fn copy_constraint(c: &Constraint) -> (r: Constraint)
    ensures
        r.expr@ == c.expr@,
        r.kind == c.kind,
{
    Constraint { expr: c.expr.copy(), kind: c.kind }
}

/// An equality and a variable of `vs` in it, scanning equalities in order
/// and their terms from the most recently introduced variable down; a
/// unit coefficient is preferred within an equality.
fn pick_in(cs: &Vec<Constraint>, vs: &Vec<SVar>) -> (r: Option<(usize, SVar)>)
    ensures
        r is None ==> eqs_free_of(cs@, vs@),
        r matches Some(p) ==> p.0 < cs@.len() && cs@[p.0 as int].kind == Kind::Eq && vs@.contains(p.1)
            && mentions(cs@[p.0 as int].expr, p.1),
{
    let one = Number::one();
    let mut i: usize = 0;
    while i < cs.len()
        invariant
            i <= cs@.len(),
            forall|k: int, j: int| 0 <= k < i && 0 <= j < vs@.len() && (#[trigger] cs@[k]).kind == Kind::Eq
                ==> !mentions(cs@[k].expr, #[trigger] vs@[j]),
        decreases cs@.len() - i,
    {
        if cs[i].kind == Kind::Eq {
            let e = &cs[i].expr;
            e.lemma_wf();
            let mut fallback: Option<SVar> = None;
            let mut t = e.num_terms();
            while t > 0
                invariant
                    t <= e@.0.len(),
                    terms_wf(e@.0),
                    i < cs@.len(),
                    cs@[i as int].kind == Kind::Eq,
                    *e == cs@[i as int].expr,
                    forall|q: int| t <= q < e@.0.len() ==> !vs@.contains(SVar(#[trigger] e@.0[q].0)) || fallback is Some,
                    fallback matches Some(w) ==> vs@.contains(w) && mentions(*e, w),
                decreases t,
            {
                t = t - 1;
                let (v, a) = e.term(t);
                proof {
                    lemma_term_mentioned(*e, t as int);
                }
                if has_var(vs, v) {
                    if a.abs().equals(&one) {
                        return Some((i, v));
                    }
                    if fallback.is_none() {
                        fallback = Some(v);
                    }
                }
            }
            if let Some(w) = fallback {
                return Some((i, w));
            }
            proof {
                assert forall|j: int| 0 <= j < vs@.len() implies !mentions(*e, #[trigger] vs@[j]) by {
                    assert forall|q: int| 0 <= q < e@.0.len() implies e@.0[q].0 != vs@[j].0 by {
                        if e@.0[q].0 == vs@[j].0 {
                            assert(SVar(e@.0[q].0) == vs@[j]);
                            assert(vs@.contains(SVar(e@.0[q].0)));
                        }
                    }
                    lemma_not_mentioned(*e, vs@[j].0);
                }
            }
        }
        i = i + 1;
    }
    None
}

/// Eliminate internal variables that occur in equalities by solving for
/// them and substituting everywhere (an equality that becomes constant is
/// dropped); then reduce the public equalities so that each solved-for
/// variable is substituted into the other equalities. Afterwards no
/// equality mentions an internal variable.
pub fn gaussian(cs: &mut Vec<Constraint>, internal: &Vec<SVar>, public: &Vec<SVar>)
    ensures
        eqs_free_of(final(cs)@, internal@),
        final(cs)@.len() <= old(cs)@.len(),
        ineq_kinds(final(cs)@) == ineq_kinds(old(cs)@),
{
    loop
        invariant
            cs@.len() <= old(cs)@.len(),
            ineq_kinds(cs@) == ineq_kinds(old(cs)@),
        ensures
            cs@.len() <= old(cs)@.len(),
            eqs_free_of(cs@, internal@),
            ineq_kinds(cs@) == ineq_kinds(old(cs)@),
        decreases cs@.len(),
    {
        let (i, v) = match pick_in(cs, internal) {
            Some(p) => p,
            None => {
                break;
            },
        };
        let rhs = solve_for(&cs[i].expr, v);
        let mut next: Vec<Constraint> = Vec::new();
        let mut k: usize = 0;
        while k < cs.len()
            invariant
                k <= cs@.len(),
                i < cs@.len(),
                !mentions(rhs, v),
                next@.len() <= k,
                next@.len() <= k - 1 || k <= i,
                cs@[i as int].kind == Kind::Eq,
                ineq_kinds(next@) == ineq_kinds(cs@.take(k as int)),
            decreases cs@.len() - k,
        {
            proof {
                lemma_ineq_kinds_take(cs@, k as int);
            }
            if k != i {
                let mut e = cs[k].expr.copy();
                substitute(&mut e, v, &rhs);
                let kind = cs[k].kind;
                if !(kind == Kind::Eq && e.is_constant()) {
                    proof {
                        lemma_ineq_kinds_push(next@, Constraint { expr: e, kind });
                    }
                    next.push(Constraint { expr: e, kind });
                }
            }
            k = k + 1;
        }
        proof {
            assert(cs@.take(cs@.len() as int) =~= cs@);
        }
        *cs = next;
    }
    // Public equalities: solve each for a public variable not solved for
    // yet and substitute into the other equalities. Each round solves for a
    // new public variable, so there are at most as many rounds as public
    // variables.
    let mut done: Vec<SVar> = Vec::new();
    let mut fuel: usize = public.len();
    while fuel > 0
        invariant
            cs@.len() <= old(cs)@.len(),
            eqs_free_of(cs@, internal@),
            ineq_kinds(cs@) == ineq_kinds(old(cs)@),
        decreases fuel,
    {
        fuel = fuel - 1;
        let (i, v) = match pick_public(cs, public, &done) {
            Some(p) => p,
            None => {
                break;
            },
        };
        let rhs = solve_for(&cs[i].expr, v);
        proof {
            assert forall|j: int| 0 <= j < internal@.len() implies !mentions(rhs, #[trigger] internal@[j]) by {
                assert(!mentions(cs@[i as int].expr, internal@[j]));
            }
        }
        done.push(v);
        let mut next: Vec<Constraint> = Vec::new();
        let mut k: usize = 0;
        while k < cs.len()
            invariant
                k <= cs@.len(),
                next@.len() <= k,
                !mentions(rhs, v),
                eqs_free_of(cs@, internal@),
                forall|j: int| 0 <= j < internal@.len() ==> !mentions(rhs, #[trigger] internal@[j]),
                eqs_free_of(next@, internal@),
                ineq_kinds(next@) == ineq_kinds(cs@.take(k as int)),
            decreases cs@.len() - k,
        {
            proof {
                lemma_ineq_kinds_take(cs@, k as int);
            }
            let mut e = cs[k].expr.copy();
            let kind = cs[k].kind;
            if k != i && kind == Kind::Eq {
                substitute(&mut e, v, &rhs);
                proof {
                    assert forall|j: int| 0 <= j < internal@.len() implies !mentions(e, #[trigger] internal@[j]) by {
                        assert(!mentions(cs@[k as int].expr, internal@[j]));
                        assert(e.coeff_spec(internal@[j].0).0 == 0);
                    }
                }
            } else {
                proof {
                    if kind == Kind::Eq {
                        assert forall|j: int| 0 <= j < internal@.len() implies !mentions(e, #[trigger] internal@[j]) by {
                            assert(!mentions(cs@[k as int].expr, internal@[j]));
                        }
                    }
                }
            }
            if !(kind == Kind::Eq && e.is_constant()) {
                let ghost before = next@;
                proof {
                    lemma_ineq_kinds_push(next@, Constraint { expr: e, kind });
                }
                next.push(Constraint { expr: e, kind });
                proof {
                    assert forall|q: int, j: int| 0 <= q < next@.len() && 0 <= j < internal@.len() && (#[trigger] next@[q]).kind == Kind::Eq
                        implies !mentions(next@[q].expr, #[trigger] internal@[j]) by {
                        if q < before.len() {
                            assert(next@[q] == before[q]);
                        }
                    }
                }
            }
            k = k + 1;
        }
        proof {
            assert(cs@.take(cs@.len() as int) =~= cs@);
        }
        *cs = next;
    }
}

/// An equality not wholly over solved-for variables and a public variable
/// not solved for yet in it (unit coefficient preferred, most recent
/// variable first).
fn pick_public(cs: &Vec<Constraint>, public: &Vec<SVar>, done: &Vec<SVar>) -> (r: Option<(usize, SVar)>)
    ensures
        r matches Some(p) ==> p.0 < cs@.len() && cs@[p.0 as int].kind == Kind::Eq && public@.contains(p.1)
            && !done@.contains(p.1) && mentions(cs@[p.0 as int].expr, p.1),
{
    let one = Number::one();
    let mut i: usize = 0;
    while i < cs.len()
        invariant
            i <= cs@.len(),
        decreases cs@.len() - i,
    {
        if cs[i].kind == Kind::Eq {
            let e = &cs[i].expr;
            e.lemma_wf();
            // Skip an equality all of whose (at least one) variables are solved for.
            let n = e.num_terms();
            let mut any_done = false;
            let mut all_done = true;
            let mut q: usize = 0;
            while q < n
                invariant
                    q <= n,
                    n == e@.0.len(),
                decreases n - q,
            {
                let (w, _) = e.term(q);
                if has_var(done, w) {
                    any_done = true;
                } else {
                    all_done = false;
                }
                q = q + 1;
            }
            if !(any_done && all_done) {
                let mut fallback: Option<SVar> = None;
                let mut t = n;
                while t > 0
                    invariant
                        t <= e@.0.len(),
                        n == e@.0.len(),
                        terms_wf(e@.0),
                        i < cs@.len(),
                        cs@[i as int].kind == Kind::Eq,
                        *e == cs@[i as int].expr,
                        fallback matches Some(w) ==> public@.contains(w) && !done@.contains(w) && mentions(*e, w),
                    decreases t,
                {
                    t = t - 1;
                    let (v, a) = e.term(t);
                    proof {
                        lemma_term_mentioned(*e, t as int);
                    }
                    if !has_var(done, v) && has_var(public, v) {
                        if a.abs().equals(&one) {
                            return Some((i, v));
                        }
                        if fallback.is_none() {
                            fallback = Some(v);
                        }
                    }
                }
                if let Some(w) = fallback {
                    return Some((i, w));
                }
            }
        }
        i = i + 1;
    }
    None
}

/// No constraint of `cs` of a kind other than `!=` mentions `v`.
pub open spec fn ineqs_free_of_var(cs: Seq<Constraint>, v: SVar) -> bool {
    forall|k: int| 0 <= k < cs.len() && (#[trigger] cs[k]).kind != Kind::Ne ==> !mentions(cs[k].expr, v)
}

/// The numbers of `=`, `>=`, `>` constraints in which `v` has a positive
/// and a negative coefficient.
fn sides_of(cs: &Vec<Constraint>, v: SVar) -> (r: (usize, usize))
    ensures
        r.0 <= cs@.len(),
        r.1 <= cs@.len(),
{
    let mut l: usize = 0;
    let mut u: usize = 0;
    let mut k: usize = 0;
    while k < cs.len()
        invariant
            k <= cs@.len(),
            l <= k,
            u <= k,
        decreases cs@.len() - k,
    {
        if cs[k].kind != Kind::Ne {
            if let Some(a) = cs[k].expr.coeff(v) {
                if a.is_positive() {
                    l = l + 1;
                } else if a.is_negative() {
                    u = u + 1;
                }
            }
        }
        k = k + 1;
    }
    (l, u)
}

/// `p1 - n1 < p2 - n2`, exactly.
fn diff_lt(p1: u128, n1: u128, p2: u128, n2: u128) -> (b: bool)
    ensures
        b == (p1 - n1 < p2 - n2),
{
    if p1 >= n1 && p2 >= n2 {
        p1 - n1 < p2 - n2
    } else if p1 < n1 && p2 < n2 {
        n2 - p2 < n1 - p1
    } else {
        p1 < n1
    }
}

/// `p1 - n1 == p2 - n2`, exactly.
fn diff_eq(p1: u128, n1: u128, p2: u128, n2: u128) -> (b: bool)
    ensures
        b == (p1 - n1 == p2 - n2),
{
    if p1 >= n1 && p2 >= n2 {
        p1 - n1 == p2 - n2
    } else if p1 < n1 && p2 < n2 {
        n2 - p2 == n1 - p1
    } else {
        false
    }
}

/// The product of two counts fits in 128 bits.
proof fn lemma_product_fits(l: usize, u: usize)
    ensures
        (l as int) * (u as int) <= 0xFFFF_FFFF_FFFF_FFFE_0000_0000_0000_0001,
{
    assert((l as int) * (u as int) <= 0xFFFF_FFFF_FFFF_FFFFint * 0xFFFF_FFFF_FFFF_FFFFint) by (nonlinear_arith)
        requires
            0 <= l <= 0xFFFF_FFFF_FFFF_FFFFint,
            0 <= u <= 0xFFFF_FFFF_FFFF_FFFFint,
    ;
}

/// The index in `remaining` of the variable whose elimination grows the
/// system least: the smallest `lowers·uppers - (lowers + uppers)`, ties to
/// the smallest variable; `None` when nothing remains.
fn cheapest(cs: &Vec<Constraint>, remaining: &Vec<SVar>) -> (r: Option<usize>)
    ensures
        r is None <==> remaining@.len() == 0,
        r matches Some(i) ==> i < remaining@.len(),
{
    let mut best: Option<(usize, u128, u128)> = None;
    let mut i: usize = 0;
    while i < remaining.len()
        invariant
            i <= remaining@.len(),
            best is None <==> i == 0,
            best matches Some(b) ==> b.0 < i,
        decreases remaining@.len() - i,
    {
        let v = remaining[i];
        let (l, u) = sides_of(cs, v);
        proof {
            lemma_product_fits(l, u);
        }
        let p: u128 = (l as u128) * (u as u128);
        let n: u128 = (l as u128) + (u as u128);
        let better = match best {
            None => true,
            Some((j, bp, bn)) => {
                diff_lt(p, n, bp, bn) || (diff_eq(p, n, bp, bn) && j < remaining.len() && v.0 < remaining[j].0)
            },
        };
        if better {
            best = Some((i, p, n));
        }
        i = i + 1;
    }
    match best {
        Some((j, _, _)) => Some(j),
        None => None,
    }
}

/// Fourier–Motzkin elimination of the internal variables still present,
/// cheapest first: each is replaced by the combinations of its lower and
/// upper bounds, unless that would exceed [`FM_BUDGET`] constraints, in
/// which case it survives. Internal variables left in a disequation
/// survive too. Returns the survivors: afterwards every internal variable
/// that did not survive occurs in no constraint.
pub fn fourier_motzkin(cs: &mut Vec<Constraint>, internal: &Vec<SVar>) -> (survivors: Vec<SVar>)
    ensures
        forall|j: int| 0 <= j < survivors@.len() ==> internal@.contains(#[trigger] survivors@[j]),
        forall|j: int, k: int| 0 <= j < internal@.len() && 0 <= k < final(cs)@.len() && !survivors@.contains(internal@[j])
            ==> !mentions((#[trigger] final(cs)@[k]).expr, #[trigger] internal@[j]),
        disequation_views(final(cs)@) == disequation_views(old(cs)@),
{
    // The internal variables that occur somewhere.
    let mut remaining: Vec<SVar> = Vec::new();
    let mut j: usize = 0;
    while j < internal.len()
        invariant
            j <= internal@.len(),
            forall|q: int| 0 <= q < remaining@.len() ==> internal@.contains(#[trigger] remaining@[q]),
            forall|q: int, k: int| 0 <= q < j && 0 <= k < cs@.len() && !remaining@.contains(internal@[q])
                ==> !mentions((#[trigger] cs@[k]).expr, #[trigger] internal@[q]),
        decreases internal@.len() - j,
    {
        let v = internal[j];
        let mut present = false;
        let mut k: usize = 0;
        while k < cs.len()
            invariant
                k <= cs@.len(),
                present <==> exists|q: int| 0 <= q < k && mentions((#[trigger] cs@[q]).expr, v),
            decreases cs@.len() - k,
        {
            if cs[k].expr.coeff(v).is_some() {
                present = true;
            }
            k = k + 1;
        }
        let ghost r0 = remaining@;
        if present && !has_var(&remaining, v) {
            remaining.push(v);
        }
        proof {
            assert forall|w: SVar| r0.contains(w) implies remaining@.contains(w) by {
                let r = choose|r: int| 0 <= r < r0.len() && r0[r] == w;
                assert(remaining@[r] == r0[r]);
            }
            if present {
                if !r0.contains(v) {
                    assert(remaining@[remaining@.len() - 1] == v);
                }
                assert(remaining@.contains(v));
            }
            assert forall|q: int| 0 <= q < remaining@.len() implies internal@.contains(#[trigger] remaining@[q]) by {
                if q < r0.len() { assert(remaining@[q] == r0[q]); }
            }
            assert forall|q: int, k: int| 0 <= q < j + 1 && 0 <= k < cs@.len() && !remaining@.contains(internal@[q])
                implies !mentions((#[trigger] cs@[k]).expr, #[trigger] internal@[q]) by {
                if q == j && mentions(cs@[k].expr, internal@[q]) {
                    assert(present);
                }
                if q < j {
                    assert(!r0.contains(internal@[q]));
                }
            }
        }
        j = j + 1;
    }
    let mut survivors: Vec<SVar> = Vec::new();
    loop
        invariant
            forall|q: int| 0 <= q < remaining@.len() ==> internal@.contains(#[trigger] remaining@[q]),
            forall|q: int| 0 <= q < survivors@.len() ==> internal@.contains(#[trigger] survivors@[q]),
            forall|q: int| 0 <= q < internal@.len() && !remaining@.contains(#[trigger] internal@[q])
                && !survivors@.contains(internal@[q]) ==> ineqs_free_of_var(cs@, internal@[q]),
            disequation_views(cs@) == disequation_views(old(cs)@),
        ensures
            disequation_views(cs@) == disequation_views(old(cs)@),
            remaining@.len() == 0,
            forall|q: int| 0 <= q < survivors@.len() ==> internal@.contains(#[trigger] survivors@[q]),
            forall|q: int| 0 <= q < internal@.len() && !remaining@.contains(#[trigger] internal@[q])
                && !survivors@.contains(internal@[q]) ==> ineqs_free_of_var(cs@, internal@[q]),
        decreases remaining@.len(),
    {
        let idx = match cheapest(cs, &remaining) {
            Some(i) => i,
            None => {
                break;
            },
        };
        let v = remaining[idx];
        let ghost rem0 = remaining@;
        let ghost cs0 = cs@;
        let ghost sv0 = survivors@;
        remaining.remove(idx);
        proof {
            assert forall|w: SVar| rem0.contains(w) && w != v implies remaining@.contains(w) by {
                let q = choose|q: int| 0 <= q < rem0.len() && rem0[q] == w;
                if q < idx {
                    assert(remaining@[q] == w);
                } else {
                    assert(remaining@[q - 1] == w);
                }
            }
            assert forall|q: int| 0 <= q < remaining@.len() implies internal@.contains(#[trigger] remaining@[q]) by {
                if q < idx {
                    assert(remaining@[q] == rem0[q]);
                } else {
                    assert(remaining@[q] == rem0[q + 1]);
                }
            }
        }
        let mut lowers: Vec<Constraint> = Vec::new();
        let mut uppers: Vec<Constraint> = Vec::new();
        let mut others: Vec<Constraint> = Vec::new();
        let mut k: usize = 0;
        while k < cs.len()
            invariant
                k <= cs@.len(),
                forall|q: int| 0 <= q < lowers@.len() ==> (#[trigger] lowers@[q]).kind != Kind::Ne
                    && lowers@[q].expr.coeff_spec(v.0).0 > 0,
                forall|q: int| 0 <= q < uppers@.len() ==> (#[trigger] uppers@[q]).kind != Kind::Ne
                    && uppers@[q].expr.coeff_spec(v.0).0 < 0,
                forall|q: int| 0 <= q < others@.len() && (#[trigger] others@[q]).kind != Kind::Ne ==> !mentions(others@[q].expr, v),
                forall|w: SVar| ineqs_free_of_var(cs@, w) ==> ineqs_free_of_var(lowers@, w) && ineqs_free_of_var(uppers@, w)
                    && ineqs_free_of_var(others@, w),
                disequation_views(others@) == disequation_views(cs@.take(k as int)),
            decreases cs@.len() - k,
        {
            proof {
                assert(cs@.take(k + 1) =~= cs@.take(k as int).push(cs@[k as int]));
                lemma_disequations_push(cs@.take(k as int), cs@[k as int]);
            }
            let c = copy_constraint(&cs[k]);
            let side = if c.kind != Kind::Ne {
                match c.expr.coeff(v) {
                    Some(a) => if a.is_positive() { 1u8 } else if a.is_negative() { 2u8 } else { 0u8 },
                    None => 0u8,
                }
            } else {
                0u8
            };
            let ghost (l0, u0, o0) = (lowers@, uppers@, others@);
            if side == 1 {
                lowers.push(c);
            } else if side == 2 {
                uppers.push(c);
            } else {
                others.push(c);
                proof {
                    assert(others@ == o0.push(others@.last()));
                    lemma_disequations_push(o0, others@.last());
                }
            }
            proof {
                assert forall|w: SVar| ineqs_free_of_var(cs@, w) implies ineqs_free_of_var(lowers@, w)
                    && ineqs_free_of_var(uppers@, w) && ineqs_free_of_var(others@, w) by {
                    assert(ineqs_free_of_var(l0, w) && ineqs_free_of_var(u0, w) && ineqs_free_of_var(o0, w));
                    assert forall|q: int| 0 <= q < lowers@.len() && (#[trigger] lowers@[q]).kind != Kind::Ne
                        implies !mentions(lowers@[q].expr, w) by {
                        if q < l0.len() { assert(lowers@[q] == l0[q]); }
                    }
                    assert forall|q: int| 0 <= q < uppers@.len() && (#[trigger] uppers@[q]).kind != Kind::Ne
                        implies !mentions(uppers@[q].expr, w) by {
                        if q < u0.len() { assert(uppers@[q] == u0[q]); }
                    }
                    assert forall|q: int| 0 <= q < others@.len() && (#[trigger] others@[q]).kind != Kind::Ne
                        implies !mentions(others@[q].expr, w) by {
                        if q < o0.len() { assert(others@[q] == o0[q]); }
                    }
                }
                assert forall|q: int| 0 <= q < others@.len() && (#[trigger] others@[q]).kind != Kind::Ne
                    implies !mentions(others@[q].expr, v) by {
                    if q < o0.len() { assert(others@[q] == o0[q]); }
                }
            }
            k = k + 1;
        }
        proof {
            lemma_product_fits(lowers@.len() as usize, uppers@.len() as usize);
        }
        let ghost (lo, up, ot) = (lowers@, uppers@, others@);
        proof {
            assert(cs@.take(cs@.len() as int) =~= cs@);
            lemma_disequations_none(lo);
            lemma_disequations_none(up);
        }
        let ghost mut over = false;
        let projected: u128 = (lowers.len() as u128) * (uppers.len() as u128);
        if (others.len() as u128) + projected > FM_BUDGET as u128 {
            // Give up on this variable: keep everything, and it survives.
            let ghost (l0, u0, o0) = (lowers@, uppers@, others@);
            let mut all = others;
            all.append(&mut lowers);
            all.append(&mut uppers);
            *cs = all;
            proof {
                assert(cs@ =~= (o0 + l0) + u0);
                lemma_disequations_append(o0 + l0, u0);
                lemma_disequations_append(o0, l0);
                assert(disequation_views(cs@) =~= disequation_views(o0));
            }
            survivors.push(v);
            proof {
                over = true;
                assert(survivors@[survivors@.len() - 1] == v);
            }
            proof {
                assert forall|w: SVar| ineqs_free_of_var(l0, w) && ineqs_free_of_var(u0, w) && ineqs_free_of_var(o0, w)
                    implies ineqs_free_of_var(cs@, w) by {
                    assert forall|q: int| 0 <= q < cs@.len() && (#[trigger] cs@[q]).kind != Kind::Ne
                        implies !mentions(cs@[q].expr, w) by {
                        if q < o0.len() {
                            assert(cs@[q] == o0[q]);
                        } else if q < o0.len() + l0.len() {
                            assert(cs@[q] == l0[q - o0.len()]);
                        } else {
                            assert(cs@[q] == u0[q - o0.len() - l0.len()]);
                        }
                    }
                }
            }
        } else {
            let mut next = others;
            let mut li: usize = 0;
            while li < lowers.len()
                invariant
                    forall|q: int| 0 <= q < next@.len() && (#[trigger] next@[q]).kind != Kind::Ne ==> !mentions(next@[q].expr, v),
                    forall|w: SVar| ineqs_free_of_var(lowers@, w) && ineqs_free_of_var(uppers@, w)
                        && ineqs_free_of_var(others@, w) ==> ineqs_free_of_var(next@, w),
                    forall|q: int| 0 <= q < lowers@.len() ==> (#[trigger] lowers@[q]).kind != Kind::Ne
                        && lowers@[q].expr.coeff_spec(v.0).0 > 0,
                    forall|q: int| 0 <= q < uppers@.len() ==> (#[trigger] uppers@[q]).kind != Kind::Ne
                        && uppers@[q].expr.coeff_spec(v.0).0 < 0,
                    disequation_views(next@) == disequation_views(ot),
                decreases lowers@.len() - li,
            {
                let a = lowers[li].expr.coeff(v).unwrap().copy();
                let mut ui: usize = 0;
                while ui < uppers.len()
                    invariant
                        li < lowers@.len(),
                        forall|q: int| 0 <= q < next@.len() && (#[trigger] next@[q]).kind != Kind::Ne ==> !mentions(next@[q].expr, v),
                        forall|w: SVar| ineqs_free_of_var(lowers@, w) && ineqs_free_of_var(uppers@, w)
                            && ineqs_free_of_var(others@, w) ==> ineqs_free_of_var(next@, w),
                        forall|q: int| 0 <= q < lowers@.len() ==> (#[trigger] lowers@[q]).kind != Kind::Ne
                            && lowers@[q].expr.coeff_spec(v.0).0 > 0,
                        forall|q: int| 0 <= q < uppers@.len() ==> (#[trigger] uppers@[q]).kind != Kind::Ne
                            && uppers@[q].expr.coeff_spec(v.0).0 < 0,
                        disequation_views(next@) == disequation_views(ot),
                    decreases uppers@.len() - ui,
                {
                    let b = uppers[ui].expr.coeff(v).unwrap().copy();
                    // (-b)·L + a·U: `v` cancels, and its term is dropped.
                    let mut e = lowers[li].expr.copy();
                    e.scale(&b.negate());
                    e.add_scaled(&uppers[ui].expr, &a);
                    e.take(v);
                    let strict = lowers[li].kind == Kind::Gt || uppers[ui].kind == Kind::Gt;
                    if !e.is_constant() {
                        let ghost n0 = next@;
                        proof {
                            assert forall|w: SVar| ineqs_free_of_var(lowers@, w) && ineqs_free_of_var(uppers@, w)
                                implies !mentions(e, w) by {
                                assert(!mentions(lowers@[li as int].expr, w));
                                assert(!mentions(uppers@[ui as int].expr, w));
                                if w != v {
                                    assert(e.coeff_spec(w.0).0 == 0);
                                }
                            }
                        }
                        next.push(Constraint { expr: e, kind: if strict { Kind::Gt } else { Kind::Ge } });
                        proof {
                            assert(next@ == n0.push(next@.last()));
                            lemma_disequations_push(n0, next@.last());
                            assert forall|q: int| 0 <= q < next@.len() && (#[trigger] next@[q]).kind != Kind::Ne
                                implies !mentions(next@[q].expr, v) by {
                                if q < n0.len() { assert(next@[q] == n0[q]); }
                            }
                            assert forall|w: SVar| ineqs_free_of_var(lowers@, w) && ineqs_free_of_var(uppers@, w)
                                && ineqs_free_of_var(others@, w) implies ineqs_free_of_var(next@, w) by {
                                assert(ineqs_free_of_var(n0, w));
                                assert forall|q: int| 0 <= q < next@.len() && (#[trigger] next@[q]).kind != Kind::Ne
                                    implies !mentions(next@[q].expr, w) by {
                                    if q < n0.len() { assert(next@[q] == n0[q]); }
                                }
                            }
                        }
                    }
                    ui = ui + 1;
                }
                li = li + 1;
            }
            *cs = next;
            proof {
                assert(ineqs_free_of_var(cs@, v));
            }
        }
        proof {
            assert forall|x: SVar| sv0.contains(x) implies survivors@.contains(x) by {
                if sv0 != survivors@ {
                    let r = choose|r: int| 0 <= r < sv0.len() && sv0[r] == x;
                    assert(survivors@[r] == sv0[r]);
                }
            }
            assert forall|q: int| 0 <= q < internal@.len() && !remaining@.contains(#[trigger] internal@[q])
                && !survivors@.contains(internal@[q]) implies ineqs_free_of_var(cs@, internal@[q]) by {
                let w = internal@[q];
                if w != v {
                    assert(!rem0.contains(w));
                    assert(!sv0.contains(w));
                    assert(ineqs_free_of_var(cs0, w));
                    assert(ineqs_free_of_var(lo, w) && ineqs_free_of_var(up, w) && ineqs_free_of_var(ot, w));
                } else {
                    assert(!over);
                }
            }
        }
    }
    // An internal variable left in a disequation survives.
    let mut k: usize = 0;
    while k < cs.len()
        invariant
            k <= cs@.len(),
            forall|q: int| 0 <= q < survivors@.len() ==> internal@.contains(#[trigger] survivors@[q]),
            forall|q: int| 0 <= q < internal@.len() && !remaining@.contains(#[trigger] internal@[q])
                && !survivors@.contains(internal@[q]) ==> ineqs_free_of_var(cs@, internal@[q]),
            forall|q: int, p: int| 0 <= q < internal@.len() && 0 <= p < k && (#[trigger] cs@[p]).kind == Kind::Ne
                && !survivors@.contains(internal@[q]) ==> !mentions(cs@[p].expr, #[trigger] internal@[q]),
            remaining@.len() == 0,
        decreases cs@.len() - k,
    {
        let ghost s_start = survivors@;
        if cs[k].kind == Kind::Ne {
            let e = &cs[k].expr;
            e.lemma_wf();
            let mut t: usize = 0;
            while t < e.num_terms()
                invariant
                    t <= e@.0.len(),
                    terms_wf(e@.0),
                    *e == cs@[k as int].expr,
                    forall|q: int| 0 <= q < survivors@.len() ==> internal@.contains(#[trigger] survivors@[q]),
                    forall|p: int| 0 <= p < t && internal@.contains(SVar(#[trigger] e@.0[p].0))
                        ==> survivors@.contains(SVar(e@.0[p].0)),
                    forall|w: SVar| s_start.contains(w) ==> survivors@.contains(w),
                    k < cs@.len(),
                decreases e@.0.len() - t,
            {
                let (w, _) = e.term(t);
                let ghost s0 = survivors@;
                if has_var(internal, w) && !has_var(&survivors, w) {
                    survivors.push(w);
                }
                proof {
                    assert forall|p: int| 0 <= p < t + 1 && internal@.contains(SVar(#[trigger] e@.0[p].0))
                        implies survivors@.contains(SVar(e@.0[p].0)) by {
                        if p < t {
                            let r = choose|r: int| 0 <= r < s0.len() && s0[r] == SVar(e@.0[p].0);
                            assert(survivors@[r] == s0[r]);
                        } else {
                            assert(SVar(e@.0[p].0) == w);
                            if !s0.contains(w) {
                                assert(survivors@[survivors@.len() - 1] == w);
                            } else {
                                let r = choose|r: int| 0 <= r < s0.len() && s0[r] == w;
                                assert(survivors@[r] == s0[r]);
                            }
                        }
                    }
                    assert forall|q: int| 0 <= q < survivors@.len() implies internal@.contains(#[trigger] survivors@[q]) by {
                        if q < s0.len() { assert(survivors@[q] == s0[q]); }
                    }
                    assert forall|x: SVar| s_start.contains(x) implies survivors@.contains(x) by {
                        let r = choose|r: int| 0 <= r < s0.len() && s0[r] == x;
                        assert(survivors@[r] == s0[r]);
                    }
                }
                t = t + 1;
            }
            proof {
                assert forall|q: int| 0 <= q < internal@.len() && !survivors@.contains(internal@[q])
                    implies !mentions(*e, #[trigger] internal@[q]) by {
                    assert forall|p: int| 0 <= p < e@.0.len() implies e@.0[p].0 != internal@[q].0 by {
                        if e@.0[p].0 == internal@[q].0 {
                            assert(SVar(e@.0[p].0) == internal@[q]);
                            assert(internal@.contains(SVar(e@.0[p].0)));
                        }
                    }
                    lemma_not_mentioned(*e, internal@[q].0);
                }
            }
        }
        k = k + 1;
    }
    survivors
}

} // verus!
