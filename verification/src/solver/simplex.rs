//! General simplex with bounds (Dutertre & de Moura, CAV 2006), exact.
//!
//! Every variable has a current value (a δ-rational) and optional lower and
//! upper bounds; basic variables are defined by a row `xᵢ = Σ aⱼ·xⱼ + c` over
//! non-basic variables. `check` repairs basic violations by Bland-rule
//! pivoting or reports infeasibility. Backtracking restores bounds only; rows
//! and variables created since a mark persist (unbounded, they constrain
//! nothing).

use vstd::prelude::*;
use crate::number::{Number, rat_add, rat_div, rat_mul, rat_lt, rat_le, rat_neg, rat_sub};
use super::delta::{Delta, delta_lt, delta_le, dens_ok, lemma_delta_split};
use super::linexpr::{LinExpr, lemma_coeff_in, terms_wf};

verus! {

/// A solver variable.
#[derive(Debug, Clone, Copy, PartialEq, Eq, Structural, Hash, PartialOrd, Ord)]
pub struct SVar(pub usize);

/// Numeric relations the solver accepts, all as `expr op 0`.
#[derive(Debug, Clone, Copy, PartialEq, Eq)]
pub enum RelOp {
    Lt,
    Le,
    Eq,
    Ge,
    Gt,
}

impl RelOp {
    /// The relation with both sides negated (`a < b` ⇔ `-a > -b`).
    pub fn flip(self) -> (r: RelOp)
        ensures
            r == flip_spec(self),
    {
        match self {
            RelOp::Lt => RelOp::Gt,
            RelOp::Le => RelOp::Ge,
            RelOp::Eq => RelOp::Eq,
            RelOp::Ge => RelOp::Le,
            RelOp::Gt => RelOp::Lt,
        }
    }
}

pub open spec fn flip_spec(op: RelOp) -> RelOp {
    match op {
        RelOp::Lt => RelOp::Gt,
        RelOp::Le => RelOp::Ge,
        RelOp::Eq => RelOp::Eq,
        RelOp::Ge => RelOp::Le,
        RelOp::Gt => RelOp::Lt,
    }
}

/// Negating both sides twice gives back the relation.
pub proof fn lemma_flip_involutive(op: RelOp)
    ensures
        flip_spec(flip_spec(op)) == op,
{
}

/// A bound to assert on a variable.
#[derive(Debug, Clone)]
pub enum Bound {
    Lower(Delta),
    Upper(Delta),
}

/// The view of a δ-rational.
pub type DeltaView = ((int, int), (int, int));

/// Lower and upper bound of one variable.
pub type BoundView = (Option<DeltaView>, Option<DeltaView>);

pub open spec fn opt_view(o: Option<Delta>) -> Option<DeltaView> {
    match o {
        Some(d) => Some(d@),
        None => None,
    }
}

/// Bounds of variable `v` in a snapshot; variables created later are unbounded.
pub open spec fn ext(s: Seq<BoundView>, v: int) -> BoundView {
    if 0 <= v < s.len() {
        s[v]
    } else {
        (None, None)
    }
}

/// `x` lies within bounds `b`: not below the lower, not above the upper.
pub open spec fn within(x: DeltaView, b: BoundView) -> bool {
    &&& (b.0 matches Some(l) ==> !delta_lt(x, l))
    &&& (b.1 matches Some(u) ==> !delta_lt(u, x))
}

/// The bounds present have positive denominators.
pub open spec fn bounds_dens(b: BoundView) -> bool {
    &&& (b.0 matches Some(l) ==> dens_ok(l))
    &&& (b.1 matches Some(u) ==> dens_ok(u))
}

/// The upper bound is not below the lower.
pub open spec fn consistent(b: BoundView) -> bool {
    !(b.0 is Some && b.1 is Some && delta_lt(b.1->0, b.0->0))
}

/// `b` is at least as tight as `old`.
pub open spec fn tightens(b: BoundView, old: BoundView) -> bool {
    &&& (old.0 matches Some(lo) ==> (b.0 matches Some(l) && !delta_lt(l, lo)))
    &&& (old.1 matches Some(uo) ==> (b.1 matches Some(u) && !delta_lt(uo, u)))
}

/// The expression mentions only variables below `n`.
pub open spec fn in_range(e: LinExpr, n: nat) -> bool {
    forall|u: usize| u >= n ==> #[trigger] e.coeff_spec(u).0 == 0
}

/// The constant `c` plus the first `n` terms of `t`, each variable valued by
/// `vals`, summed left to right.
pub open spec fn terms_value(vals: Seq<DeltaView>, t: Seq<(usize, (int, int))>, n: int, c: (int, int)) -> DeltaView
    decreases n,
{
    if n <= 0 {
        (c, (0int, 1int))
    } else {
        let prev = terms_value(vals, t, n - 1, c);
        let w = vals[t[n - 1].0 as int];
        let a = t[n - 1].1;
        (rat_add(prev.0, rat_mul(w.0, a)), rat_add(prev.1, rat_mul(w.1, a)))
    }
}

/// The bound that `x op r` places on `x`, as δ-rationals: strict bounds
/// move by one δ.
pub open spec fn bound_for(op: RelOp, r: (int, int)) -> DeltaView {
    match op {
        RelOp::Lt => (r, (-1int, 1int)),
        RelOp::Gt => (r, (1int, 1int)),
        _ => (r, (0int, 1int)),
    }
}

/// Bounds `b` of a variable `x` imply `x op r`.
pub open spec fn bound_holds(b: BoundView, op: RelOp, r: (int, int)) -> bool {
    let d = bound_for(op, r);
    match op {
        RelOp::Lt | RelOp::Le => b.1 matches Some(u) && delta_le(u, d),
        RelOp::Ge | RelOp::Gt => b.0 matches Some(l) && delta_le(d, l),
        RelOp::Eq => (b.0 matches Some(l) && delta_le(d, l)) && (b.1 matches Some(u) && delta_le(u, d)),
    }
}

/// Bounds `b` of a variable `x` contradict `x op r`.
pub open spec fn bound_conflicts(b: BoundView, op: RelOp, r: (int, int)) -> bool {
    let d = bound_for(op, r);
    match op {
        RelOp::Lt | RelOp::Le => b.0 matches Some(l) && delta_lt(d, l),
        RelOp::Ge | RelOp::Gt => b.1 matches Some(u) && delta_lt(u, d),
        RelOp::Eq => (b.1 matches Some(u) && delta_lt(u, d)) || (b.0 matches Some(l) && delta_lt(d, l)),
    }
}

/// The relation `a·x op c` places on `x`: flipped when `a` is negative.
pub open spec fn op_for_coeff(op: RelOp, a: (int, int)) -> RelOp {
    if a.0 < 0 { flip_spec(op) } else { op }
}

/// A point in the solver's bound history.
#[derive(Clone, Copy)]
pub struct Mark {
    trail: usize,
    snap: Ghost<Seq<BoundView>>,
}

impl Mark {
    /// The bounds when the mark was taken.
    pub closed spec fn snapshot(self) -> Seq<BoundView> {
        self.snap@
    }

    /// The length of the bound history when the mark was taken.
    pub closed spec fn position(self) -> nat {
        self.trail as nat
    }
}

#[derive(Debug)]
struct BoundUndo {
    var: SVar,
    lower: Option<Delta>,
    upper: Option<Delta>,
}

pub struct Simplex {
    lowers: Vec<Option<Delta>>,
    uppers: Vec<Option<Delta>>,
    values: Vec<Delta>,
    row_basic: Vec<SVar>,
    row_expr: Vec<LinExpr>,
    /// Basic variable → its row.
    row_of: Vec<Option<usize>>,
    trail: Vec<BoundUndo>,
    /// `snaps[t]`: the bounds just before trail entry `t` was pushed.
    snaps: Ghost<Seq<Seq<BoundView>>>,
}

fn copy_opt(o: &Option<Delta>) -> (r: Option<Delta>)
    ensures
        opt_view(r) == opt_view(*o),
{
    match o {
        Some(d) => Some(d.copy()),
        None => None,
    }
}

/// The `j`-th variable of an expression over variables below `n` is below `n`.
fn term_in_range(e: &LinExpr, j: usize, n: usize)
    requires
        in_range(*e, n as nat),
        j < e@.0.len(),
    ensures
        e@.0[j as int].0 < n,
{
    e.lemma_wf();
    proof {
        lemma_coeff_in(e@.0, e@.0[j as int].0);
        assert(e.coeff_spec(e@.0[j as int].0) == e@.0[j as int].1);
    }
}

/// True if every variable of `e` is below `n`.
pub fn fits(e: &LinExpr, n: usize) -> (b: bool)
    ensures
        b == in_range(*e, n as nat),
{
    e.lemma_wf();
    let mut j: usize = 0;
    while j < e.num_terms()
        invariant
            j <= e@.0.len(),
            terms_wf(e@.0),
            forall|i: int| 0 <= i < j ==> e@.0[i].0 < n,
        decreases e@.0.len() - j,
    {
        let (v, _) = e.term(j);
        if v.0 >= n {
            proof {
                lemma_coeff_in(e@.0, v.0);
                assert(e@.0[j as int].0 == v.0);
                assert(e.coeff_spec(v.0).0 != 0);
            }
            return false;
        }
        j = j + 1;
    }
    terms_below(e, n);
    true
}

/// Staying below `n` means staying below any larger bound.
pub proof fn lemma_in_range_mono(e: LinExpr, n: nat, m: nat)
    requires
        in_range(e, n),
        n <= m,
    ensures
        in_range(e, m),
{
}

/// An expression over variables below `n` has coefficient zero beyond.
fn terms_below(e: &LinExpr, n: usize)
    requires
        forall|j: int| 0 <= j < e@.0.len() ==> e@.0[j].0 < n,
    ensures
        in_range(*e, n as nat),
{
    e.lemma_wf();
    proof {
        assert forall|u: usize| u >= n implies #[trigger] e.coeff_spec(u).0 == 0 by {
            lemma_coeff_in(e@.0, u);
        }
    }
}

/// A value within tighter bounds is within looser ones.
proof fn lemma_within_loosen(x: DeltaView, cur: BoundView, old: BoundView)
    requires
        dens_ok(x),
        bounds_dens(cur),
        bounds_dens(old),
        within(x, cur),
        tightens(cur, old),
    ensures
        within(x, old),
{
    if let Some(lo) = old.0 {
        let l = cur.0->0;
        if delta_lt(x, lo) {
            lemma_delta_split(x, l, lo);
        }
    }
    if let Some(uo) = old.1 {
        let u = cur.1->0;
        if delta_lt(uo, x) {
            lemma_delta_split(uo, u, x);
        }
    }
}

/// Loosening consistent bounds keeps them consistent.
proof fn lemma_consistent_loosen(cur: BoundView, old: BoundView)
    requires
        bounds_dens(cur),
        bounds_dens(old),
        consistent(cur),
        tightens(cur, old),
    ensures
        consistent(old),
{
    if old.0 is Some && old.1 is Some && delta_lt(old.1->0, old.0->0) {
        let lo = old.0->0;
        let uo = old.1->0;
        let l = cur.0->0;
        let u = cur.1->0;
        lemma_delta_split(uo, u, lo);
        if delta_lt(u, lo) {
            lemma_delta_split(u, l, lo);
        }
    }
}

impl Simplex {
    /// The bounds of every variable.
    pub closed spec fn bounds(&self) -> Seq<BoundView> {
        Seq::new(self.lowers@.len(), |v: int| (opt_view(self.lowers@[v]), opt_view(self.uppers@[v])))
    }

    pub closed spec fn num_vars_spec(&self) -> nat {
        self.lowers@.len()
    }

    pub closed spec fn is_basic_spec(&self, v: usize) -> bool {
        v < self.row_of@.len() && self.row_of@[v as int].is_some()
    }

    /// `v` is not basic and no row mentions it: its own bounds are all that
    /// constrain it.
    pub closed spec fn isolated(&self, v: usize) -> bool {
        &&& v < self.row_of@.len()
        &&& self.row_of@[v as int] is None
        &&& forall|i: int| 0 <= i < self.row_expr@.len() ==> (#[trigger] self.row_expr@[i]).coeff_spec(v).0 == 0
    }

    /// The current value of every variable.
    pub closed spec fn values_spec(&self) -> Seq<DeltaView> {
        self.values@.map_values(|d: Delta| d@)
    }

    closed spec fn rows_wf(&self) -> bool {
        let n = self.lowers@.len();
        &&& self.uppers@.len() == n
        &&& self.values@.len() == n
        &&& self.row_of@.len() == n
        &&& self.row_basic@.len() == self.row_expr@.len()
        &&& forall|v: int| 0 <= v < n && (#[trigger] self.row_of@[v]).is_some() ==>
            self.row_of@[v].unwrap() < self.row_basic@.len()
            && self.row_basic@[self.row_of@[v].unwrap() as int].0 == v
        &&& forall|i: int| 0 <= i < self.row_basic@.len() ==>
            (#[trigger] self.row_basic@[i]).0 < n && self.row_of@[self.row_basic@[i].0 as int] == Some(i as usize)
        &&& forall|i: int| 0 <= i < self.row_expr@.len() ==> in_range(#[trigger] self.row_expr@[i], n)
        &&& forall|i: int, u: usize| 0 <= i < self.row_expr@.len() && u < n && self.row_of@[u as int].is_some()
            ==> (#[trigger] self.row_expr@[i].coeff_spec(u)).0 == 0
    }

    closed spec fn trail_wf(&self) -> bool {
        let n = self.lowers@.len();
        let t = self.trail@;
        let s = self.snaps@;
        &&& s.len() == t.len()
        &&& forall|i: int| 0 <= i < t.len() ==> (#[trigger] t[i]).var.0 < n && s[i].len() <= n
        &&& forall|i: int| 0 <= i < t.len() ==>
            (opt_view((#[trigger] t[i]).lower), opt_view(t[i].upper)) == ext(s[i], t[i].var.0 as int)
        &&& forall|i: int, v: int| 0 <= i < t.len() - 1 && v != t[i].var.0 ==>
            #[trigger] ext(s[i + 1], v) == ext(s[i], v)
        &&& t.len() > 0 ==> forall|v: int| 0 <= v < n && v != t.last().var.0 ==>
            #[trigger] self.bounds()[v] == ext(s.last(), v)
        &&& t.len() == 0 ==> true
    }

    /// The bounds that followed snapshot `i`: the next snapshot, or the
    /// current bounds.
    closed spec fn next_bound(&self, i: int, v: int) -> BoundView {
        if i + 1 < self.snaps@.len() {
            ext(self.snaps@[i + 1], v)
        } else {
            ext(self.bounds(), v)
        }
    }

    /// Variable `v`: exact parts, consistent bounds, and a non-basic value
    /// within them.
    closed spec fn var_ok(&self, v: int) -> bool {
        &&& dens_ok(self.values@[v]@)
        &&& bounds_dens(self.bounds()[v])
        &&& consistent(self.bounds()[v])
        &&& self.row_of@[v] is None ==> within(self.values@[v]@, self.bounds()[v])
    }

    /// Snapshot `i` on variable `v`: exact parts, and the bounds only
    /// tightened after it.
    closed spec fn snap_ok(&self, i: int, v: int) -> bool {
        &&& bounds_dens(ext(self.snaps@[i], v))
        &&& tightens(self.next_bound(i, v), ext(self.snaps@[i], v))
    }

    closed spec fn vals_wf(&self) -> bool {
        &&& forall|v: int| 0 <= v < self.lowers@.len() ==> #[trigger] self.var_ok(v)
        &&& forall|i: int, v: int| 0 <= i < self.snaps@.len() ==> #[trigger] self.snap_ok(i, v)
    }

    /// Well-formedness: consistent rows, a faithful bound history that only
    /// tightened, and non-basic values within their bounds.
    pub closed spec fn wf(&self) -> bool {
        self.rows_wf() && self.trail_wf() && self.vals_wf()
    }

    /// Every variable's current value lies within its bounds.
    pub open spec fn satisfied(&self) -> bool {
        forall|v: int| 0 <= v < self.num_vars_spec() ==> within(#[trigger] self.values_spec()[v], self.bounds()[v])
    }

    /// `m` was taken from this solver's history and can be returned to.
    pub closed spec fn valid_mark(&self, m: Mark) -> bool {
        &&& m.trail <= self.trail@.len()
        &&& m.snap@.len() <= self.lowers@.len()
        &&& m.trail < self.trail@.len() ==> forall|v: int| #[trigger] ext(self.snaps@[m.trail as int], v) == ext(m.snap@, v)
        &&& m.trail == self.trail@.len() ==> forall|v: int| 0 <= v < self.lowers@.len() ==> #[trigger] self.bounds()[v] == ext(m.snap@, v)
    }

    /// Changing values only, basic ones or non-basic ones to values within
    /// their bounds, keeps the solver well formed.
    proof fn lemma_values_only(&self, other: Simplex)
        requires
            other.wf(),
            self.lowers@ == other.lowers@,
            self.uppers@ == other.uppers@,
            self.values@.len() == other.values@.len(),
            self.row_of@ == other.row_of@,
            self.row_basic@ == other.row_basic@,
            self.row_expr@ == other.row_expr@,
            self.trail@ == other.trail@,
            self.snaps@ == other.snaps@,
            forall|v: int| 0 <= v < self.values@.len() && self.values@[v] != other.values@[v] ==>
                dens_ok(#[trigger] self.values@[v]@) && (other.row_of@[v] is Some || within(self.values@[v]@, other.bounds()[v])),
        ensures
            self.wf(),
            self.bounds() == other.bounds(),
            self.keeps_marks(&other),
    {
        assert(self.bounds() =~= other.bounds());
        assert forall|v: int| 0 <= v < self.lowers@.len() implies #[trigger] self.var_ok(v) by {
            assert(other.var_ok(v));
        }
        assert forall|i: int, v: int| 0 <= i < self.snaps@.len() implies #[trigger] self.snap_ok(i, v) by {
            assert(other.snap_ok(i, v));
            assert(self.next_bound(i, v) == other.next_bound(i, v));
        }
    }

    /// The bounds and their history decide bounds and marks.
    proof fn lemma_same_bounds(&self, other: Simplex)
        requires
            self.lowers@ == other.lowers@,
            self.uppers@ == other.uppers@,
            self.trail@ == other.trail@,
            self.snaps@ == other.snaps@,
        ensures
            self.bounds() == other.bounds(),
            self.keeps_marks(&other),
            self.same_history(&other),
    {
        assert(self.bounds() =~= other.bounds());
    }

    /// Same bounds and the same bound history.
    pub closed spec fn same_history(&self, other: &Simplex) -> bool {
        &&& self.lowers@ == other.lowers@
        &&& self.uppers@ == other.uppers@
        &&& self.trail@ == other.trail@
        &&& self.snaps@ == other.snaps@
    }

    /// Marks of `old` stay valid in `self`.
    pub open spec fn keeps_marks(&self, old: &Simplex) -> bool {
        forall|m: Mark| old.valid_mark(m) ==> #[trigger] self.valid_mark(m)
    }

    pub fn new() -> (s: Simplex)
        ensures
            s.wf(),
            s.num_vars_spec() == 0,
    {
        Simplex {
            lowers: Vec::new(),
            uppers: Vec::new(),
            values: Vec::new(),
            row_basic: Vec::new(),
            row_expr: Vec::new(),
            row_of: Vec::new(),
            trail: Vec::new(),
            snaps: Ghost(Seq::empty()),
        }
    }

    pub fn new_var(&mut self) -> (v: SVar)
        requires
            old(self).wf(),
        ensures
            final(self).wf(),
            v.0 == old(self).num_vars_spec(),
            final(self).num_vars_spec() == old(self).num_vars_spec() + 1,
            final(self).bounds() == old(self).bounds().push((None, None)),
            !final(self).is_basic_spec(v.0),
            final(self).unused_in_rows(v.0),
            forall|u: usize| u < v.0 ==> final(self).is_basic_spec(u) == old(self).is_basic_spec(u),
            final(self).keeps_marks(&*old(self)),
    {
        let ghost before = *self;
        let fresh: usize = self.lowers.len();
        self.lowers.push(None);
        self.uppers.push(None);
        self.values.push(Delta::zero());
        self.row_of.push(None);
        proof {
            let n = before.lowers@.len();
            assert(self.bounds() =~= before.bounds().push((None, None)));
            assert forall|v: int| 0 <= v < self.lowers@.len() implies #[trigger] self.var_ok(v) by {
                if v < n {
                    assert(before.var_ok(v));
                    assert(self.values@[v] == before.values@[v]);
                }
            }
            assert forall|i: int, v: int| 0 <= i < self.snaps@.len() implies #[trigger] self.snap_ok(i, v) by {
                assert(before.snap_ok(i, v));
                assert(ext(self.bounds(), v) == ext(before.bounds(), v));
                assert(self.next_bound(i, v) == before.next_bound(i, v));
            }
            let u: usize = fresh;
            assert forall|i: int| 0 <= i < self.row_expr@.len() implies (#[trigger] self.row_expr@[i].coeff_spec(u)).0 == 0 by {
                assert(in_range(before.row_expr@[i], n));
                assert(before.row_expr@[i].coeff_spec(u).0 == 0);
            }
            assert forall|i: int| 0 <= i < self.row_expr@.len() implies in_range(#[trigger] self.row_expr@[i], n + 1) by {
                assert(in_range(before.row_expr@[i], n));
            }
            assert forall|m: Mark| before.valid_mark(m) implies #[trigger] self.valid_mark(m) by {
                if m.trail == self.trail@.len() {
                    assert forall|v: int| 0 <= v < self.lowers@.len() implies #[trigger] self.bounds()[v] == ext(m.snap@, v) by {
                        if v < n {
                            assert(before.bounds()[v] == ext(m.snap@, v));
                        }
                    }
                }
            }
            if self.trail@.len() > 0 {
                assert forall|v: int| 0 <= v < self.lowers@.len() && v != self.trail@.last().var.0 implies
                    #[trigger] self.bounds()[v] == ext(self.snaps@.last(), v) by {
                    if v < n {
                        assert(before.bounds()[v] == ext(before.snaps@.last(), v));
                    } else {
                        assert(self.snaps@.last() == self.snaps@[self.trail@.len() - 1]);
                    }
                }
            }
        }
        SVar(fresh)
    }

    pub fn num_vars(&self) -> (n: usize)
        requires
            self.wf(),
        ensures
            n == self.num_vars_spec(),
    {
        self.lowers.len()
    }

    pub fn is_basic(&self, v: SVar) -> (b: bool)
        requires
            self.wf(),
            v.0 < self.num_vars_spec(),
        ensures
            b == self.is_basic_spec(v.0),
    {
        self.row_of[v.0].is_some()
    }

    /// Current value.
    pub fn value(&self, v: SVar) -> (d: &Delta)
        requires
            self.wf(),
            v.0 < self.num_vars_spec(),
        ensures
            d@ == self.values_spec()[v.0 as int],
    {
        &self.values[v.0]
    }

    pub fn lower(&self, v: SVar) -> (d: Option<&Delta>)
        requires
            self.wf(),
            v.0 < self.num_vars_spec(),
        ensures
            d.is_some() == self.bounds()[v.0 as int].0.is_some(),
            d.is_some() ==> Some(d.unwrap()@) == self.bounds()[v.0 as int].0,
    {
        match &self.lowers[v.0] {
            Some(d) => Some(d),
            None => None,
        }
    }

    pub fn upper(&self, v: SVar) -> (d: Option<&Delta>)
        requires
            self.wf(),
            v.0 < self.num_vars_spec(),
        ensures
            d.is_some() == self.bounds()[v.0 as int].1.is_some(),
            d.is_some() ==> Some(d.unwrap()@) == self.bounds()[v.0 as int].1,
    {
        match &self.uppers[v.0] {
            Some(d) => Some(d),
            None => None,
        }
    }

    /// The row defining a basic variable, if it is basic.
    pub fn row(&self, v: SVar) -> (r: Option<&LinExpr>)
        requires
            self.wf(),
            v.0 < self.num_vars_spec(),
        ensures
            r.is_some() == self.is_basic_spec(v.0),
            r.is_some() ==> in_range(*r.unwrap(), self.num_vars_spec()),
            r matches Some(e) ==> self.row_spec(v.0) == Some(e@),
            r is None ==> self.row_spec(v.0) is None,
    {
        match self.row_of[v.0] {
            Some(i) => Some(&self.row_expr[i]),
            None => None,
        }
    }

    /// Every variable has its bounds.
    pub proof fn lemma_bounds_len(&self)
        ensures
            self.bounds().len() == self.num_vars_spec(),
    {
    }

    /// The row of basic variable `v`, as terms and constant.
    pub closed spec fn row_spec(&self, v: usize) -> Option<(Seq<(usize, (int, int))>, (int, int))> {
        if v < self.row_of@.len() && self.row_of@[v as int] is Some && self.row_of@[v as int]->0 < self.row_expr@.len() {
            Some(self.row_expr@[self.row_of@[v as int]->0 as int]@)
        } else {
            None
        }
    }

    /// No row mentions `u`.
    pub closed spec fn unused_in_rows(&self, u: usize) -> bool {
        forall|i: int| 0 <= i < self.row_expr@.len() ==> (#[trigger] self.row_expr@[i].coeff_spec(u)).0 == 0
    }

    /// Rewrite `expr` over non-basic variables only.
    fn substitute(&self, expr: &LinExpr) -> (out: LinExpr)
        requires
            self.wf(),
            in_range(*expr, self.num_vars_spec()),
        ensures
            in_range(out, self.num_vars_spec()),
            forall|u: usize| self.is_basic_spec(u) ==> #[trigger] out.coeff_spec(u).0 == 0,
            forall|u: usize| expr.coeff_spec(u).0 == 0 && self.unused_in_rows(u) ==> #[trigger] out.coeff_spec(u).0 == 0,
    {
        let ghost n = self.lowers@.len();
        let mut out = LinExpr::constant(expr.constant_part().copy());
        expr.lemma_wf();
        let ghost es = expr@.0;
        let mut j: usize = 0;
        while j < expr.num_terms()
            invariant
                self.wf(),
                n == self.lowers@.len(),
                es == expr@.0,
                terms_wf(es),
                in_range(*expr, n),
                j <= es.len(),
                in_range(out, n),
                forall|u: usize| u < n && self.row_of@[u as int].is_some() ==> #[trigger] out.coeff_spec(u).0 == 0,
                forall|u: usize| (forall|q: int| 0 <= q < j ==> es[q].0 != u) && self.unused_in_rows(u) ==> #[trigger] out.coeff_spec(u).0 == 0,
            decreases es.len() - j,
        {
            let (w, a) = expr.term(j);
            term_in_range(expr, j, self.lowers.len());
            let ghost prev = out;
            match self.row_of[w.0] {
                Some(i) => {
                    out.add_scaled(&self.row_expr[i], a);
                    proof {
                        assert(in_range(self.row_expr@[i as int], n));
                        assert forall|u: usize| u >= n implies #[trigger] out.coeff_spec(u).0 == 0 by {
                            assert(prev.coeff_spec(u).0 == 0);
                            assert(self.row_expr@[i as int].coeff_spec(u).0 == 0);
                        }
                        assert forall|u: usize| u < n && self.row_of@[u as int].is_some() implies #[trigger] out.coeff_spec(u).0 == 0 by {
                            assert(prev.coeff_spec(u).0 == 0);
                            assert(self.row_expr@[i as int].coeff_spec(u).0 == 0);
                        }
                        assert forall|u: usize| (forall|q: int| 0 <= q < j + 1 ==> es[q].0 != u) && self.unused_in_rows(u) implies #[trigger] out.coeff_spec(u).0 == 0 by {
                            assert(prev.coeff_spec(u).0 == 0);
                            assert(self.row_expr@[i as int].coeff_spec(u).0 == 0);
                        }
                    }
                },
                None => {
                    out.add_term(w, a);
                    proof {
                        assert forall|u: usize| u >= n implies #[trigger] out.coeff_spec(u).0 == 0 by {
                            assert(prev.coeff_spec(u).0 == 0);
                        }
                        assert forall|u: usize| u < n && self.row_of@[u as int].is_some() implies #[trigger] out.coeff_spec(u).0 == 0 by {
                            assert(prev.coeff_spec(u).0 == 0);
                        }
                        assert forall|u: usize| (forall|q: int| 0 <= q < j + 1 ==> es[q].0 != u) && self.unused_in_rows(u) implies #[trigger] out.coeff_spec(u).0 == 0 by {
                            assert(es[j as int].0 != u);
                            assert(prev.coeff_spec(u).0 == 0);
                        }
                    }
                },
            }
            j = j + 1;
        }
        proof {
            assert forall|u: usize| expr.coeff_spec(u).0 == 0 && self.unused_in_rows(u) implies #[trigger] out.coeff_spec(u).0 == 0 by {
                lemma_coeff_in(es, u);
                assert forall|q: int| 0 <= q < j implies es[q].0 != u by {
                    if es[q].0 == u {
                        assert(expr.coeff_spec(u) == es[q].1);
                    }
                }
            }
        }
        out
    }

    /// The value of `expr` under the current assignment.
    fn eval(&self, expr: &LinExpr) -> (d: Delta)
        requires
            self.wf(),
            in_range(*expr, self.num_vars_spec()),
        ensures
            d@ == terms_value(self.values_spec(), expr@.0, expr@.0.len() as int, expr@.1),
    {
        let mut val = Delta::exact(expr.constant_part().copy());
        let mut j: usize = 0;
        while j < expr.num_terms()
            invariant
                self.wf(),
                in_range(*expr, self.num_vars_spec()),
                j <= expr@.0.len(),
                val@ == terms_value(self.values_spec(), expr@.0, j as int, expr@.1),
            decreases expr@.0.len() - j,
        {
            let (w, a) = expr.term(j);
            term_in_range(expr, j, self.lowers.len());
            val = val.plus(&self.values[w.0].scale(a));
            j = j + 1;
        }
        val
    }

    /// Define a fresh variable `v` (no bounds, non-basic, in no row) as `expr`.
    pub fn define(&mut self, v: SVar, expr: &LinExpr)
        requires
            old(self).wf(),
            v.0 < old(self).num_vars_spec(),
            !old(self).is_basic_spec(v.0),
            old(self).unused_in_rows(v.0),
            in_range(*expr, old(self).num_vars_spec()),
            expr.coeff_spec(v.0).0 == 0,
            old(self).bounds()[v.0 as int] == (None::<DeltaView>, None::<DeltaView>),
        ensures
            final(self).wf(),
            final(self).bounds() == old(self).bounds(),
            final(self).same_history(&*old(self)),
            final(self).keeps_marks(&*old(self)),
            final(self).num_vars_spec() == old(self).num_vars_spec(),
            final(self).is_basic_spec(v.0),
            forall|u: usize| u != v.0 ==> #[trigger] final(self).is_basic_spec(u) == old(self).is_basic_spec(u),
            forall|u: usize| #[trigger] final(self).unused_in_rows(u) ==> old(self).unused_in_rows(u),
    {
        let ghost before = *self;
        let ghost n = self.lowers@.len();
        let e = self.substitute(expr);
        let val = self.eval(&e);
        val.lemma_dens();
        self.values.set(v.0, val);
        proof {
            self.lemma_values_only(before);
        }
        let ghost prev = *self;
        let e2 = e.copy();
        self.row_basic.push(v);
        self.row_expr.push(e2);
        self.row_of.set(v.0, Some(self.row_basic.len() - 1));
        proof {
            let r = self.row_basic@.len() - 1;
            assert(self.row_expr@[r]@ == e@);
            assert forall|i: int| 0 <= i < self.row_expr@.len() implies in_range(#[trigger] self.row_expr@[i], n) by {
                if i == r {
                    assert forall|u: usize| u >= n implies #[trigger] self.row_expr@[i].coeff_spec(u).0 == 0 by {
                        assert(e.coeff_spec(u).0 == 0);
                    }
                } else {
                    assert(self.row_expr@[i] == before.row_expr@[i]);
                }
            }
            assert forall|i: int, u: usize| 0 <= i < self.row_expr@.len() && u < n && self.row_of@[u as int].is_some()
                implies (#[trigger] self.row_expr@[i].coeff_spec(u)).0 == 0 by {
                if i == r {
                    if u != v.0 {
                        assert(before.row_of@[u as int].is_some());
                        assert(before.is_basic_spec(u));
                    }
                    assert(e.coeff_spec(u) == self.row_expr@[i].coeff_spec(u));
                } else {
                    assert(self.row_expr@[i] == before.row_expr@[i]);
                    if u == v.0 {
                        assert(before.unused_in_rows(v.0));
                    }
                }
            }
            assert forall|i: int| 0 <= i < self.row_basic@.len() implies
                (#[trigger] self.row_basic@[i]).0 < n && self.row_of@[self.row_basic@[i].0 as int] == Some(i as usize) by {
                if i < r {
                    assert(self.row_basic@[i] == before.row_basic@[i]);
                    assert(before.row_basic@[i].0 != v.0);
                }
            }
            assert forall|w: int| 0 <= w < n && (#[trigger] self.row_of@[w]).is_some() implies
                self.row_of@[w].unwrap() < self.row_basic@.len()
                && self.row_basic@[self.row_of@[w].unwrap() as int].0 == w by {
                if w != v.0 {
                    assert(before.row_of@[w].is_some());
                }
            }
            assert(self.bounds() =~= before.bounds());
            assert(prev.bounds() =~= before.bounds());
            assert forall|w: int| 0 <= w < self.lowers@.len() implies #[trigger] self.var_ok(w) by {
                assert(prev.var_ok(w));
            }
            assert forall|i: int, w: int| 0 <= i < self.snaps@.len() implies #[trigger] self.snap_ok(i, w) by {
                assert(prev.snap_ok(i, w));
                assert(self.next_bound(i, w) == prev.next_bound(i, w));
            }
            assert forall|u: usize| #[trigger] self.unused_in_rows(u) implies before.unused_in_rows(u) by {
                assert forall|i: int| 0 <= i < before.row_expr@.len() implies (#[trigger] before.row_expr@[i].coeff_spec(u)).0 == 0 by {
                    assert(self.row_expr@[i] == before.row_expr@[i]);
                    assert(self.row_expr@[i].coeff_spec(u).0 == 0);
                }
            }
        }
    }

    /// A slack variable defined as `expr`.
    pub fn slack(&mut self, expr: &LinExpr) -> (s: SVar)
        requires
            old(self).wf(),
            in_range(*expr, old(self).num_vars_spec()),
        ensures
            final(self).wf(),
            final(self).num_vars_spec() == old(self).num_vars_spec() + 1,
            s.0 == old(self).num_vars_spec(),
            final(self).bounds() == old(self).bounds().push((None, None)),
            final(self).keeps_marks(&*old(self)),
            final(self).is_basic_spec(s.0),
    {
        let ghost before = *self;
        let s = self.new_var();
        proof {
            assert(expr.coeff_spec(s.0).0 == 0);
            assert forall|u: usize| u >= self.lowers@.len() implies #[trigger] expr.coeff_spec(u).0 == 0 by {
                assert(expr.coeff_spec(u).0 == 0);
            }
        }
        let ghost mid = *self;
        self.define(s, expr);
        s
    }

    // --- marks and undo ----------------------------------------------------

    /// The length of the bound history.
    pub closed spec fn history_len(&self) -> nat {
        self.trail@.len()
    }

    /// A valid mark lies within the history.
    /// A valid mark's bounds cover no more variables than exist.
    pub proof fn lemma_mark_snapshot(&self, m: Mark)
        requires
            self.valid_mark(m),
            self.wf(),
        ensures
            m.snapshot().len() <= self.num_vars_spec(),
    {
        self.lemma_bounds_len();
    }

    pub proof fn lemma_mark_within(&self, m: Mark)
        requires
            self.valid_mark(m),
        ensures
            m.position() <= self.history_len(),
    {
    }

    pub fn mark(&self) -> (m: Mark)
        requires
            self.wf(),
        ensures
            self.valid_mark(m),
            m.snapshot() == self.bounds(),
            m.position() == self.history_len(),
    {
        Mark { trail: self.trail.len(), snap: Ghost(self.bounds()) }
    }

    /// Restore all bounds to those at `mark`. Values stay (they satisfy the
    /// rows; `check` repairs bound violations lazily).
    pub fn undo_to(&mut self, mark: Mark)
        requires
            old(self).wf(),
            old(self).valid_mark(mark),
        ensures
            final(self).wf(),
            final(self).num_vars_spec() == old(self).num_vars_spec(),
            forall|v: int| 0 <= v < final(self).num_vars_spec() ==> #[trigger] final(self).bounds()[v] == ext(mark.snapshot(), v),
            final(self).valid_mark(mark),
            forall|m: Mark| old(self).valid_mark(m) && m.position() <= mark.position() ==> #[trigger] final(self).valid_mark(m),
            forall|u: usize| #[trigger] final(self).is_basic_spec(u) == old(self).is_basic_spec(u),
            forall|u: usize| #[trigger] final(self).row_spec(u) == old(self).row_spec(u),
    {
        proof {
            assert(self.snaps@ =~= self.snaps@.take(self.trail@.len() as int));
            assert(self.trail@ =~= self.trail@.take(self.trail@.len() as int));
        }
        while self.trail.len() > mark.trail
            invariant
                self.wf(),
                self.valid_mark(mark),
                self.num_vars_spec() == old(self).num_vars_spec(),
                self.row_of@ == old(self).row_of@,
                self.row_basic@ == old(self).row_basic@,
                self.row_expr@ == old(self).row_expr@,
                self.trail@.len() <= old(self).trail@.len(),
                old(self).snaps@.len() == old(self).trail@.len(),
                self.snaps@ == old(self).snaps@.take(self.trail@.len() as int),
                self.trail@ == old(self).trail@.take(self.trail@.len() as int),
                forall|m: Mark| old(self).valid_mark(m) && m.position() <= mark.position() ==> #[trigger] self.valid_mark(m),
            decreases self.trail.len(),
        {
            let ghost before = *self;
            let u = self.trail.pop().unwrap();
            let x = u.var.0;
            self.lowers.set(x, u.lower);
            self.uppers.set(x, u.upper);
            proof {
                let t = before.trail@.len() - 1;
                self.snaps@ = self.snaps@.drop_last();
                assert(self.trail@.len() == t);
                assert(before.snaps@ == old(self).snaps@.take(t + 1));
                assert(self.snaps@ == before.snaps@.drop_last());
                assert(self.snaps@ =~= old(self).snaps@.take(self.trail@.len() as int));
                assert(self.trail@ =~= old(self).trail@.take(self.trail@.len() as int));
                let s = before.snaps@;
                assert(self.trail@ =~= before.trail@.drop_last());
                // The bounds are now those of snapshot t.
                assert forall|v: int| 0 <= v < self.lowers@.len() implies #[trigger] self.bounds()[v] == ext(s[t], v) by {
                    if v != x {
                        assert(before.bounds()[v] == self.bounds()[v]);
                        assert(before.bounds()[v] == ext(s.last(), v));
                    }
                }
                if self.trail@.len() > 0 {
                    assert forall|v: int| 0 <= v < self.lowers@.len() && v != self.trail@.last().var.0 implies
                        #[trigger] self.bounds()[v] == ext(self.snaps@.last(), v) by {
                        assert(ext(s[t - 1 + 1], v) == ext(s[t - 1], v));
                    }
                }
                assert forall|i: int, v: int| 0 <= i < self.trail@.len() - 1 && v != self.trail@[i].var.0 implies
                    #[trigger] ext(self.snaps@[i + 1], v) == ext(self.snaps@[i], v) by {
                    assert(ext(s[i + 1], v) == ext(s[i], v));
                }
                assert forall|m: Mark| before.valid_mark(m) && m.trail <= self.trail@.len() implies #[trigger] self.valid_mark(m) by {
                    if m.trail == self.trail@.len() {
                        assert forall|v: int| 0 <= v < self.lowers@.len() implies #[trigger] self.bounds()[v] == ext(m.snap@, v) by {
                            assert(ext(s[t], v) == ext(m.snap@, v));
                        }
                    }
                }
                // The restored bounds of x are looser than those they replace.
                let xi = x as int;
                assert(xi < self.lowers@.len());
                assert(before.snap_ok(t, xi));
                assert(before.next_bound(t, xi) == before.bounds()[xi]);
                assert(self.bounds()[xi] == ext(s[t], xi));
                assert(before.var_ok(xi));
                lemma_consistent_loosen(before.bounds()[xi], self.bounds()[xi]);
                if self.row_of@[xi] is None {
                    lemma_within_loosen(self.values@[xi]@, before.bounds()[xi], self.bounds()[xi]);
                }
                assert forall|v: int| 0 <= v < self.lowers@.len() implies #[trigger] self.var_ok(v) by {
                    assert(before.var_ok(v));
                    if v != xi {
                        assert(before.bounds()[v] == self.bounds()[v]);
                    }
                }
                assert forall|i: int, v: int| 0 <= i < self.snaps@.len() implies #[trigger] self.snap_ok(i, v) by {
                    assert(before.snap_ok(i, v));
                    assert(self.snaps@[i] == s[i]);
                    if i + 1 < self.snaps@.len() {
                        assert(self.snaps@[i + 1] == s[i + 1]);
                    } else {
                        assert(i + 1 == t);
                        if 0 <= v < self.lowers@.len() {
                            assert(self.bounds()[v] == ext(s[t], v));
                        } else {
                            assert(ext(self.bounds(), v) == ext(s[t], v));
                        }
                    }
                }
            }
        }
    }

    /// True if any bound changed since `mark`.
    pub fn changed_since(&self, mark: Mark) -> (b: bool)
        requires
            self.wf(),
            self.valid_mark(mark),
        ensures
            b == (self.history_len() > mark.position()),
            !b ==> forall|v: int| 0 <= v < self.num_vars_spec() ==> #[trigger] self.bounds()[v] == ext(mark.snapshot(), v),
    {
        self.trail.len() > mark.trail
    }

    /// Record the bounds of `x` before changing them.
    fn save(&mut self, x: SVar)
        requires
            old(self).wf(),
            x.0 < old(self).num_vars_spec(),
        ensures
            final(self).rows_wf(),
            final(self).lowers@ == old(self).lowers@,
            final(self).uppers@ == old(self).uppers@,
            final(self).values@ == old(self).values@,
            final(self).row_of@ == old(self).row_of@,
            final(self).row_basic@ == old(self).row_basic@,
            final(self).row_expr@ == old(self).row_expr@,
            final(self).trail@.len() == old(self).trail@.len() + 1,
            final(self).trail@.last().var == x,
            final(self).trail@.drop_last() == old(self).trail@,
            final(self).snaps@ == old(self).snaps@.push(old(self).bounds()),
            final(self).wf(),
            final(self).keeps_marks(&*old(self)),
    {
        let ghost before = *self;
        let lower = copy_opt(&self.lowers[x.0]);
        let upper = copy_opt(&self.uppers[x.0]);
        self.trail.push(BoundUndo { var: x, lower, upper });
        proof {
            self.snaps@ = self.snaps@.push(before.bounds());
            let t = self.trail@;
            let s = self.snaps@;
            assert(t.drop_last() =~= before.trail@);
            assert forall|i: int| 0 <= i < t.len() implies (#[trigger] t[i]).var.0 < self.lowers@.len() && s[i].len() <= self.lowers@.len() by {
                if i < t.len() - 1 {
                    assert(t[i] == before.trail@[i]);
                }
            }
            assert forall|i: int| 0 <= i < t.len() implies
                (opt_view((#[trigger] t[i]).lower), opt_view(t[i].upper)) == ext(s[i], t[i].var.0 as int) by {
                if i < t.len() - 1 {
                    assert(t[i] == before.trail@[i]);
                }
            }
            assert forall|i: int, v: int| 0 <= i < t.len() - 1 && v != t[i].var.0 implies
                #[trigger] ext(s[i + 1], v) == ext(s[i], v) by {
                if i < t.len() - 2 {
                    assert(t[i] == before.trail@[i]);
                } else {
                    assert(t[i] == before.trail@.last());
                    if 0 <= v < self.lowers@.len() {
                        assert(before.bounds()[v] == ext(before.snaps@.last(), v));
                    }
                }
            }
            assert forall|m: Mark| before.valid_mark(m) implies #[trigger] self.valid_mark(m) by {
                if m.trail == before.trail@.len() {
                    assert forall|v: int| #[trigger] ext(s[m.trail as int], v) == ext(m.snap@, v) by {
                        if 0 <= v < self.lowers@.len() {
                            assert(before.bounds()[v] == ext(m.snap@, v));
                        }
                    }
                }
            }
            assert(self.bounds() =~= before.bounds());
            assert forall|v: int| 0 <= v < self.lowers@.len() implies #[trigger] self.var_ok(v) by {
                assert(before.var_ok(v));
            }
            assert forall|i: int, v: int| 0 <= i < s.len() implies #[trigger] self.snap_ok(i, v) by {
                if i < s.len() - 1 {
                    assert(before.snap_ok(i, v));
                    assert(s[i] == before.snaps@[i]);
                    if i + 1 < s.len() - 1 {
                        assert(self.next_bound(i, v) == before.next_bound(i, v));
                    } else {
                        assert(s[i + 1] == before.bounds());
                    }
                } else {
                    assert(s[i] == before.bounds());
                    if 0 <= v < self.lowers@.len() {
                        assert(before.var_ok(v));
                    }
                }
            }
        }
    }

    // --- assertions --------------------------------------------------------

    /// Set the value of non-basic `x` to `v`, moving every basic variable
    /// along its row.
    fn update(&mut self, x: SVar, v: Delta)
        requires
            old(self).wf(),
            x.0 < old(self).num_vars_spec(),
            within(v@, old(self).bounds()[x.0 as int]),
        ensures
            final(self).wf(),
            final(self).values@[x.0 as int]@ == v@,
            final(self).values@.len() == old(self).values@.len(),
            final(self).bounds() == old(self).bounds(),
            final(self).lowers@ == old(self).lowers@,
            final(self).uppers@ == old(self).uppers@,
            final(self).row_of@ == old(self).row_of@,
            final(self).row_basic@ == old(self).row_basic@,
            final(self).row_expr@ == old(self).row_expr@,
            final(self).trail@ == old(self).trail@,
            final(self).snaps@ == old(self).snaps@,
            old(self).isolated(x.0) ==> forall|w: int| 0 <= w < old(self).values@.len() && w != x.0
                ==> #[trigger] final(self).values@[w]@ == old(self).values@[w]@,
    {
        let diff = v.minus(&self.values[x.0]);
        v.lemma_dens();
        let mut i: usize = 0;
        while i < self.row_basic.len()
            invariant
                self.wf(),
                self.lowers@ == old(self).lowers@,
                self.uppers@ == old(self).uppers@,
                self.row_of@ == old(self).row_of@,
                self.row_basic@ == old(self).row_basic@,
                self.row_expr@ == old(self).row_expr@,
                self.trail@ == old(self).trail@,
                self.snaps@ == old(self).snaps@,
                x.0 < self.num_vars_spec(),
                within(v@, self.bounds()[x.0 as int]),
                dens_ok(v@),
                self.values@.len() == old(self).values@.len(),
                old(self).isolated(x.0) ==> forall|w: int| 0 <= w < old(self).values@.len()
                    ==> #[trigger] self.values@[w]@ == old(self).values@[w]@,
            decreases self.row_basic.len() - i,
        {
            proof {
                if old(self).isolated(x.0) {
                    assert(self.row_expr@[i as int].coeff_spec(x.0).0 == 0);
                }
            }
            if let Some(a) = self.row_expr[i].coeff(x) {
                let b = self.row_basic[i].0;
                let nv = self.values[b].plus(&diff.scale(a));
                nv.lemma_dens();
                let ghost prev = *self;
                self.values.set(b, nv);
                proof {
                    assert(prev.row_of@[b as int] == Some(i));
                    self.lemma_values_only(prev);
                }
            }
            i = i + 1;
        }
        let ghost prev = *self;
        proof {
            self.lemma_same_bounds(*old(self));
        }
        self.values.set(x.0, v);
        proof {
            self.lemma_values_only(prev);
            assert(self.bounds() =~= old(self).bounds());
        }
    }

    /// Assert `x >= l`. Returns feasibility; on `false` the caller undoes.
    pub fn assert_lower(&mut self, x: SVar, l: Delta) -> (ok: bool)
        requires
            old(self).wf(),
            x.0 < old(self).num_vars_spec(),
        ensures
            final(self).wf(),
            final(self).keeps_marks(&*old(self)),
            final(self).num_vars_spec() == old(self).num_vars_spec(),
            old(self).bounds()[x.0 as int].1 matches Some(u) && delta_lt(u, l@) ==> !ok && final(self).bounds() == old(self).bounds(),
            final(self).bounds() == old(self).bounds() || final(self).bounds() == old(self).bounds().update(
                x.0 as int, (Some(l@), old(self).bounds()[x.0 as int].1)),
            old(self).bounds()[x.0 as int].0 matches Some(c) && delta_le(l@, c) && !(old(self).bounds()[x.0 as int].1 matches Some(u) && delta_lt(u, l@))
                ==> ok && final(self).bounds() == old(self).bounds(),
            ok ==> (final(self).bounds()[x.0 as int].0 matches Some(c) && delta_le(l@, c)),
            old(self).satisfied() && old(self).isolated(x.0)
                && !(old(self).bounds()[x.0 as int].1 matches Some(u) && delta_lt(u, l@)) ==> ok,
    {
        if let Some(u) = &self.uppers[x.0] {
            if u.less_than(&l) {
                return false;
            }
        }
        if let Some(cur) = &self.lowers[x.0] {
            if l.less_eq(cur) {
                return true;
            }
        }
        l.lemma_dens();
        self.save(x);
        let nl = l.copy();
        if !self.is_basic(x) && self.values[x.0].less_than(&l) {
            self.update(x, l);
        }
        let ghost saved = *self;
        self.lowers.set(x.0, Some(nl));
        proof {
            assert(self.bounds() =~= saved.bounds().update(x.0 as int, (Some(nl@), saved.bounds()[x.0 as int].1)));
            assert(saved.var_ok(x.0 as int));
            self.lemma_bound_change(saved, x);
            if old(self).satisfied() && old(self).isolated(x.0) {
                assert forall|w: int| 0 <= w < self.num_vars_spec()
                    implies within(#[trigger] self.values_spec()[w], self.bounds()[w]) by {
                    assert(within(old(self).values_spec()[w], old(self).bounds()[w]));
                    if w != x.0 {
                        assert(self.values@[w]@ == old(self).values@[w]@);
                    }
                }
            }
        }
        self.check()
    }

    /// Assert `x <= u`. Returns feasibility; on `false` the caller undoes.
    pub fn assert_upper(&mut self, x: SVar, u: Delta) -> (ok: bool)
        requires
            old(self).wf(),
            x.0 < old(self).num_vars_spec(),
        ensures
            final(self).wf(),
            final(self).keeps_marks(&*old(self)),
            final(self).num_vars_spec() == old(self).num_vars_spec(),
            old(self).bounds()[x.0 as int].0 matches Some(l) && delta_lt(u@, l) ==> !ok && final(self).bounds() == old(self).bounds(),
            final(self).bounds() == old(self).bounds() || final(self).bounds() == old(self).bounds().update(
                x.0 as int, (old(self).bounds()[x.0 as int].0, Some(u@))),
            old(self).bounds()[x.0 as int].1 matches Some(c) && delta_le(c, u@) && !(old(self).bounds()[x.0 as int].0 matches Some(l) && delta_lt(u@, l))
                ==> ok && final(self).bounds() == old(self).bounds(),
            ok ==> (final(self).bounds()[x.0 as int].1 matches Some(c) && delta_le(c, u@)),
            old(self).satisfied() && old(self).isolated(x.0)
                && !(old(self).bounds()[x.0 as int].0 matches Some(l) && delta_lt(u@, l)) ==> ok,
    {
        if let Some(l) = &self.lowers[x.0] {
            if u.less_than(l) {
                return false;
            }
        }
        if let Some(cur) = &self.uppers[x.0] {
            if cur.less_eq(&u) {
                return true;
            }
        }
        u.lemma_dens();
        self.save(x);
        let nu = u.copy();
        if !self.is_basic(x) && u.less_than(&self.values[x.0]) {
            self.update(x, u);
        }
        let ghost saved = *self;
        self.uppers.set(x.0, Some(nu));
        proof {
            assert(self.bounds() =~= saved.bounds().update(x.0 as int, (saved.bounds()[x.0 as int].0, Some(nu@))));
            assert(saved.var_ok(x.0 as int));
            self.lemma_bound_change(saved, x);
            if old(self).satisfied() && old(self).isolated(x.0) {
                assert forall|w: int| 0 <= w < self.num_vars_spec()
                    implies within(#[trigger] self.values_spec()[w], self.bounds()[w]) by {
                    assert(within(old(self).values_spec()[w], old(self).bounds()[w]));
                    if w != x.0 {
                        assert(self.values@[w]@ == old(self).values@[w]@);
                    }
                }
            }
        }
        self.check()
    }

    /// After `save(x)` and a change of `x`'s bounds the history is still
    /// faithful.
    proof fn lemma_bound_change(&self, saved: Simplex, x: SVar)
        requires
            saved.wf(),
            saved.trail@.len() > 0,
            saved.trail@.last().var == x,
            saved.snaps@.last() == saved.bounds(),
            self.rows_wf(),
            self.trail@ == saved.trail@,
            self.snaps@ == saved.snaps@,
            self.values@ == saved.values@,
            self.lowers@.len() == saved.lowers@.len(),
            x.0 < self.lowers@.len(),
            forall|v: int| 0 <= v < self.lowers@.len() && v != x.0 ==> #[trigger] self.bounds()[v] == saved.bounds()[v],
            self.row_of@ == saved.row_of@,
            bounds_dens(self.bounds()[x.0 as int]),
            consistent(self.bounds()[x.0 as int]),
            self.row_of@[x.0 as int] is None ==> within(self.values@[x.0 as int]@, self.bounds()[x.0 as int]),
            tightens(self.bounds()[x.0 as int], saved.bounds()[x.0 as int]),
        ensures
            self.wf(),
            forall|m: Mark| saved.valid_mark(m) && m.trail < saved.trail@.len() ==> #[trigger] self.valid_mark(m),
    {
        assert forall|v: int| 0 <= v < self.lowers@.len() implies #[trigger] self.var_ok(v) by {
            assert(saved.var_ok(v));
        }
        assert forall|i: int, v: int| 0 <= i < self.snaps@.len() implies #[trigger] self.snap_ok(i, v) by {
            assert(saved.snap_ok(i, v));
            if i + 1 < self.snaps@.len() {
                assert(self.next_bound(i, v) == saved.next_bound(i, v));
            } else if v != x.0 {
                if 0 <= v < self.lowers@.len() {
                    assert(self.bounds()[v] == saved.bounds()[v]);
                }
                assert(ext(self.bounds(), v) == ext(saved.bounds(), v));
            }
        }
        assert forall|v: int| 0 <= v < self.lowers@.len() && v != self.trail@.last().var.0 implies
            #[trigger] self.bounds()[v] == ext(self.snaps@.last(), v) by {
            assert(saved.bounds()[v] == ext(saved.snaps@.last(), v));
        }
        assert forall|m: Mark| saved.valid_mark(m) && m.trail < saved.trail@.len() implies #[trigger] self.valid_mark(m) by {}
    }

    pub fn assert_bound(&mut self, x: SVar, b: Bound) -> (ok: bool)
        requires
            old(self).wf(),
            x.0 < old(self).num_vars_spec(),
        ensures
            final(self).wf(),
            final(self).keeps_marks(&*old(self)),
            final(self).num_vars_spec() == old(self).num_vars_spec(),
            ok ==> match b {
                Bound::Lower(l) => (final(self).bounds()[x.0 as int].0 matches Some(c) && delta_le(l@, c)),
                Bound::Upper(u) => (final(self).bounds()[x.0 as int].1 matches Some(c) && delta_le(c, u@)),
            },
            b matches Bound::Lower(l) ==> ((old(self).bounds()[x.0 as int].1 matches Some(u) && delta_lt(u, l@))
                ==> !ok && final(self).bounds() == old(self).bounds()),
            b matches Bound::Lower(l) ==> (final(self).bounds() == old(self).bounds() || final(self).bounds()
                == old(self).bounds().update(x.0 as int, (Some(l@), old(self).bounds()[x.0 as int].1))),
            b matches Bound::Lower(l) ==> ((old(self).bounds()[x.0 as int].0 matches Some(c) && delta_le(l@, c)
                && !(old(self).bounds()[x.0 as int].1 matches Some(u) && delta_lt(u, l@)))
                ==> ok && final(self).bounds() == old(self).bounds()),
            b matches Bound::Upper(u) ==> ((old(self).bounds()[x.0 as int].0 matches Some(l) && delta_lt(u@, l))
                ==> !ok && final(self).bounds() == old(self).bounds()),
            b matches Bound::Upper(u) ==> (final(self).bounds() == old(self).bounds() || final(self).bounds()
                == old(self).bounds().update(x.0 as int, (old(self).bounds()[x.0 as int].0, Some(u@)))),
            b matches Bound::Upper(u) ==> ((old(self).bounds()[x.0 as int].1 matches Some(c) && delta_le(c, u@)
                && !(old(self).bounds()[x.0 as int].0 matches Some(l) && delta_lt(u@, l)))
                ==> ok && final(self).bounds() == old(self).bounds()),
    {
        match b {
            Bound::Lower(l) => self.assert_lower(x, l),
            Bound::Upper(u) => self.assert_upper(x, u),
        }
    }

    /// Assert `x = c`: on success `x` lies between bounds `c` and `c`.
    pub fn fix(&mut self, x: SVar, c: Number) -> (ok: bool)
        requires
            old(self).wf(),
            x.0 < old(self).num_vars_spec(),
        ensures
            final(self).wf(),
            final(self).keeps_marks(&*old(self)),
            final(self).num_vars_spec() == old(self).num_vars_spec(),
            ok ==> (final(self).bounds()[x.0 as int].0 matches Some(l) && delta_le((c@, (0int, 1int)), l)),
            ok ==> (final(self).bounds()[x.0 as int].1 matches Some(u) && delta_le(u, (c@, (0int, 1int)))),
            old(self).bounds()[x.0 as int].1 matches Some(u) && delta_lt(u, (c@, (0int, 1int))) ==> !ok,
            old(self).bounds()[x.0 as int].0 matches Some(l) && delta_lt((c@, (0int, 1int)), l) ==> !ok,
            old(self).bounds()[x.0 as int] == (Some((c@, (0int, 1int))), Some((c@, (0int, 1int))))
                ==> ok && final(self).bounds() == old(self).bounds(),
    {
        let d = Delta::exact(c);
        let d2 = d.copy();
        self.assert_lower(x, d) && self.assert_upper(x, d2)
    }

    /// Assert `expr op 0`. Returns feasibility; on `false` the caller undoes.
    pub fn assert_constraint(&mut self, expr: &LinExpr, op: RelOp) -> (ok: bool)
        requires
            old(self).wf(),
            in_range(*expr, old(self).num_vars_spec()),
        ensures
            final(self).wf(),
            final(self).keeps_marks(&*old(self)),
            final(self).num_vars_spec() >= old(self).num_vars_spec(),
            expr@.0.len() == 0 ==> *final(self) == *old(self),
            expr@.0.len() == 1 && ok ==> bound_holds(final(self).bounds()[expr@.0[0].0 as int], op_for_coeff(op, expr@.0[0].1),
                rat_div(rat_neg(expr@.1), expr@.0[0].1)),
            expr@.0.len() == 1 && bound_conflicts(old(self).bounds()[expr@.0[0].0 as int], op_for_coeff(op, expr@.0[0].1),
                rat_div(rat_neg(expr@.1), expr@.0[0].1)) ==> !ok,
            expr@.0.len() >= 2 && ok ==> final(self).num_vars_spec() == old(self).num_vars_spec() + 1
                && bound_holds(final(self).bounds()[old(self).num_vars_spec() as int], op, rat_neg(expr@.1)),
            expr@.0.len() == 0 ==> final(self).bounds() == old(self).bounds() && ok == (match op {
                RelOp::Lt => rat_lt((0int, 1int), rat_neg(expr@.1)),
                RelOp::Le => rat_le((0int, 1int), rat_neg(expr@.1)),
                RelOp::Eq => (0int, 1int) == rat_neg(expr@.1),
                RelOp::Ge => rat_le(rat_neg(expr@.1), (0int, 1int)),
                RelOp::Gt => rat_lt(rat_neg(expr@.1), (0int, 1int)),
            }),
    {
        // Σ a·x + c op 0  ⇔  Σ a·x op −c
        let rhs = expr.constant_part().negate();
        let z = Number::zero();
        if expr.is_constant() {
            return match op {
                RelOp::Lt => z.less_than(&rhs),
                RelOp::Le => z.less_eq(&rhs),
                RelOp::Eq => z.equals(&rhs),
                RelOp::Ge => rhs.less_eq(&z),
                RelOp::Gt => rhs.less_than(&z),
            };
        }
        let ghost n = self.lowers@.len();
        let (var, op, rhs) = if expr.num_terms() == 1 {
            // Single term a·x: bound on x directly (flip for negative a).
            let (v, a) = expr.term(0);
            term_in_range(expr, 0, self.lowers.len());
            let r = match rhs.divide(a) {
                Some(r) => r,
                None => { return false; },
            };
            let op = if a.is_negative() { op.flip() } else { op };
            (v, op, r)
        } else {
            let mut lhs = expr.copy();
            lhs.set_constant(Number::zero());
            proof {
                assert forall|u: usize| u >= n implies #[trigger] lhs.coeff_spec(u).0 == 0 by {
                    assert(expr.coeff_spec(u).0 == 0);
                }
            }
            (self.slack(&lhs), op, rhs)
        };
        let ghost mid = *self;
        let r = match op {
            RelOp::Lt => self.assert_upper(var, Delta::new(rhs, Number::from_i64(-1))),
            RelOp::Le => self.assert_upper(var, Delta::exact(rhs)),
            RelOp::Eq => self.fix(var, rhs),
            RelOp::Ge => self.assert_lower(var, Delta::exact(rhs)),
            RelOp::Gt => self.assert_lower(var, Delta::new(rhs, Number::one())),
        };
        r
    }

    /// If `x` can take only one value in the current store, that value.
    /// Probes both strict sides and leaves the bounds as they were.
    pub fn is_determined(&mut self, x: SVar) -> (r: Option<Number>)
        requires
            old(self).wf(),
            x.0 < old(self).num_vars_spec(),
        ensures
            final(self).wf(),
            final(self).bounds() == old(self).bounds(),
            final(self).keeps_marks(&*old(self)),
            final(self).num_vars_spec() == old(self).num_vars_spec(),
            old(self).satisfied() && old(self).bounds()[x.0 as int].0 is Some
                && old(self).bounds()[x.0 as int].0 == old(self).bounds()[x.0 as int].1 ==> {
                let d = old(self).bounds()[x.0 as int].0->0;
                &&& d.1.0 == 0 ==> (r matches Some(c) && c@ == d.0)
                &&& d.1.0 != 0 ==> r is None
            },
            r is Some ==> exists|k: (int, int)| k.0 == 0 && #[trigger] within((r->0@, k), old(self).bounds()[x.0 as int]),
            r is Some && old(self).satisfied() && old(self).isolated(x.0) ==> (old(self).bounds()[x.0 as int].0 matches Some(l)
                && ((l.0 == r->0@ && l.1.0 == 0) || exists|k0: (int, int)| k0.0 == 0
                    && #[trigger] delta_lt((r->0@, rat_sub(k0, (1int, 1int))), l))),
    {
        if !self.check() {
            return None;
        }
        // Cheap case: coinciding bounds.
        if let Some(l) = &self.lowers[x.0] {
            if let Some(u) = &self.uppers[x.0] {
                if l.equals(u) {
                    proof {
                        assert(self.bounds()[x.0 as int] == (Some(l@), Some(u@)));
                        assert(within(l@, self.bounds()[x.0 as int]));
                        assert(within((l.c@, l@.1), old(self).bounds()[x.0 as int]));
                    }
                    if l.is_exact() {
                        let r = Some(l.c.copy());
                        proof {
                            assert(within((r->0@, l@.1), old(self).bounds()[x.0 as int]) && l@.1.0 == 0);
                            assert(exists|k: (int, int)| k.0 == 0 && #[trigger] within((r->0@, k), old(self).bounds()[x.0 as int]));
                        }
                        return r;
                    }
                    return None;
                }
            }
        }
        let v = self.values[x.0].copy();
        proof {
            assert(self.values_spec()[x.0 as int] == v@);
            assert(within(v@, old(self).bounds()[x.0 as int]));
        }
        let mark = self.mark();
        let ghost at_mark = *self;
        proof {
            assert forall|m: Mark| old(self).valid_mark(m) implies m.position() <= mark.position() by {
                assert(at_mark.valid_mark(m));
            }
        }
        let one = Number::one();
        let below = self.assert_upper(x, Delta::new(v.c.copy(), v.k.minus(&one)));
        self.undo_to(mark);
        proof {
            assert(self.bounds() =~= at_mark.bounds());
        }
        if below {
            self.check();
            return None;
        }
        let above = self.assert_lower(x, Delta::new(v.c.copy(), v.k.plus(&one)));
        self.undo_to(mark);
        proof {
            assert(self.bounds() =~= at_mark.bounds());
        }
        self.check();
        if above {
            return None;
        }
        // A fixed value is a genuine rational: an infinitesimal part means
        // the value is not one the constraints can pin down.
        if !v.is_exact() {
            return None;
        }
        proof {
            assert(within((v.c@, v@.1), old(self).bounds()[x.0 as int]) && v@.1.0 == 0);
        }
        let r = Some(v.c);
        proof {
            if old(self).satisfied() && old(self).isolated(x.0) {
                assert(at_mark == *old(self));
                let l = old(self).bounds()[x.0 as int].0->0;
                assert(delta_lt((r->0@, rat_sub(v@.1, (1int, 1int))), l));
            }
            assert(within((r->0@, v@.1), old(self).bounds()[x.0 as int]));
            assert(exists|k: (int, int)| k.0 == 0 && #[trigger] within((r->0@, k), old(self).bounds()[x.0 as int]));
        }
        r
    }

    /// Repair basic-variable bound violations by pivoting (Bland's rule).
    /// True if a feasible assignment was reached. The search is capped at
    /// 2^64 pivots, after which it reports infeasibility.
    pub fn check(&mut self) -> (ok: bool)
        requires
            old(self).wf(),
        ensures
            final(self).wf(),
            final(self).bounds() == old(self).bounds(),
            final(self).same_history(&*old(self)),
            final(self).keeps_marks(&*old(self)),
            final(self).num_vars_spec() == old(self).num_vars_spec(),
            ok ==> final(self).satisfied(),
            old(self).satisfied() ==> ok && *final(self) == *old(self),
    {
        let ghost start = *self;
        let mut fuel: u64 = u64::MAX;
        while fuel > 0
            invariant
                self.wf(),
                self.lowers@ == old(self).lowers@,
                self.uppers@ == old(self).uppers@,
                self.trail@ == old(self).trail@,
                self.snaps@ == old(self).snaps@,
                self.lowers@.len() == start.lowers@.len(),
                old(self).satisfied() ==> fuel == u64::MAX && *self == *old(self),
            decreases fuel,
        {
            proof {
                self.lemma_same_bounds(*old(self));
            }
            let ghost first = fuel == u64::MAX && old(self).satisfied();
            fuel = fuel - 1;
            // Smallest-index basic variable violating a bound.
            let mut found = false;
            let mut xr: usize = 0;
            let mut below = false;
            let mut r: usize = 0;
            while r < self.row_basic.len()
                invariant
                    self.wf(),
                    r <= self.row_basic.len(),
                    found ==> xr < self.row_basic.len(),
                    found && below ==> self.lowers@[self.row_basic@[xr as int].0 as int].is_some(),
                    found && !below ==> self.uppers@[self.row_basic@[xr as int].0 as int].is_some(),
                    found && below ==> self.bounds()[self.row_basic@[xr as int].0 as int].0 is Some,
                    found && !below ==> self.bounds()[self.row_basic@[xr as int].0 as int].1 is Some,
                    !found ==> forall|q: int| 0 <= q < r ==>
                        within(self.values@[(#[trigger] self.row_basic@[q]).0 as int]@, self.bounds()[self.row_basic@[q].0 as int]),
                    first ==> *self == *old(self) && old(self).satisfied() && !found,
                decreases self.row_basic.len() - r,
            {
                proof {
                    if first {
                        let b = self.row_basic@[r as int].0 as int;
                        assert(self.var_ok(b));
                        assert(within(self.values_spec()[b], self.bounds()[b]));
                    }
                }
                let b = self.row_basic[r].0;
                let is_below = match &self.lowers[b] {
                    Some(l) => self.values[b].less_than(l),
                    None => false,
                };
                let is_above = match &self.uppers[b] {
                    Some(u) => u.less_than(&self.values[b]),
                    None => false,
                };
                if (is_below || is_above) && (!found || b < self.row_basic[xr].0) {
                    found = true;
                    xr = r;
                    below = is_below;
                }
                r = r + 1;
            }
            if !found {
                proof {
                    assert forall|v: int| 0 <= v < self.num_vars_spec() implies within(#[trigger] self.values_spec()[v], self.bounds()[v]) by {
                        assert(self.var_ok(v));
                        if self.row_of@[v] is Some {
                            let q = self.row_of@[v]->0 as int;
                            assert(self.row_basic@[q].0 == v);
                        }
                    }
                }
                return true;
            }
            let xi = self.row_basic[xr];
            // Smallest-index non-basic variable that can move xi toward its bound.
            let mut pivot: Option<usize> = None;
            let mut j: usize = 0;
            let nterms = self.row_expr[xr].num_terms();
            while j < nterms
                invariant
                    self.wf(),
                    xr < self.row_expr@.len(),
                    nterms == self.row_expr@[xr as int]@.0.len(),
                    j <= nterms,
                    pivot.is_some() ==> pivot.unwrap() < nterms,
                decreases nterms - j,
            {
                let (xj, a) = self.row_expr[xr].term(j);
                term_in_range(&self.row_expr[xr], j, self.lowers.len());
                let can_increase = match &self.uppers[xj.0] {
                    Some(u) => self.values[xj.0].less_than(u),
                    None => true,
                };
                let can_decrease = match &self.lowers[xj.0] {
                    Some(l) => l.less_than(&self.values[xj.0]),
                    None => true,
                };
                let ok = if below {
                    (a.is_positive() && can_increase) || (a.is_negative() && can_decrease)
                } else {
                    (a.is_positive() && can_decrease) || (a.is_negative() && can_increase)
                };
                if ok {
                    pivot = Some(j);
                    break;
                }
                j = j + 1;
            }
            let pj = match pivot {
                Some(pj) => pj,
                None => { return false; },
            };
            let target = if below {
                match &self.lowers[xi.0] {
                    Some(l) => l.copy(),
                    None => { return false; },
                }
            } else {
                match &self.uppers[xi.0] {
                    Some(u) => u.copy(),
                    None => { return false; },
                }
            };
            proof {
                let b = self.row_basic@[xr as int].0 as int;
                assert(self.var_ok(b));
            }
            self.pivot_and_update(xr, pj, target);
        }
        proof {
            self.lemma_same_bounds(*old(self));
        }
        false
    }

    fn pivot_and_update(&mut self, ri: usize, j: usize, v: Delta)
        requires
            old(self).wf(),
            ri < old(self).row_expr@.len(),
            j < old(self).row_expr@[ri as int]@.0.len(),
            within(v@, old(self).bounds()[old(self).row_basic@[ri as int].0 as int]),
        ensures
            final(self).wf(),
            final(self).lowers@ == old(self).lowers@,
            final(self).uppers@ == old(self).uppers@,
            final(self).trail@ == old(self).trail@,
            final(self).snaps@ == old(self).snaps@,
            final(self).values_spec()[old(self).row_basic@[ri as int].0 as int] == v@,
            final(self).row_of@ == old(self).row_of@.update(old(self).row_basic@[ri as int].0 as int, None)
                .update(old(self).row_expr@[ri as int]@.0[j as int].0 as int, Some(ri)),
    {
        let xi = self.row_basic[ri];
        let (xj, a0) = self.row_expr[ri].term(j);
        let a = a0.copy();
        term_in_range(&self.row_expr[ri], j, self.lowers.len());
        self.row_expr[ri].lemma_wf();
        let inv = match a.recip() {
            Some(inv) => inv,
            None => { return; },
        };
        proof {
            lemma_coeff_in(self.row_expr@[ri as int]@.0, xj.0);
            assert(self.row_expr@[ri as int].coeff_spec(xj.0) == self.row_expr@[ri as int]@.0[j as int].1);
        }
        let theta = v.minus(&self.values[xi.0]).scale(&inv);
        v.lemma_dens();
        let nv = self.values[xj.0].plus(&theta);
        nv.lemma_dens();
        let ghost prev = *self;
        proof {
            assert(prev.row_of@[xi.0 as int] == Some(ri));
        }
        self.values.set(xi.0, v);
        proof {
            self.lemma_values_only(prev);
        }
        let mut k: usize = 0;
        while k < self.row_basic.len()
            invariant
                self.wf(),
                self.lowers@ == old(self).lowers@,
                self.uppers@ == old(self).uppers@,
                self.row_of@ == old(self).row_of@,
                self.row_basic@ == old(self).row_basic@,
                self.row_expr@ == old(self).row_expr@,
                self.trail@ == old(self).trail@,
                self.snaps@ == old(self).snaps@,
                xj.0 < self.num_vars_spec(),
                ri < self.row_expr@.len(),
                self.row_expr@[ri as int].coeff_spec(xj.0).0 != 0,
                xi == self.row_basic@[ri as int],
                self.values@[xi.0 as int]@ == v@,
                within(v@, self.bounds()[xi.0 as int]),
            decreases self.row_basic.len() - k,
        {
            if k != ri {
                if let Some(akj) = self.row_expr[k].coeff(xj) {
                    let b = self.row_basic[k].0;
                    let nb = self.values[b].plus(&theta.scale(akj));
                    nb.lemma_dens();
                    let ghost prev = *self;
                    proof {
                        assert(prev.row_of@[b as int] == Some(k));
                        assert(b != xi.0);
                    }
                    self.values.set(b, nb);
                    proof {
                        self.lemma_values_only(prev);
                    }
                }
            }
            k = k + 1;
        }
        self.pivot(ri, xj);
        let ghost prev2 = *self;
        proof {
            assert(prev2.row_of@[xj.0 as int] == Some(ri));
        }
        self.values.set(xj.0, nv);
        proof {
            self.lemma_values_only(prev2);
        }
    }

    /// Make `xj` basic in row `ri` (whose basic variable becomes non-basic).
    fn pivot(&mut self, ri: usize, xj: SVar)
        requires
            old(self).wf(),
            ri < old(self).row_expr@.len(),
            old(self).row_expr@[ri as int].coeff_spec(xj.0).0 != 0,
            within(old(self).values@[old(self).row_basic@[ri as int].0 as int]@,
                old(self).bounds()[old(self).row_basic@[ri as int].0 as int]),
        ensures
            final(self).wf(),
            final(self).row_of@ == old(self).row_of@.update(old(self).row_basic@[ri as int].0 as int, None).update(xj.0 as int, Some(ri)),
            final(self).lowers@ == old(self).lowers@,
            final(self).uppers@ == old(self).uppers@,
            final(self).values@ == old(self).values@,
            final(self).trail@ == old(self).trail@,
            final(self).snaps@ == old(self).snaps@,
    {
        let ghost before = *self;
        let ghost n = self.lowers@.len();
        let xi = self.row_basic[ri];
        let mut expr = self.row_expr[ri].copy();
        let ghost e0 = expr;
        proof {
            assert(in_range(before.row_expr@[ri as int], n));
            assert(xj.0 < n);
            assert(before.row_of@[xi.0 as int] == Some(ri));
            assert(xi.0 != xj.0) by {
                if xi.0 == xj.0 {
                    assert(before.row_expr@[ri as int].coeff_spec(xi.0).0 == 0);
                }
            }
            assert(before.row_of@[xj.0 as int].is_none()) by {
                if before.row_of@[xj.0 as int].is_some() {
                    assert(before.row_expr@[ri as int].coeff_spec(xj.0).0 == 0);
                }
            }
        }
        let a = match expr.take(xj) {
            Some(a) => a,
            None => { return; },
        };
        // xi = a·xj + rest  ⇒  xj = (xi − rest) / a
        let inv = match a.recip() {
            Some(inv) => inv,
            None => { return; },
        };
        let ghost e1 = expr;
        expr.negate();
        let ghost e2 = expr;
        let one = Number::one();
        expr.add_term(xi, &one);
        let ghost e3 = expr;
        inv.lemma_canonical();
        expr.scale(&inv);
        proof {
            assert forall|u: usize| u != xi.0 && e0.coeff_spec(u).0 == 0 implies #[trigger] expr.coeff_spec(u).0 == 0 by {
                if u != xj.0 {
                    assert(e1.coeff_spec(u) == e0.coeff_spec(u));
                }
                assert(e2.coeff_spec(u).0 == 0);
                assert(e3.coeff_spec(u) == e2.coeff_spec(u));
            }
            assert(e2.coeff_spec(xj.0).0 == 0);
            assert(e3.coeff_spec(xj.0) == e2.coeff_spec(xj.0));
            assert(expr.coeff_spec(xj.0).0 == 0);
            assert forall|u: usize| u >= n implies #[trigger] expr.coeff_spec(u).0 == 0 by {
                assert(e0.coeff_spec(u) == before.row_expr@[ri as int].coeff_spec(u));
                assert(before.row_expr@[ri as int].coeff_spec(u).0 == 0);
            }
            assert forall|u: usize| u < n && before.row_of@[u as int].is_some() && u != xi.0 implies #[trigger] expr.coeff_spec(u).0 == 0 by {
                assert(e0.coeff_spec(u) == before.row_expr@[ri as int].coeff_spec(u));
                assert(before.row_expr@[ri as int].coeff_spec(u).0 == 0);
            }
        }
        let e_new = expr.copy();
        self.row_basic.set(ri, xj);
        self.row_expr.set(ri, e_new);
        self.row_of.set(xi.0, None);
        self.row_of.set(xj.0, Some(ri));
        let mut k: usize = 0;
        while k < self.row_basic.len()
            invariant
                self.lowers@ == before.lowers@,
                self.uppers@ == before.uppers@,
                self.values@ == before.values@,
                self.trail@ == before.trail@,
                self.snaps@ == before.snaps@,
                self.row_basic@ == before.row_basic@.update(ri as int, xj),
                self.row_of@ == before.row_of@.update(xi.0 as int, None).update(xj.0 as int, Some(ri)),
                self.row_expr@.len() == before.row_expr@.len(),
                self.row_basic@.len() == self.row_expr@.len(),
                self.row_expr@[ri as int]@ == expr@,
                ri < self.row_expr@.len(),
                xi.0 < n,
                xj.0 < n,
                xi.0 != xj.0,
                n == self.lowers@.len(),
                before.wf(),
                in_range(expr, n),
                expr.coeff_spec(xj.0).0 == 0,
                forall|u: usize| u < n && before.row_of@[u as int].is_some() && u != xi.0 ==> #[trigger] expr.coeff_spec(u).0 == 0,
                forall|i: int| 0 <= i < self.row_expr@.len() && i != ri ==> in_range(#[trigger] self.row_expr@[i], n),
                forall|i: int, u: usize| 0 <= i < k && i != ri && u < n && self.row_of@[u as int].is_some()
                    ==> (#[trigger] self.row_expr@[i].coeff_spec(u)).0 == 0,
                forall|i: int| k <= i < self.row_expr@.len() && i != ri ==> #[trigger] self.row_expr@[i] == before.row_expr@[i],
                k <= self.row_basic@.len(),
            decreases self.row_basic.len() - k,
        {
            if k != ri {
                let mut row = self.row_expr[k].copy();
                let ghost orig = row;
                let ghost mid = row;
                match row.take(xj) {
                    Some(akj) => {
                        proof {
                            mid = row;
                        }
                        row.add_scaled(&expr, &akj);
                    },
                    None => {
                        proof {
                            mid = row;
                        }
                    },
                }
                proof {
                    assert(before.row_expr@[k as int]@ == orig@);
                    assert(in_range(before.row_expr@[k as int], n));
                    assert forall|u: usize| u >= n implies #[trigger] row.coeff_spec(u).0 == 0 by {
                        assert(before.row_expr@[k as int].coeff_spec(u).0 == 0);
                        assert(mid.coeff_spec(u) == orig.coeff_spec(u));
                        assert(expr.coeff_spec(u).0 == 0);
                    }
                    assert forall|u: usize| u < n && self.row_of@[u as int].is_some() implies #[trigger] row.coeff_spec(u).0 == 0 by {
                        if u != xj.0 {
                            assert(u != xi.0);
                            assert(before.row_of@[u as int].is_some());
                            assert(before.row_expr@[k as int].coeff_spec(u).0 == 0);
                            assert(mid.coeff_spec(u) == orig.coeff_spec(u));
                            assert(expr.coeff_spec(u).0 == 0);
                        } else {
                            assert(mid.coeff_spec(u).0 == 0);
                        }
                    }
                }
                self.row_expr.set(k, row);
            }
            k = k + 1;
        }
        proof {
            assert forall|i: int| 0 <= i < self.row_expr@.len() implies in_range(#[trigger] self.row_expr@[i], n) by {
                if i == ri {
                    assert forall|u: usize| u >= n implies #[trigger] self.row_expr@[i].coeff_spec(u).0 == 0 by {
                        assert(expr.coeff_spec(u).0 == 0);
                    }
                }
            }
            assert forall|i: int, u: usize| 0 <= i < self.row_expr@.len() && u < n && self.row_of@[u as int].is_some()
                implies (#[trigger] self.row_expr@[i].coeff_spec(u)).0 == 0 by {
                if i == ri {
                    if u != xj.0 {
                        assert(before.row_of@[u as int].is_some());
                        assert(expr.coeff_spec(u).0 == 0);
                    }
                }
            }
            assert forall|i: int| 0 <= i < self.row_basic@.len() implies
                (#[trigger] self.row_basic@[i]).0 < n && self.row_of@[self.row_basic@[i].0 as int] == Some(i as usize) by {
                if i != ri {
                    assert(before.row_basic@[i].0 != xi.0);
                    assert(before.row_basic@[i].0 != xj.0);
                }
            }
            assert forall|v: int| 0 <= v < n && (#[trigger] self.row_of@[v]).is_some() implies
                self.row_of@[v].unwrap() < self.row_basic@.len()
                && self.row_basic@[self.row_of@[v].unwrap() as int].0 == v by {
                if v != xj.0 && v != xi.0 {
                    assert(before.row_of@[v].unwrap() != ri);
                }
            }
            assert(self.bounds() =~= before.bounds());
            assert forall|v: int| 0 <= v < self.lowers@.len() implies #[trigger] self.var_ok(v) by {
                assert(before.var_ok(v));
            }
            assert forall|i: int, v: int| 0 <= i < self.snaps@.len() implies #[trigger] self.snap_ok(i, v) by {
                assert(before.snap_ok(i, v));
                assert(self.next_bound(i, v) == before.next_bound(i, v));
            }
        }
    }
}

} // verus!
