//! δ-rationals: values `c + kδ` for an infinitesimal positive δ, so that a
//! strict bound `x < c` is the non-strict bound `x <= c - δ`. Ordering is
//! lexicographic on `(c, k)`.

use vstd::prelude::*;
use crate::number::{Number, rat_lt, rat_mul, rat_add, rat_sub, rat_neg, rat_text};

verus! {

/// `c + k·δ`.
#[derive(Debug, Clone, PartialEq, Eq)]
pub struct Delta {
    pub c: Number,
    pub k: Number,
}

/// Equal as rationals.
pub open spec fn rat_eq(a: (int, int), b: (int, int)) -> bool {
    a.0 * b.1 == b.0 * a.1
}

/// Lexicographic order on `(c, k)`.
pub open spec fn delta_lt(a: ((int, int), (int, int)), b: ((int, int), (int, int))) -> bool {
    rat_lt(a.0, b.0) || (rat_eq(a.0, b.0) && rat_lt(a.1, b.1))
}

/// Both parts have positive denominators.
pub open spec fn dens_ok(d: ((int, int), (int, int))) -> bool {
    let c = d.0;
    let k = d.1;
    c.1 > 0 && k.1 > 0
}

/// `<=` followed by `<` is `<`.
proof fn lemma_rat_le_lt(a: (int, int), b: (int, int), c: (int, int))
    requires
        a.1 > 0,
        b.1 > 0,
        c.1 > 0,
        !rat_lt(b, a),
        rat_lt(b, c),
    ensures
        rat_lt(a, c),
{
    let (a0, a1) = a;
    let (b0, b1) = b;
    let (c0, c1) = c;
    assert(a0 * b1 * c1 <= b0 * a1 * c1) by (nonlinear_arith)
        requires a0 * b1 <= b0 * a1, c1 > 0;
    assert(b0 * c1 * a1 < c0 * b1 * a1) by (nonlinear_arith)
        requires b0 * c1 < c0 * b1, a1 > 0;
    assert(b0 * a1 * c1 == b0 * c1 * a1) by (nonlinear_arith);
    assert(a0 * c1 < c0 * a1) by (nonlinear_arith)
        requires a0 * b1 * c1 < c0 * b1 * a1, b1 > 0;
}

/// Rational equality is transitive.
proof fn lemma_rat_eq_trans(a: (int, int), b: (int, int), c: (int, int))
    requires
        a.1 > 0,
        b.1 > 0,
        c.1 > 0,
        rat_eq(a, b),
        rat_eq(b, c),
    ensures
        rat_eq(a, c),
{
    let (a0, a1) = a;
    let (b0, b1) = b;
    let (c0, c1) = c;
    assert(a0 * b1 * c1 == b0 * a1 * c1) by (nonlinear_arith)
        requires a0 * b1 == b0 * a1;
    assert(b0 * c1 * a1 == c0 * b1 * a1) by (nonlinear_arith)
        requires b0 * c1 == c0 * b1;
    assert(b0 * a1 * c1 == b0 * c1 * a1) by (nonlinear_arith);
    assert(a0 * c1 == c0 * a1) by (nonlinear_arith)
        requires a0 * b1 * c1 == c0 * b1 * a1, b1 > 0;
}

/// Equals are bounded alike: `a = c <= b` gives `a <= b`.
proof fn lemma_rat_eq_le(a: (int, int), c: (int, int), b: (int, int))
    requires
        a.1 > 0,
        b.1 > 0,
        c.1 > 0,
        rat_eq(a, c),
        !rat_lt(b, c),
    ensures
        !rat_lt(b, a),
{
    let (a0, a1) = a;
    let (b0, b1) = b;
    let (c0, c1) = c;
    assert(a0 * c1 * b1 == c0 * a1 * b1) by (nonlinear_arith)
        requires a0 * c1 == c0 * a1;
    assert(c0 * b1 * a1 <= b0 * c1 * a1) by (nonlinear_arith)
        requires c0 * b1 <= b0 * c1, a1 > 0;
    assert(c0 * a1 * b1 == c0 * b1 * a1) by (nonlinear_arith);
    assert(a0 * b1 <= b0 * a1) by (nonlinear_arith)
        requires a0 * c1 * b1 <= b0 * c1 * a1, c1 > 0;
}

/// Whatever `b` is, `a < c` puts `b` above `a` or below `c`.
pub proof fn lemma_delta_split(a: ((int, int), (int, int)), b: ((int, int), (int, int)), c: ((int, int), (int, int)))
    requires
        dens_ok(a),
        dens_ok(b),
        dens_ok(c),
        delta_lt(a, c),
    ensures
        delta_lt(a, b) || delta_lt(b, c),
{
    if rat_lt(a.0, c.0) {
        if !rat_lt(a.0, b.0) {
            lemma_rat_le_lt(b.0, a.0, c.0);
        }
    } else {
        // a.0 and c.0 are equal as rationals, a.1 < c.1.
        if !rat_lt(a.0, b.0) && !rat_lt(b.0, c.0) {
            lemma_rat_eq_le(a.0, c.0, b.0);
            assert(rat_eq(b.0, a.0));
            lemma_rat_eq_trans(b.0, a.0, c.0);
            assert(rat_eq(a.0, b.0));
            if !rat_lt(a.1, b.1) {
                lemma_rat_le_lt(b.1, a.1, c.1);
            }
        }
    }
}

pub open spec fn delta_le(a: ((int, int), (int, int)), b: ((int, int), (int, int))) -> bool {
    delta_lt(a, b) || a == b
}

impl View for Delta {
    type V = ((int, int), (int, int));

    open spec fn view(&self) -> ((int, int), (int, int)) {
        (self.c@, self.k@)
    }
}

impl Delta {
    pub fn new(c: Number, k: Number) -> (r: Delta)
        ensures
            r@ == (c@, k@),
    {
        Delta { c, k }
    }

    /// A plain rational.
    pub fn exact(c: Number) -> (r: Delta)
        ensures
            r@ == (c@, (0int, 1int)),
    {
        Delta { c, k: Number::zero() }
    }

    pub fn zero() -> (r: Delta)
        ensures
            r@ == ((0int, 1int), (0int, 1int)),
    {
        Delta::exact(Number::zero())
    }

    /// True if there is no infinitesimal part.
    pub fn is_exact(&self) -> (b: bool)
        ensures
            b == (self@.1.0 == 0),
    {
        self.k.is_zero()
    }

    /// Scale by a rational.
    pub fn scale(&self, a: &Number) -> (r: Delta)
        ensures
            r@ == (rat_mul(self@.0, a@), rat_mul(self@.1, a@)),
    {
        Delta { c: self.c.times(a), k: self.k.times(a) }
    }

    pub fn plus(&self, other: &Delta) -> (r: Delta)
        ensures
            r@ == (rat_add(self@.0, other@.0), rat_add(self@.1, other@.1)),
    {
        Delta { c: self.c.plus(&other.c), k: self.k.plus(&other.k) }
    }

    pub fn minus(&self, other: &Delta) -> (r: Delta)
        ensures
            r@ == (rat_sub(self@.0, other@.0), rat_sub(self@.1, other@.1)),
    {
        Delta { c: self.c.minus(&other.c), k: self.k.minus(&other.k) }
    }

    pub fn negate(&self) -> (r: Delta)
        ensures
            r@ == (rat_neg(self@.0), rat_neg(self@.1)),
    {
        Delta { c: self.c.negate(), k: self.k.negate() }
    }

    pub fn copy(&self) -> (r: Delta)
        ensures
            r@ == self@,
    {
        Delta { c: self.c.copy(), k: self.k.copy() }
    }

    pub fn equals(&self, other: &Delta) -> (b: bool)
        ensures
            b == (self@ == other@),
    {
        self.c.equals(&other.c) && self.k.equals(&other.k)
    }

    /// `self < other` in the lexicographic order.
    pub fn less_than(&self, other: &Delta) -> (b: bool)
        ensures
            b == delta_lt(self@, other@),
    {
        if self.c.less_than(&other.c) {
            true
        } else if !other.c.less_than(&self.c) {
            self.k.less_than(&other.k)
        } else {
            false
        }
    }

    /// `self <= other` in the lexicographic order.
    pub fn less_eq(&self, other: &Delta) -> (b: bool)
        ensures
            b == delta_le(self@, other@),
    {
        self.less_than(other) || self.equals(other)
    }

    /// Both parts are in lowest terms with positive denominators.
    pub fn lemma_dens(&self)
        ensures
            dens_ok(self@),
    {
        self.c.lemma_canonical();
        self.k.lemma_canonical();
    }

    /// Text `c`, `c + kδ` or `c - kδ`.
    pub fn to_text(&self) -> (s: Vec<char>)
        ensures
            self@.1.0 == 0 ==> s@ == rat_text(self@.0),
    {
        let mut out = self.c.to_text();
        if self.k.is_zero() {
            return out;
        }
        if self.k.is_positive() {
            out.push(' ');
            out.push('+');
            out.push(' ');
        } else {
            out.push(' ');
            out.push('-');
            out.push(' ');
        }
        let m = self.k.abs().to_text();
        crate::text::push_all(&mut out, &m);
        out.push('δ');
        out
    }
}

} // verus!
