//! Sparse linear expressions `Σ aᵢ·xᵢ + c` with exact rational coefficients,
//! terms kept in increasing variable order with non-zero coefficients.

use vstd::prelude::*;
use crate::number::{Number, rat_add, rat_mul, is_canonical, normalize, gcd, abs_int};
use super::simplex::SVar;

verus! {

/// Coefficient of variable `v` in an ordered term list (zero when absent).
pub open spec fn coeff_in(s: Seq<(usize, (int, int))>, v: usize) -> (int, int)
    decreases s.len(),
{
    if s.len() == 0 {
        (0int, 1int)
    } else if s.last().0 == v {
        s.last().1
    } else {
        coeff_in(s.drop_last(), v)
    }
}

/// The first position from `i` on that holds variable `v` (the length when
/// none does).
pub open spec fn var_pos_from(s: Seq<(usize, (int, int))>, v: usize, i: int) -> int
    decreases s.len() - i,
{
    if i < 0 || i >= s.len() {
        s.len() as int
    } else if s[i].0 == v {
        i
    } else {
        var_pos_from(s, v, i + 1)
    }
}

/// Where variable `v` stands among the terms.
pub open spec fn var_pos(s: Seq<(usize, (int, int))>, v: usize) -> int {
    var_pos_from(s, v, 0)
}

/// A variable that first occurs at `i` stands at `i`.
pub proof fn lemma_var_pos(s: Seq<(usize, (int, int))>, v: usize, k: int, i: int)
    requires
        0 <= k <= i < s.len(),
        s[i].0 == v,
        forall|j: int| k <= j < i ==> s[j].0 != v,
    ensures
        var_pos_from(s, v, k) == i,
    decreases i - k,
{
    if k < i {
        lemma_var_pos(s, v, k + 1, i);
    }
}

/// Variables strictly increasing, coefficients non-zero.
pub open spec fn terms_wf(s: Seq<(usize, (int, int))>) -> bool {
    &&& forall|i: int, j: int| 0 <= i < j < s.len() ==> s[i].0 < s[j].0
    &&& forall|i: int| 0 <= i < s.len() ==> (#[trigger] s[i]).1.0 != 0 && s[i].1.1 > 0
}

pub proof fn lemma_coeff_in(s: Seq<(usize, (int, int))>, v: usize)
    requires
        forall|i: int, j: int| 0 <= i < j < s.len() ==> s[i].0 < s[j].0,
    ensures
        forall|i: int| 0 <= i < s.len() && s[i].0 == v ==> coeff_in(s, v) == s[i].1,
        (forall|i: int| 0 <= i < s.len() ==> s[i].0 != v) ==> coeff_in(s, v) == (0int, 1int),
    decreases s.len(),
{
    if s.len() > 0 {
        let r = s.drop_last();
        lemma_coeff_in(r, v);
        assert forall|i: int| 0 <= i < s.len() && s[i].0 == v implies coeff_in(s, v) == s[i].1 by {
            if i < s.len() - 1 {
                assert(r[i] == s[i]);
            }
        }
        if forall|i: int| 0 <= i < s.len() ==> s[i].0 != v {
            assert(s.last().0 != v);
            assert forall|i: int| 0 <= i < r.len() implies r[i].0 != v by {
                assert(r[i] == s[i]);
            }
        }
    }
}

/// `Σ aᵢ·xᵢ + c`.
#[derive(Debug)]
pub struct LinExpr {
    terms: Vec<(SVar, Number)>,
    constant: Number,
}

pub open spec fn term_view(p: (SVar, Number)) -> (usize, (int, int)) {
    (p.0.0, p.1@)
}

pub open spec fn terms_view(t: Seq<(SVar, Number)>) -> Seq<(usize, (int, int))> {
    t.map_values(|p: (SVar, Number)| term_view(p))
}

impl View for LinExpr {
    type V = (Seq<(usize, (int, int))>, (int, int));

    closed spec fn view(&self) -> (Seq<(usize, (int, int))>, (int, int)) {
        (terms_view(self.terms@), self.constant@)
    }
}

impl LinExpr {
    #[verifier::type_invariant]
    closed spec fn wf(self) -> bool {
        terms_wf(terms_view(self.terms@))
    }

    /// The coefficient of `v` (zero when absent).
    pub open spec fn coeff_spec(&self, v: usize) -> (int, int) {
        coeff_in(self@.0, v)
    }

    /// The terms are ordered by variable with non-zero coefficients.
    pub fn lemma_wf(&self)
        ensures
            terms_wf(self@.0),
    {
        proof {
            use_type_invariant(self);
        }
    }

    pub fn constant(c: Number) -> (r: LinExpr)
        ensures
            r@ == (Seq::<(usize, (int, int))>::empty(), c@),
    {
        let r = LinExpr { terms: Vec::new(), constant: c };
        assert(r@.0 =~= Seq::<(usize, (int, int))>::empty());
        r
    }

    pub fn var(v: SVar) -> (r: LinExpr)
        ensures
            r@ == (seq![(v.0, (1int, 1int))], (0int, 1int)),
    {
        let mut terms: Vec<(SVar, Number)> = Vec::new();
        terms.push((v, Number::one()));
        let r = LinExpr { terms, constant: Number::zero() };
        assert(r@.0 =~= seq![(v.0, (1int, 1int))]);
        r
    }

    pub fn is_constant(&self) -> (b: bool)
        ensures
            b == (self@.0.len() == 0),
    {
        self.terms.len() == 0
    }

    pub fn num_terms(&self) -> (n: usize)
        ensures
            n == self@.0.len(),
    {
        self.terms.len()
    }

    /// The `i`-th term in variable order.
    pub fn term(&self, i: usize) -> (r: (SVar, &Number))
        requires
            i < self@.0.len(),
        ensures
            r.0.0 == self@.0[i as int].0,
            r.1@ == self@.0[i as int].1,
    {
        (self.terms[i].0, &self.terms[i].1)
    }

    /// The constant part.
    pub fn constant_part(&self) -> (r: &Number)
        ensures
            r@ == self@.1,
    {
        &self.constant
    }

    pub fn set_constant(&mut self, c: Number)
        ensures
            final(self)@ == (old(self)@.0, c@),
    {
        proof {
            use_type_invariant(&*self);
        }
        self.constant = c;
    }

    /// The constant value if the expression has no variables.
    pub fn as_constant(&self) -> (r: Option<&Number>)
        ensures
            r.is_some() == (self@.0.len() == 0),
            r.is_some() ==> r.unwrap()@ == self@.1,
    {
        if self.terms.len() == 0 {
            Some(&self.constant)
        } else {
            None
        }
    }

    /// If the expression is exactly `1·x + 0`, that variable.
    pub fn as_var(&self) -> (r: Option<SVar>)
        ensures
            r.is_some() == (self@.0.len() == 1 && self@.0[0].1 == (1int, 1int) && self@.1.0 == 0),
            r.is_some() ==> r.unwrap().0 == self@.0[0].0,
    {
        if self.terms.len() == 1 && self.constant.is_zero() {
            let one = Number::one();
            if self.terms[0].1.equals(&one) {
                return Some(self.terms[0].0);
            }
        }
        None
    }

    /// Position of the first term whose variable is `>= v`.
    fn position(&self, v: SVar) -> (i: usize)
        ensures
            i <= self@.0.len(),
            forall|j: int| 0 <= j < i ==> self@.0[j].0 < v.0,
            i < self@.0.len() ==> self@.0[i as int].0 >= v.0,
    {
        proof {
            use_type_invariant(self);
        }
        let mut i: usize = 0;
        while i < self.terms.len() && self.terms[i].0.0 < v.0
            invariant
                i <= self.terms.len(),
                forall|j: int| 0 <= j < i ==> self@.0[j].0 < v.0,
            decreases self.terms.len() - i,
        {
            i = i + 1;
        }
        i
    }

    pub fn coeff(&self, v: SVar) -> (r: Option<&Number>)
        ensures
            r.is_some() == (self.coeff_spec(v.0).0 != 0),
            r.is_some() ==> r.unwrap()@ == self.coeff_spec(v.0),
    {
        proof {
            use_type_invariant(self);
            lemma_coeff_in(self@.0, v.0);
        }
        let i = self.position(v);
        if i < self.terms.len() && self.terms[i].0.0 == v.0 {
            Some(&self.terms[i].1)
        } else {
            proof {
                assert forall|j: int| 0 <= j < self@.0.len() implies self@.0[j].0 != v.0 by {
                    if j > i {
                        assert(self@.0[i as int].0 < self@.0[j].0);
                    }
                }
            }
            None
        }
    }

    /// `self += a·x`, dropping the term if it cancels.
    pub fn add_term(&mut self, v: SVar, a: &Number)
        ensures
            forall|u: usize| u != v.0 ==> final(self).coeff_spec(u) == old(self).coeff_spec(u),
            final(self).coeff_spec(v.0) == (if a@.0 == 0 {
                old(self).coeff_spec(v.0)
            } else {
                rat_add(old(self).coeff_spec(v.0), a@)
            }),
            final(self)@.1 == old(self)@.1,
    {
        proof {
            use_type_invariant(&*self);
        }
        if a.is_zero() {
            return;
        }
        a.lemma_canonical();
        let ghost s0 = self@.0;
        let i = self.position(v);
        let mut t: Vec<(SVar, Number)> = Vec::new();
        std::mem::swap(&mut t, &mut self.terms);
        assert(terms_view(t@) == s0);
        if i < t.len() && t[i].0.0 == v.0 {
            let sum = t[i].1.plus(a);
            sum.lemma_canonical();
            proof {
                lemma_coeff_in(s0, v.0);
            }
            proof {
                assert(s0[i as int].1 == t@[i as int].1@);
                assert(coeff_in(s0, v.0) == s0[i as int].1);
            }
            if sum.is_zero() {
                t.remove(i);
                proof {
                    lemma_zero_canonical(sum@);
                    assert(terms_view(t@) =~= s0.remove(i as int));
                    lemma_remove(s0, i as int);
                }
            } else {
                let ghost sv = sum@;
                t.set(i, (v, sum));
                proof {
                    assert(terms_view(t@) =~= s0.update(i as int, (v.0, sv)));
                    lemma_update(s0, i as int, sv);
                }
            }
        } else {
            let c = a.copy();
            c.lemma_canonical();
            let ghost cv = c@;
            t.insert(i, (v, c));
            proof {
                assert(terms_view(t@) =~= s0.insert(i as int, (v.0, cv)));
                lemma_insert(s0, i as int, v.0, cv);
                lemma_add_zero(a@);
            }
        }
        self.terms = t;
    }

    /// Remove and return the coefficient of `v`.
    pub fn take(&mut self, v: SVar) -> (r: Option<Number>)
        ensures
            r.is_some() == (old(self).coeff_spec(v.0).0 != 0),
            r.is_some() ==> r.unwrap()@ == old(self).coeff_spec(v.0),
            forall|u: usize| u != v.0 ==> final(self).coeff_spec(u) == old(self).coeff_spec(u),
            final(self).coeff_spec(v.0) == (0int, 1int),
            final(self)@.1 == old(self)@.1,
            r.is_some() ==> final(self)@.0 == old(self)@.0.remove(var_pos(old(self)@.0, v.0)),
            r.is_none() ==> final(self)@ == old(self)@,
    {
        proof {
            use_type_invariant(&*self);
            lemma_coeff_in(self@.0, v.0);
        }
        let ghost s0 = self@.0;
        let i = self.position(v);
        if i < self.terms.len() && self.terms[i].0.0 == v.0 {
            let mut t: Vec<(SVar, Number)> = Vec::new();
            std::mem::swap(&mut t, &mut self.terms);
            assert(terms_view(t@) == s0);
            let (_, a) = t.remove(i);
            proof {
                assert(terms_view(t@) =~= s0.remove(i as int));
                lemma_remove(s0, i as int);
                assert forall|j: int| 0 <= j < i implies s0[j].0 != v.0 by {
                    assert(s0[j].0 < v.0);
                }
                lemma_var_pos(s0, v.0, 0, i as int);
            }
            self.terms = t;
            Some(a)
        } else {
            proof {
                assert forall|j: int| 0 <= j < s0.len() implies s0[j].0 != v.0 by {
                    if j > i {
                        assert(s0[i as int].0 < s0[j].0);
                    }
                }
            }
            None
        }
    }

    /// `self += k·other`.
    pub fn add_scaled(&mut self, other: &LinExpr, k: &Number)
        ensures
            forall|u: usize| #![trigger final(self).coeff_spec(u)]
                final(self).coeff_spec(u) == (if k@.0 == 0 || other.coeff_spec(u).0 == 0 {
                    old(self).coeff_spec(u)
                } else {
                    rat_add(old(self).coeff_spec(u), rat_mul(other.coeff_spec(u), k@))
                }),
            final(self)@.1 == (if k@.0 == 0 { old(self)@.1 } else { rat_add(old(self)@.1, rat_mul(other@.1, k@)) }),
    {
        if k.is_zero() {
            return;
        }
        proof {
            use_type_invariant(other);
            lemma_coeff_in(other@.0, 0);
        }
        let ghost o = other@.0;
        let mut i: usize = 0;
        while i < other.terms.len()
            invariant
                i <= other.terms.len(),
                o == other@.0,
                terms_wf(o),
                k@.0 != 0,
                self@.1 == old(self)@.1,
                forall|u: usize| #![trigger self.coeff_spec(u)]
                    self.coeff_spec(u) == (if (exists|j: int| 0 <= j < i && o[j].0 == u) {
                        rat_add(old(self).coeff_spec(u), rat_mul(coeff_in(o, u), k@))
                    } else {
                        old(self).coeff_spec(u)
                    }),
            decreases other.terms.len() - i,
        {
            let ghost before = *self;
            let (v, a) = (other.terms[i].0, &other.terms[i].1);
            let p = a.times(k);
            k.lemma_canonical();
            a.lemma_canonical();
            proof {
                assert(o[i as int] == (v.0, a@));
                lemma_coeff_in(o, v.0);
                lemma_mul_nonzero(a@, k@);
            }
            self.add_term(v, &p);
            i = i + 1;
            proof {
                assert forall|u: usize| #![trigger self.coeff_spec(u)]
                    self.coeff_spec(u) == (if (exists|j: int| 0 <= j < i && o[j].0 == u) {
                        rat_add(old(self).coeff_spec(u), rat_mul(coeff_in(o, u), k@))
                    } else {
                        old(self).coeff_spec(u)
                    }) by {
                    if u != v.0 {
                        assert(before.coeff_spec(u) == self.coeff_spec(u));
                        if exists|j: int| 0 <= j < i && o[j].0 == u {
                            let j = choose|j: int| 0 <= j < i && o[j].0 == u;
                            assert(j < i - 1);
                        }
                    } else {
                        assert(o[i - 1].0 == u);
                        assert(!exists|j: int| 0 <= j < i - 1 && o[j].0 == u);
                    }
                }
            }
        }
        proof {
            assert forall|u: usize| #![trigger self.coeff_spec(u)]
                self.coeff_spec(u) == (if other.coeff_spec(u).0 == 0 {
                    old(self).coeff_spec(u)
                } else {
                    rat_add(old(self).coeff_spec(u), rat_mul(other.coeff_spec(u), k@))
                }) by {
                lemma_coeff_in(o, u);
                if exists|j: int| 0 <= j < i && o[j].0 == u {
                    let j = choose|j: int| 0 <= j < i && o[j].0 == u;
                    assert(coeff_in(o, u) == o[j].1);
                } else {
                    assert(o.len() == i);
                    assert forall|j: int| 0 <= j < o.len() implies o[j].0 != u by {}
                }
            }
        }
        let c = other.constant.times(k);
        proof {
            use_type_invariant(&*self);
        }
        let ghost mid = *self;
        self.constant = self.constant.plus(&c);
        proof {
            assert(self@.0 == mid@.0);
            assert forall|u: usize| #![trigger self.coeff_spec(u)] self.coeff_spec(u) == mid.coeff_spec(u) by {}
        }
    }

    pub fn add(&mut self, other: &LinExpr)
        ensures
            forall|u: usize| #![trigger final(self).coeff_spec(u)]
                final(self).coeff_spec(u) == (if other.coeff_spec(u).0 == 0 {
                    old(self).coeff_spec(u)
                } else {
                    rat_add(old(self).coeff_spec(u), rat_mul(other.coeff_spec(u), (1int, 1int)))
                }),
            final(self)@.1 == rat_add(old(self)@.1, rat_mul(other@.1, (1int, 1int))),
    {
        let one = Number::one();
        self.add_scaled(other, &one);
    }

    pub fn sub(&mut self, other: &LinExpr)
        ensures
            forall|u: usize| #![trigger final(self).coeff_spec(u)]
                final(self).coeff_spec(u) == (if other.coeff_spec(u).0 == 0 {
                    old(self).coeff_spec(u)
                } else {
                    rat_add(old(self).coeff_spec(u), rat_mul(other.coeff_spec(u), (-1int, 1int)))
                }),
            final(self)@.1 == rat_add(old(self)@.1, rat_mul(other@.1, (-1int, 1int))),
    {
        let m = Number::from_i64(-1);
        self.add_scaled(other, &m);
    }

    /// Multiply every coefficient and the constant by `k`.
    pub fn scale(&mut self, k: &Number)
        ensures
            k@.0 == 0 ==> final(self)@.0.len() == 0 && final(self)@.1 == (0int, 1int),
            k@.0 != 0 ==> final(self)@.0.len() == old(self)@.0.len(),
            k@.0 != 0 ==> forall|i: int| 0 <= i < old(self)@.0.len() ==>
                (#[trigger] final(self)@.0[i]) == (old(self)@.0[i].0, rat_mul(old(self)@.0[i].1, k@)),
            k@.0 != 0 ==> final(self)@.1 == rat_mul(old(self)@.1, k@),
            k@.0 != 0 ==> forall|u: usize| #![trigger final(self).coeff_spec(u)]
                (final(self).coeff_spec(u).0 == 0) == (old(self).coeff_spec(u).0 == 0),
            k@.0 != 0 ==> forall|u: usize| #![trigger final(self).coeff_spec(u)]
                old(self).coeff_spec(u).0 != 0 ==> final(self).coeff_spec(u) == rat_mul(old(self).coeff_spec(u), k@),
    {
        proof {
            use_type_invariant(&*self);
        }
        if k.is_zero() {
            self.terms = Vec::new();
            self.constant = Number::zero();
            assert(self@.0 =~= Seq::<(usize, (int, int))>::empty());
            return;
        }
        let ghost s0 = self@.0;
        let mut t: Vec<(SVar, Number)> = Vec::new();
        let mut i: usize = 0;
        while i < self.terms.len()
            invariant
                i <= self.terms.len(),
                self.terms.len() == s0.len(),
                s0 == self@.0,
                k@.0 != 0,
                terms_wf(s0),
                t@.len() == i,
                forall|j: int| 0 <= j < i ==> (#[trigger] terms_view(t@)[j]) == (s0[j].0, rat_mul(s0[j].1, k@)),
                terms_wf(terms_view(t@)),
            decreases self.terms.len() - i,
        {
            let (v, p) = (self.terms[i].0, self.terms[i].1.times(k));
            k.lemma_canonical();
            p.lemma_canonical();
            proof {
                lemma_mul_nonzero(s0[i as int].1, k@);
            }
            let ghost tv0 = terms_view(t@);
            t.push((v, p));
            proof {
                let tv = terms_view(t@);
                assert(tv =~= tv0.push((s0[i as int].0, rat_mul(s0[i as int].1, k@))));
            }
            i = i + 1;
        }
        self.terms = t;
        self.constant = self.constant.times(k);
        proof {
            let s1 = self@.0;
            assert forall|u: usize| #![trigger self.coeff_spec(u)]
                (self.coeff_spec(u).0 == 0) == (coeff_in(s0, u).0 == 0)
                && (coeff_in(s0, u).0 != 0 ==> self.coeff_spec(u) == rat_mul(coeff_in(s0, u), k@)) by {
                lemma_coeff_in(s0, u);
                lemma_coeff_in(s1, u);
                if exists|j: int| 0 <= j < s0.len() && s0[j].0 == u {
                    let j = choose|j: int| 0 <= j < s0.len() && s0[j].0 == u;
                    assert(s1[j].0 == u);
                } else {
                    assert forall|j: int| 0 <= j < s1.len() implies s1[j].0 != u by {
                        assert(s1[j].0 == s0[j].0);
                    }
                }
            }
        }
    }

    pub fn negate(&mut self)
        ensures
            forall|u: usize| #![trigger final(self).coeff_spec(u)]
                (final(self).coeff_spec(u).0 == 0) == (old(self).coeff_spec(u).0 == 0),
            forall|u: usize| #![trigger final(self).coeff_spec(u)]
                old(self).coeff_spec(u).0 != 0 ==> final(self).coeff_spec(u) == rat_mul(old(self).coeff_spec(u), (-1int, 1int)),
            final(self)@.0.len() == old(self)@.0.len(),
            forall|i: int| 0 <= i < old(self)@.0.len() ==>
                (#[trigger] final(self)@.0[i]) == (old(self)@.0[i].0, rat_mul(old(self)@.0[i].1, (-1int, 1int))),
            final(self)@.1 == rat_mul(old(self)@.1, (-1int, 1int)),
    {
        let m = Number::from_i64(-1);
        self.scale(&m);
    }

    pub fn copy(&self) -> (r: LinExpr)
        ensures
            r@ == self@,
    {
        proof {
            use_type_invariant(self);
        }
        let mut terms: Vec<(SVar, Number)> = Vec::new();
        let mut i: usize = 0;
        while i < self.terms.len()
            invariant
                i <= self.terms.len(),
                terms@.len() == i,
                forall|j: int| 0 <= j < i ==> term_view(#[trigger] terms@[j]) == term_view(self.terms@[j]),
            decreases self.terms.len() - i,
        {
            terms.push((self.terms[i].0, self.terms[i].1.copy()));
            i = i + 1;
        }
        assert(terms_view(terms@) =~= self@.0);
        let r = LinExpr { terms, constant: self.constant.copy() };
        r
    }
}

/// Removing entry `i` zeroes its variable and keeps the others.
pub proof fn lemma_remove(s0: Seq<(usize, (int, int))>, i: int)
    requires
        terms_wf(s0),
        0 <= i < s0.len(),
    ensures
        terms_wf(s0.remove(i)),
        coeff_in(s0.remove(i), s0[i].0) == (0int, 1int),
        forall|u: usize| u != s0[i].0 ==> coeff_in(s0.remove(i), u) == coeff_in(s0, u),
{
    let s1 = s0.remove(i);
    let v = s0[i].0;
    assert forall|a: int, b: int| 0 <= a < b < s1.len() implies s1[a].0 < s1[b].0 by {
        let a0 = if a < i { a } else { a + 1 };
        let b0 = if b < i { b } else { b + 1 };
        assert(s1[a] == s0[a0] && s1[b] == s0[b0]);
    }
    assert forall|j: int| 0 <= j < s1.len() implies (#[trigger] s1[j]).1.0 != 0 && s1[j].1.1 > 0 by {
        let j0 = if j < i { j } else { j + 1 };
        assert(s1[j] == s0[j0]);
    }
    assert forall|j: int| 0 <= j < s1.len() implies s1[j].0 != v by {
        if j < i {
            assert(s1[j] == s0[j]);
        } else {
            assert(s1[j] == s0[j + 1]);
        }
    }
    lemma_coeff_in(s1, v);
    assert forall|u: usize| u != v implies coeff_in(s1, u) == coeff_in(s0, u) by {
        lemma_coeff_in(s1, u);
        lemma_coeff_in(s0, u);
        if exists|j: int| 0 <= j < s0.len() && s0[j].0 == u {
            let j = choose|j: int| 0 <= j < s0.len() && s0[j].0 == u;
            if j < i {
                assert(s1[j] == s0[j]);
            } else {
                assert(s1[j - 1] == s0[j]);
            }
        } else {
            assert forall|j: int| 0 <= j < s1.len() implies s1[j].0 != u by {
                if j < i {
                    assert(s1[j] == s0[j]);
                } else {
                    assert(s1[j] == s0[j + 1]);
                }
            }
        }
    }
}

/// Replacing the coefficient of entry `i`.
pub proof fn lemma_update(s0: Seq<(usize, (int, int))>, i: int, c: (int, int))
    requires
        terms_wf(s0),
        0 <= i < s0.len(),
        c.0 != 0,
        c.1 > 0,
    ensures
        terms_wf(s0.update(i, (s0[i].0, c))),
        coeff_in(s0.update(i, (s0[i].0, c)), s0[i].0) == c,
        forall|u: usize| u != s0[i].0 ==> coeff_in(s0.update(i, (s0[i].0, c)), u) == coeff_in(s0, u),
{
    let s1 = s0.update(i, (s0[i].0, c));
    let v = s0[i].0;
    assert(s1[i] == (v, c));
    assert forall|a: int, b: int| 0 <= a < b < s1.len() implies s1[a].0 < s1[b].0 by {
        assert(s1[a].0 == s0[a].0 && s1[b].0 == s0[b].0);
    }
    lemma_coeff_in(s1, v);
    assert forall|u: usize| u != v implies coeff_in(s1, u) == coeff_in(s0, u) by {
        lemma_coeff_in(s1, u);
        lemma_coeff_in(s0, u);
        if exists|j: int| 0 <= j < s0.len() && s0[j].0 == u {
            let j = choose|j: int| 0 <= j < s0.len() && s0[j].0 == u;
            assert(s1[j] == s0[j]);
        } else {
            assert forall|j: int| 0 <= j < s1.len() implies s1[j].0 != u by {
                assert(s1[j].0 == s0[j].0);
            }
        }
    }
}

/// Inserting a new variable at its place in the order.
pub proof fn lemma_insert(s0: Seq<(usize, (int, int))>, i: int, v: usize, c: (int, int))
    requires
        terms_wf(s0),
        0 <= i <= s0.len(),
        forall|j: int| 0 <= j < i ==> s0[j].0 < v,
        i < s0.len() ==> s0[i].0 > v,
        c.0 != 0,
        c.1 > 0,
    ensures
        terms_wf(s0.insert(i, (v, c))),
        coeff_in(s0, v) == (0int, 1int),
        coeff_in(s0.insert(i, (v, c)), v) == c,
        forall|u: usize| u != v ==> coeff_in(s0.insert(i, (v, c)), u) == coeff_in(s0, u),
{
    let s1 = s0.insert(i, (v, c));
    assert forall|j: int| 0 <= j < s0.len() implies s0[j].0 != v by {
        if j > i {
            assert(s0[i].0 < s0[j].0);
        }
    }
    lemma_coeff_in(s0, v);
    assert forall|a: int, b: int| 0 <= a < b < s1.len() implies s1[a].0 < s1[b].0 by {
        if a < i {
            assert(s1[a] == s0[a]);
        }
        if b > i {
            assert(s1[b] == s0[b - 1]);
            if a > i {
                assert(s1[a] == s0[a - 1]);
            } else if a == i {
                if b - 1 > i {
                    assert(s0[i].0 < s0[b - 1].0);
                }
            }
        } else if b < i {
            assert(s1[b] == s0[b]);
        }
    }
    assert forall|j: int| 0 <= j < s1.len() implies (#[trigger] s1[j]).1.0 != 0 && s1[j].1.1 > 0 by {
        if j < i {
            assert(s1[j] == s0[j]);
        } else if j > i {
            assert(s1[j] == s0[j - 1]);
        }
    }
    assert(s1[i] == (v, c));
    lemma_coeff_in(s1, v);
    assert forall|u: usize| u != v implies coeff_in(s1, u) == coeff_in(s0, u) by {
        lemma_coeff_in(s1, u);
        lemma_coeff_in(s0, u);
        if exists|j: int| 0 <= j < s0.len() && s0[j].0 == u {
            let j = choose|j: int| 0 <= j < s0.len() && s0[j].0 == u;
            if j < i {
                assert(s1[j] == s0[j]);
            } else {
                assert(s1[j + 1] == s0[j]);
            }
        } else {
            assert forall|j: int| 0 <= j < s1.len() implies s1[j].0 != u by {
                if j < i {
                    assert(s1[j] == s0[j]);
                } else if j > i {
                    assert(s1[j] == s0[j - 1]);
                }
            }
        }
    }
}

impl Clone for LinExpr {
    fn clone(&self) -> (r: LinExpr)
        ensures
            r@ == self@,
    {
        self.copy()
    }
}

/// The only canonical zero is `0/1`.
pub proof fn lemma_zero_canonical(p: (int, int))
    requires
        is_canonical(p),
        p.0 == 0,
    ensures
        p == (0int, 1int),
{
    reveal_with_fuel(gcd, 2);
    vstd::arithmetic::div_mod::lemma_small_mod(0, p.1 as nat);
}

/// `0 + a == a` on canonical rationals.
pub proof fn lemma_add_zero(a: (int, int))
    requires
        is_canonical(a),
    ensures
        rat_add((0int, 1int), a) == a,
{
    assert(0 * a.1 + a.0 * 1 == a.0);
    assert(1 * a.1 == a.1);
    let g = gcd(abs_int(a.0), abs_int(a.1));
    assert(abs_int(a.1) == a.1 as nat);
    assert(g == 1);
    assert(a.0 / 1 == a.0);
    assert(a.1 / 1 == a.1);
}

/// The product of non-zero canonical rationals is non-zero.
pub proof fn lemma_mul_nonzero(a: (int, int), b: (int, int))
    requires
        a.0 != 0,
        b.0 != 0,
        a.1 > 0,
        b.1 > 0,
    ensures
        rat_mul(a, b).0 != 0,
        rat_mul(a, b).1 > 0,
{
    let (n, d) = (a.0 * b.0, a.1 * b.1);
    assert(n != 0) by (nonlinear_arith)
        requires a.0 != 0, b.0 != 0, n == a.0 * b.0;
    assert(d > 0) by (nonlinear_arith)
        requires a.1 > 0, b.1 > 0, d == a.1 * b.1;
    lemma_normalize_sign(n, d);
}

/// Lowest terms of a non-zero numerator over a positive denominator.
pub proof fn lemma_normalize_sign(n: int, d: int)
    requires
        n != 0,
        d > 0,
    ensures
        normalize(n, d).0 != 0,
        normalize(n, d).1 > 0,
        (normalize(n, d).0 > 0) == (n > 0),
{
    lemma_gcd_divides(abs_int(n), abs_int(d));
    let g = gcd(abs_int(n), abs_int(d)) as int;
    assert(0 < g <= d);
    assert(abs_int(n) % (g as nat) == 0);
    assert(d % g == 0);
    assert(n % g == 0) by {
        if n < 0 {
            assert(abs_int(n) as int == -n);
            lemma_neg_mod_zero(n, g);
        }
    }
    lemma_exact_div_sign(n, g);
    lemma_exact_div_sign(d, g);
}

proof fn lemma_neg_mod_zero(n: int, g: int)
    requires
        g > 0,
        (-n) % g == 0,
    ensures
        n % g == 0,
{
    vstd::arithmetic::div_mod::lemma_fundamental_div_mod(-n, g);
    let q = (-n) / g;
    assert(-n == g * q);
    assert(n == g * (-q)) by (nonlinear_arith)
        requires -n == g * q;
    vstd::arithmetic::div_mod::lemma_mod_multiples_basic(-q, g);
    assert(g * (-q) == (-q) * g) by (nonlinear_arith);
}

proof fn lemma_exact_div_sign(n: int, g: int)
    requires
        g > 0,
        n % g == 0,
    ensures
        (n / g > 0) == (n > 0),
        (n / g == 0) == (n == 0),
{
    vstd::arithmetic::div_mod::lemma_fundamental_div_mod(n, g);
    let q = n / g;
    assert(n == g * q);
    assert((q > 0) == (n > 0) && (q == 0) == (n == 0)) by (nonlinear_arith)
        requires n == g * q, g > 0;
}

/// The gcd of a pair with a positive member is a positive common divisor
/// no larger than that member.
pub proof fn lemma_gcd_divides(a: nat, b: nat)
    requires
        b > 0,
    ensures
        gcd(a, b) > 0,
        gcd(a, b) <= b,
        a % gcd(a, b) == 0,
        b % gcd(a, b) == 0,
    decreases b,
{
    let r = a % b;
    if r == 0 {
        reveal_with_fuel(gcd, 2);
        assert(gcd(a, b) == gcd(b, 0));
        vstd::arithmetic::div_mod::lemma_mod_self_0(b as int);
    } else {
        assert(r < b) by {
            vstd::arithmetic::div_mod::lemma_mod_bound(a as int, b as int);
        }
        lemma_gcd_divides(b, r);
        let g = gcd(b, r);
        assert(gcd(a, b) == g);
        // a = b*q + r, and g divides b and r.
        vstd::arithmetic::div_mod::lemma_fundamental_div_mod(a as int, b as int);
        let q = a as int / b as int;
        vstd::arithmetic::div_mod::lemma_fundamental_div_mod(b as int, g as int);
        vstd::arithmetic::div_mod::lemma_fundamental_div_mod(r as int, g as int);
        let (bq, rq) = (b as int / g as int, r as int / g as int);
        assert(a as int == g * (bq * q + rq)) by (nonlinear_arith)
            requires
                a as int == b * q + r,
                b as int == g * bq,
                r as int == g * rq;
        vstd::arithmetic::div_mod::lemma_mod_multiples_basic(bq * q + rq, g as int);
        assert(g * (bq * q + rq) == (bq * q + rq) * g) by (nonlinear_arith);
    }
}

} // verus!
