//! Exact numbers: arbitrary-precision rationals.
//!
//! Every number is an exact rational kept in lowest terms with a positive
//! denominator, so structural equality is numeric equality. The value is held
//! as plain data (a sign and base-2^32 limbs for numerator and denominator);
//! the arithmetic that needs big integers is done by `num-rational`.

use vstd::prelude::*;
use num_bigint::{BigInt, Sign};
use num_rational::BigRational;
use crate::text::{chars_of, string_from_chars};

verus! {

/// Value of little-endian base-2^32 limbs.
pub open spec fn limbs_value(s: Seq<u32>) -> nat
    decreases s.len(),
{
    if s.len() == 0 {
        0
    } else {
        s[0] as nat + 4294967296 * limbs_value(s.drop_first())
    }
}

/// No most-significant zero limb (zero is the empty sequence).
pub open spec fn limbs_canonical(s: Seq<u32>) -> bool {
    s.len() == 0 || s.last() != 0
}

/// Greatest common divisor (Euclid).
pub open spec fn gcd(a: nat, b: nat) -> nat
    decreases b,
{
    if b == 0 {
        a
    } else {
        gcd(b, a % b)
    }
}

pub open spec fn abs_int(x: int) -> nat {
    if x < 0 {
        (-x) as nat
    } else {
        x as nat
    }
}

/// A rational `(n, d)` in lowest terms with positive denominator.
pub open spec fn is_canonical(p: (int, int)) -> bool {
    p.1 > 0 && gcd(abs_int(p.0), p.1 as nat) == 1
}

/// The lowest-terms form of `n / d` (`d != 0`).
pub open spec fn normalize(n: int, d: int) -> (int, int) {
    let g = gcd(abs_int(n), abs_int(d)) as int;
    if d > 0 {
        (n / g, d / g)
    } else {
        ((-n) / g, (-d) / g)
    }
}

pub open spec fn rat_add(a: (int, int), b: (int, int)) -> (int, int) {
    normalize(a.0 * b.1 + b.0 * a.1, a.1 * b.1)
}

pub open spec fn rat_mul(a: (int, int), b: (int, int)) -> (int, int) {
    normalize(a.0 * b.0, a.1 * b.1)
}

pub open spec fn rat_neg(a: (int, int)) -> (int, int) {
    (-a.0, a.1)
}

pub open spec fn rat_sub(a: (int, int), b: (int, int)) -> (int, int) {
    rat_add(a, rat_neg(b))
}

/// Reciprocal of a non-zero canonical rational.
pub open spec fn rat_recip(a: (int, int)) -> (int, int) {
    if a.0 < 0 {
        (-a.1, -a.0)
    } else {
        (a.1, a.0)
    }
}

pub open spec fn rat_div(a: (int, int), b: (int, int)) -> (int, int) {
    rat_mul(a, rat_recip(b))
}

/// Order of rationals with positive denominators.
pub open spec fn rat_lt(a: (int, int), b: (int, int)) -> bool {
    a.0 * b.1 < b.0 * a.1
}

pub open spec fn rat_le(a: (int, int), b: (int, int)) -> bool {
    a.0 * b.1 <= b.0 * a.1
}

pub open spec fn digit_char(d: nat) -> char {
    if d == 0 { '0' }
    else if d == 1 { '1' }
    else if d == 2 { '2' }
    else if d == 3 { '3' }
    else if d == 4 { '4' }
    else if d == 5 { '5' }
    else if d == 6 { '6' }
    else if d == 7 { '7' }
    else if d == 8 { '8' }
    else { '9' }
}

/// Decimal digits of a natural number, most significant first.
pub open spec fn nat_decimal(n: nat) -> Seq<char>
    decreases n,
{
    if n < 10 {
        seq![digit_char(n)]
    } else {
        nat_decimal(n / 10).push(digit_char(n % 10))
    }
}

/// Decimal rendering of an integer, with a leading `-` when negative.
pub open spec fn int_decimal(i: int) -> Seq<char> {
    if i < 0 {
        seq!['-'] + nat_decimal((-i) as nat)
    } else {
        nat_decimal(i as nat)
    }
}

/// How a number prints: `7`, `-3`, `33/32`.
pub open spec fn rat_text(a: (int, int)) -> Seq<char> {
    if a.1 == 1 {
        int_decimal(a.0)
    } else {
        int_decimal(a.0) + seq!['/'] + int_decimal(a.1)
    }
}


pub open spec fn is_digit(c: char) -> bool {
    '0' <= c && c <= '9'
}

pub open spec fn all_digits(s: Seq<char>) -> bool {
    forall|i: int| 0 <= i < s.len() ==> is_digit(#[trigger] s[i])
}

/// Value of a string of decimal digits.
pub open spec fn digits_value(s: Seq<char>) -> nat
    decreases s.len(),
{
    if s.len() == 0 {
        0
    } else {
        digits_value(s.drop_last()) * 10 + ((s.last() as u32 - '0' as u32) as nat)
    }
}

pub open spec fn pow10(k: nat) -> nat
    decreases k,
{
    if k == 0 {
        1
    } else {
        10 * pow10((k - 1) as nat)
    }
}

/// Index of the first `.` in `s` (its length when there is none).
pub open spec fn dot_index(s: Seq<char>) -> nat
    decreases s.len(),
{
    if s.len() == 0 {
        0
    } else if s[0] == '.' {
        0
    } else {
        1 + dot_index(s.drop_first())
    }
}

/// The literal without its optional leading `-`.
pub open spec fn literal_body(s: Seq<char>) -> Seq<char> {
    if s.len() > 0 && s[0] == '-' {
        s.drop_first()
    } else {
        s
    }
}

pub open spec fn literal_int_part(s: Seq<char>) -> Seq<char> {
    literal_body(s).take(dot_index(literal_body(s)) as int)
}

pub open spec fn literal_frac_part(s: Seq<char>) -> Seq<char> {
    let b = literal_body(s);
    if dot_index(b) < b.len() {
        b.skip(dot_index(b) as int + 1)
    } else {
        Seq::<char>::empty()
    }
}

/// A number literal: digits, optionally `.` and digits, with an optional
/// leading `-`.
pub open spec fn literal_ok(s: Seq<char>) -> bool {
    let b = literal_body(s);
    &&& literal_int_part(s).len() > 0
    &&& all_digits(literal_int_part(s))
    &&& (dot_index(b) < b.len() ==> literal_frac_part(s).len() > 0 && all_digits(literal_frac_part(s)))
}

/// The exact value of a literal: `18.5` is 37/2, `0.10` is 1/10.
pub open spec fn literal_value(s: Seq<char>) -> (int, int) {
    let v = normalize(
        digits_value(literal_int_part(s) + literal_frac_part(s)) as int,
        pow10(literal_frac_part(s).len()) as int,
    );
    if s.len() > 0 && s[0] == '-' {
        rat_neg(v)
    } else {
        v
    }
}

/// An exact rational number of arbitrary precision.
#[derive(Debug, PartialEq, Eq, Hash)]
pub struct Number {
    neg: bool,
    num: Vec<u32>,
    den: Vec<u32>,
}

/// Error converting literal text into a [`Number`].
#[derive(Debug, Clone, PartialEq, Eq)]
pub struct ParseNumberError(pub String);

impl View for Number {
    type V = (int, int);

    closed spec fn view(&self) -> (int, int) {
        let n = limbs_value(self.num@) as int;
        (if self.neg { -n } else { n }, limbs_value(self.den@) as int)
    }
}

pub proof fn lemma_gcd_one(a: nat)
    ensures
        gcd(a, 1) == 1,
        gcd(1, a) == 1,
{
    reveal_with_fuel(gcd, 3);
    if a > 1 {
        assert(1nat % a == 1) by (nonlinear_arith)
            requires a > 1;
    }
}

pub proof fn lemma_gcd_comm(a: nat, b: nat)
    ensures
        gcd(a, b) == gcd(b, a),
{
    reveal_with_fuel(gcd, 2);
    if a < b {
        vstd::arithmetic::div_mod::lemma_small_mod(a, b);
    } else if b < a {
        vstd::arithmetic::div_mod::lemma_small_mod(b, a);
    }
}


/// Integer arithmetic on denominator-one rationals.
pub proof fn lemma_int_ops(a: int, b: int)
    ensures
        rat_add((a, 1int), (b, 1int)) == (a + b, 1int),
        rat_mul((a, 1int), (b, 1int)) == (a * b, 1int),
{
    lemma_normalize_int(a + b);
    lemma_normalize_int(a * b);
    assert(a * 1 == a && b * 1 == b && 1int * 1int == 1int);
}

/// An integer is its own lowest-terms form.
pub proof fn lemma_normalize_int(n: int)
    ensures
        normalize(n, 1) == (n, 1int),
{
    lemma_gcd_one(abs_int(n));
    assert(abs_int(1) == 1);
    assert(n / 1 == n);
}

proof fn lemma_dot_index(s: Seq<char>)
    ensures
        dot_index(s) <= s.len(),
        dot_index(s) < s.len() ==> s[dot_index(s) as int] == '.',
        forall|i: int| 0 <= i < dot_index(s) ==> s[i] != '.',
    decreases s.len(),
{
    if s.len() > 0 && s[0] != '.' {
        lemma_dot_index(s.drop_first());
        assert forall|i: int| 0 <= i < dot_index(s) implies s[i] != '.' by {
            if i > 0 {
                assert(s[i] == s.drop_first()[i - 1]);
            }
        }
    }
}

proof fn lemma_pow10_pos(k: nat)
    ensures
        pow10(k) > 0,
    decreases k,
{
    if k > 0 {
        lemma_pow10_pos((k - 1) as nat);
    }
}

proof fn lemma_limbs_zero(s: Seq<u32>)
    requires
        limbs_canonical(s),
    ensures
        (limbs_value(s) == 0) == (s.len() == 0),
    decreases s.len(),
{
    if s.len() > 0 {
        let r = s.drop_first();
        if r.len() > 0 {
            assert(r.last() == s.last());
            lemma_limbs_zero(r);
        }
    }
}

proof fn lemma_limbs_injective(s: Seq<u32>, t: Seq<u32>)
    requires
        limbs_canonical(s),
        limbs_canonical(t),
        limbs_value(s) == limbs_value(t),
    ensures
        s == t,
    decreases s.len(),
{
    lemma_limbs_zero(s);
    lemma_limbs_zero(t);
    if s.len() > 0 {
        let (rs, rt) = (s.drop_first(), t.drop_first());
        let (vs, vt) = (limbs_value(rs), limbs_value(rt));
        assert(s[0] as nat + 4294967296 * vs == t[0] as nat + 4294967296 * vt);
        assert(s[0] == t[0] && vs == vt) by (nonlinear_arith)
            requires
                s[0] as nat + 4294967296 * vs == t[0] as nat + 4294967296 * vt,
                s[0] < 4294967296,
                t[0] < 4294967296,
        ;
        if rs.len() > 0 {
            assert(rs.last() == s.last());
        }
        if rt.len() > 0 {
            assert(rt.last() == t.last());
        }
        lemma_limbs_injective(rs, rt);
        assert(s =~= seq![s[0]] + rs);
        assert(t =~= seq![t[0]] + rt);
    }
}

impl Number {
    #[verifier::type_invariant]
    closed spec fn wf(self) -> bool {
        &&& limbs_canonical(self.num@)
        &&& limbs_canonical(self.den@)
        &&& limbs_value(self.den@) > 0
        &&& gcd(limbs_value(self.num@), limbs_value(self.den@)) == 1
        &&& (self.neg ==> limbs_value(self.num@) > 0)
    }

    /// Every number is a canonical rational.
    pub fn lemma_canonical(&self)
        ensures
            is_canonical(self@),
    {
        proof {
            use_type_invariant(self);
        }
    }

    /// Convert literal text to its exact value. Accepts digits optionally
    /// followed by `.digits`, with an optional leading `-`; the decimal
    /// fraction is exact.
    pub fn from_literal(text: &str) -> (r: Result<Number, ParseNumberError>)
        ensures
            r.is_ok() == literal_ok(text@),
            r.is_ok() ==> r.unwrap()@ == literal_value(text@),
            r.is_err() ==> r->Err_0.0@ == text@,
    {
        let s = chars_of(text);
        Number::from_literal_chars(&s, text)
    }

    fn from_literal_chars(s: &Vec<char>, text: &str) -> (r: Result<Number, ParseNumberError>)
        requires
            s@ == text@,
        ensures
            r.is_ok() == literal_ok(text@),
            r.is_ok() ==> r.unwrap()@ == literal_value(text@),
            r.is_err() ==> r->Err_0.0@ == text@,
    {
        let ghost t = s@;
        let negative = s.len() > 0 && s[0] == '-';
        let start: usize = if negative { 1 } else { 0 };
        let ghost body = literal_body(t);
        assert(body =~= t.skip(start as int));
        // The first `.`.
        let mut dot: usize = start;
        while dot < s.len() && s[dot] != '.'
            invariant
                start <= dot <= s.len(),
                s@ == t,
                body =~= t.skip(start as int),
                forall|i: int| start <= i < dot ==> t[i] != '.',
            decreases s.len() - dot,
        {
            dot = dot + 1;
        }
        proof {
            lemma_dot_index(body);
            if dot_index(body) < dot - start {
                assert(body[dot_index(body) as int] == t[start + dot_index(body)]);
            }
            if dot < s.len() && dot_index(body) > dot - start {
                assert(body[dot - start] == t[dot as int]);
            }
            assert(dot_index(body) == dot - start);
        }
        let has_dot = dot < s.len();
        let end_frac: usize = s.len();
        let frac_start: usize = if has_dot { dot + 1 } else { s.len() };
        let ghost ip = literal_int_part(t);
        let ghost fp = literal_frac_part(t);
        assert(ip =~= t.subrange(start as int, dot as int));
        assert(fp =~= t.subrange(frac_start as int, end_frac as int));
        // Check the digits.
        let mut ok = dot > start && (!has_dot || frac_start < end_frac);
        let mut i: usize = start;
        while i < s.len()
            invariant
                start <= i <= s.len(),
                s@ == t,
                frac_start <= s.len(),
                dot <= frac_start,
                has_dot ==> frac_start == dot + 1,
                !has_dot ==> dot == s.len() && frac_start == s.len(),
                ok == (dot > start && (!has_dot || frac_start < s.len())
                    && (forall|j: int| start <= j < i && j != dot ==> is_digit(#[trigger] t[j]))),
            decreases s.len() - i,
        {
            if i != dot && !('0' <= s[i] && s[i] <= '9') {
                ok = false;
            }
            i = i + 1;
        }
        proof {
            if ok {
                assert(all_digits(ip));
                assert(all_digits(fp));
            }
            if literal_ok(t) {
                assert forall|j: int| start <= j < s.len() && j != dot implies is_digit(#[trigger] t[j]) by {
                    if j < dot {
                        assert(t[j] == ip[j - start]);
                    } else {
                        assert(t[j] == fp[j - frac_start]);
                    }
                }
            }
        }
        if !ok {
            return Err(ParseNumberError(string_from_chars(s)));
        }
        // value = (int ++ frac digits) / 10^len(frac)
        let ghost digits = ip + fp;
        let ten = Number::from_i64(10);
        let mut acc = Number::zero();
        let mut j: usize = start;
        let mut taken: usize = 0;
        while j < s.len()
            invariant
                start <= j <= s.len(),
                s@ == t,
                start <= dot <= frac_start <= s.len(),
                !has_dot ==> dot == s.len(),
                has_dot ==> frac_start == dot + 1,
                digits == ip + fp,
                ip =~= t.subrange(start as int, dot as int),
                fp =~= t.subrange(frac_start as int, s.len() as int),
                all_digits(ip),
                all_digits(fp),
                ten@ == (10int, 1int),
                taken <= digits.len(),
                j <= dot ==> taken == j - start,
                j > dot ==> j >= frac_start && taken == ip.len() + (j - frac_start),
                acc@ == (digits_value(digits.take(taken as int)) as int, 1int),
            decreases s.len() - j,
        {
            if j == dot {
                j = frac_start;
                continue;
            }
            let c = s[j];
            proof {
                if j < dot {
                    assert(c == ip[j - start]);
                    assert(digits[taken as int] == c);
                } else {
                    assert(c == fp[j - frac_start]);
                    assert(digits[taken as int] == fp[j - frac_start]);
                }
                assert(is_digit(c));
                assert(ip.len() == dot - start);
                assert(fp.len() == s.len() - frac_start);
                assert(taken < digits.len());
                assert(digits.take(taken + 1).drop_last() =~= digits.take(taken as int));
            }
            let d: i64 = (c as u32 - '0' as u32) as i64;
            proof {
                lemma_int_ops(digits_value(digits.take(taken as int)) as int, 10);
                lemma_int_ops(digits_value(digits.take(taken as int)) as int * 10, d as int);
            }
            let scaled = acc.times(&ten);
            acc = scaled.plus(&Number::from_i64(d));
            j = j + 1;
            taken = taken + 1;
        }
        assert(digits.take(taken as int) =~= digits);
        // The denominator 10^k.
        let mut p = Number::one();
        let mut k: usize = frac_start;
        while k < s.len()
            invariant
                frac_start <= k <= s.len(),
                ten@ == (10int, 1int),
                p@ == (pow10((k - frac_start) as nat) as int, 1int),
            decreases s.len() - k,
        {
            proof {
                lemma_int_ops(pow10((k - frac_start) as nat) as int, 10);
                assert(pow10((k + 1 - frac_start) as nat) == 10 * pow10((k - frac_start) as nat));
            }
            p = p.times(&ten);
            k = k + 1;
        }
        proof {
            lemma_pow10_pos(fp.len());
            assert(rat_recip(p@) == (1int, p@.0));
            assert(acc@.0 * 1 == acc@.0);
            assert(1 * p@.0 == p@.0);
        }
        let v = match acc.divide(&p) {
            Some(v) => v,
            None => { return Err(ParseNumberError(string_from_chars(s))); },
        };
        if negative {
            Ok(v.negate())
        } else {
            Ok(v)
        }
    }

    /// The integer `v`.
    pub fn from_i64(v: i64) -> (r: Number)
        ensures
            r@ == (v as int, 1int),
    {
        let neg = v < 0;
        let m: u64 = if v < 0 {
            if v == i64::MIN {
                9223372036854775808u64
            } else {
                (-v) as u64
            }
        } else {
            v as u64
        };
        let lo: u32 = (m % 4294967296) as u32;
        let hi: u32 = (m / 4294967296) as u32;
        assert(m == lo + 4294967296 * hi) by (nonlinear_arith)
            requires
                lo == m % 4294967296,
                hi == m / 4294967296,
        ;
        let mut num: Vec<u32> = Vec::new();
        if hi != 0 {
            num.push(lo);
            num.push(hi);
            assert(num@.drop_first() =~= seq![hi]);
            assert(seq![hi].drop_first() =~= Seq::<u32>::empty());
        } else if lo != 0 {
            num.push(lo);
            assert(num@.drop_first() =~= Seq::<u32>::empty());
        }
        let mut den: Vec<u32> = Vec::new();
        den.push(1);
        assert(den@.drop_first() =~= Seq::<u32>::empty());
        proof {
            lemma_gcd_one(limbs_value(num@));
            reveal_with_fuel(limbs_value, 3);
        }
        Number { neg, num, den }
    }

    /// Zero.
    pub fn zero() -> (r: Number)
        ensures
            r@ == (0int, 1int),
    {
        Number::from_i64(0)
    }

    /// One.
    pub fn one() -> (r: Number)
        ensures
            r@ == (1int, 1int),
    {
        Number::from_i64(1)
    }

    /// True if the value is zero.
    pub fn is_zero(&self) -> (b: bool)
        ensures
            b == (self@.0 == 0),
    {
        proof {
            use_type_invariant(self);
            lemma_limbs_zero(self.num@);
        }
        self.num.len() == 0
    }

    /// True if the value is above zero.
    pub fn is_positive(&self) -> (b: bool)
        ensures
            b == (self@.0 > 0),
    {
        proof {
            use_type_invariant(self);
            lemma_limbs_zero(self.num@);
        }
        !self.neg && self.num.len() != 0
    }

    /// True if the value is below zero.
    pub fn is_negative(&self) -> (b: bool)
        ensures
            b == (self@.0 < 0),
    {
        proof {
            use_type_invariant(self);
        }
        self.neg
    }

    /// True if the denominator is one.
    pub fn is_integer(&self) -> (b: bool)
        ensures
            b == (self@.1 == 1),
    {
        proof {
            use_type_invariant(self);
            if self.den.len() >= 2 {
                let s = self.den@;
                let r = s.drop_first();
                assert(r.last() == s.last());
                lemma_limbs_zero(r);
                assert(limbs_value(s) >= 4294967296) by (nonlinear_arith)
                    requires limbs_value(s) == s[0] as nat + 4294967296 * limbs_value(r),
                        limbs_value(r) > 0;
            }
            if self.den.len() == 1 {
                reveal_with_fuel(limbs_value, 2);
                assert(self.den@.drop_first() =~= Seq::<u32>::empty());
            }
            lemma_limbs_zero(self.den@);
        }
        self.den.len() == 1 && self.den[0] == 1
    }

    /// Structural, hence numeric, equality.
    pub fn equals(&self, other: &Number) -> (b: bool)
        ensures
            b == (self@ == other@),
    {
        proof {
            use_type_invariant(self);
            use_type_invariant(other);
            if self@ == other@ {
                lemma_limbs_injective(self.num@, other.num@);
                lemma_limbs_injective(self.den@, other.den@);
                lemma_limbs_zero(self.num@);
            }
        }
        let eq_num = vec_u32_eq(&self.num, &other.num);
        let eq_den = vec_u32_eq(&self.den, &other.den);
        self.neg == other.neg && eq_num && eq_den
    }

    /// A copy of this number.
    pub fn copy(&self) -> (r: Number)
        ensures
            r@ == self@,
    {
        proof {
            use_type_invariant(self);
        }
        Number { neg: self.neg, num: copy_limbs(&self.num), den: copy_limbs(&self.den) }
    }

    /// `-self`.
    pub fn negate(&self) -> (r: Number)
        ensures
            r@ == rat_neg(self@),
    {
        proof {
            use_type_invariant(self);
            lemma_limbs_zero(self.num@);
        }
        Number { neg: !self.neg && self.num.len() != 0, num: copy_limbs(&self.num), den: copy_limbs(&self.den) }
    }

    /// `|self|`.
    pub fn abs(&self) -> (r: Number)
        ensures
            r@ == (abs_int(self@.0) as int, self@.1),
    {
        proof {
            use_type_invariant(self);
        }
        Number { neg: false, num: copy_limbs(&self.num), den: copy_limbs(&self.den) }
    }

    /// Numerator in lowest terms (carries the sign), as an integer.
    pub fn numer(&self) -> (r: Number)
        ensures
            r@ == (self@.0, 1int),
    {
        proof {
            use_type_invariant(self);
            lemma_gcd_one(limbs_value(self.num@));
        }
        let mut den: Vec<u32> = Vec::new();
        den.push(1);
        proof {
            reveal_with_fuel(limbs_value, 2);
            assert(den@.drop_first() =~= Seq::<u32>::empty());
        }
        Number { neg: self.neg, num: copy_limbs(&self.num), den }
    }

    /// Denominator in lowest terms (always positive), as an integer.
    pub fn denom(&self) -> (r: Number)
        ensures
            r@ == (self@.1, 1int),
    {
        proof {
            use_type_invariant(self);
            lemma_gcd_one(limbs_value(self.den@));
        }
        let mut one: Vec<u32> = Vec::new();
        one.push(1);
        proof {
            reveal_with_fuel(limbs_value, 2);
            assert(one@.drop_first() =~= Seq::<u32>::empty());
        }
        Number { neg: false, num: copy_limbs(&self.den), den: one }
    }

    /// `1 / self`, or `None` for zero.
    pub fn recip(&self) -> (r: Option<Number>)
        ensures
            self@.0 == 0 ==> r.is_none(),
            self@.0 != 0 ==> r.is_some() && r.unwrap()@ == rat_recip(self@),
    {
        proof {
            use_type_invariant(self);
            lemma_limbs_zero(self.num@);
            lemma_gcd_comm(limbs_value(self.num@), limbs_value(self.den@));
        }
        if self.num.len() == 0 {
            None
        } else {
            Some(Number { neg: self.neg, num: copy_limbs(&self.den), den: copy_limbs(&self.num) })
        }
    }

    /// `self + other`.
    pub fn plus(&self, other: &Number) -> (r: Number)
        ensures
            r@ == rat_add(self@, other@),
    {
        big_add(self, other)
    }

    /// `self - other`.
    pub fn minus(&self, other: &Number) -> (r: Number)
        ensures
            r@ == rat_sub(self@, other@),
    {
        let n = other.negate();
        big_add(self, &n)
    }

    /// `self * other`.
    pub fn times(&self, other: &Number) -> (r: Number)
        ensures
            r@ == rat_mul(self@, other@),
    {
        big_mul(self, other)
    }

    /// `self / other`, or `None` when `other` is zero.
    pub fn divide(&self, other: &Number) -> (r: Option<Number>)
        ensures
            other@.0 == 0 ==> r.is_none(),
            other@.0 != 0 ==> r.is_some() && r.unwrap()@ == rat_div(self@, other@),
    {
        match other.recip() {
            None => None,
            Some(inv) => Some(big_mul(self, &inv)),
        }
    }

    /// `self < other`.
    pub fn less_than(&self, other: &Number) -> (b: bool)
        ensures
            b == rat_lt(self@, other@),
    {
        big_less(self, other)
    }

    /// `self <= other`.
    pub fn less_eq(&self, other: &Number) -> (b: bool)
        ensures
            b == rat_le(self@, other@),
    {
        !big_less(other, self)
    }

    /// The rational `numer / denom`, or `None` if `denom` is zero.
    pub fn from_ratio(numer: i64, denom: i64) -> (r: Option<Number>)
        ensures
            denom == 0 ==> r.is_none(),
            denom != 0 ==> r.is_some() && r.unwrap()@ == rat_div((numer as int, 1int), (denom as int, 1int)),
    {
        let n = Number::from_i64(numer);
        let d = Number::from_i64(denom);
        n.divide(&d)
    }

    /// The text of the number: integers plainly (`7`), others as
    /// `numer/denom` in lowest terms (`33/32`).
    pub fn to_text(&self) -> (s: Vec<char>)
        ensures
            s@ == rat_text(self@),
    {
        proof {
            use_type_invariant(self);
        }
        let n = decimal_chars(self.neg, &self.num);
        if self.is_integer() {
            n
        } else {
            let mut out = n;
            out.push('/');
            let d = decimal_chars(false, &self.den);
            let mut i: usize = 0;
            let ghost start = out@;
            while i < d.len()
                invariant
                    i <= d.len(),
                    out@ == start + d@.take(i as int),
                decreases d.len() - i,
            {
                out.push(d[i]);
                i = i + 1;
                assert(d@.take(i as int) =~= d@.take(i - 1).push(d@[i - 1]));
            }
            assert(d@.take(d.len() as int) =~= d@);
            out
        }
    }

    /// The text of the number as a `String`.
    pub fn to_string(&self) -> (s: String)
        ensures
            s@ == rat_text(self@),
    {
        let v = self.to_text();
        string_from_chars(&v)
    }
}

impl Clone for Number {
    fn clone(&self) -> (r: Number)
        ensures
            r@ == self@,
    {
        self.copy()
    }
}

fn copy_limbs(v: &Vec<u32>) -> (r: Vec<u32>)
    ensures
        r@ == v@,
{
    let mut r: Vec<u32> = Vec::new();
    let mut i: usize = 0;
    while i < v.len()
        invariant
            i <= v.len(),
            r@ == v@.take(i as int),
        decreases v.len() - i,
    {
        r.push(v[i]);
        i = i + 1;
        assert(v@.take(i as int) =~= v@.take(i - 1).push(v@[i - 1]));
    }
    assert(v@.take(v.len() as int) =~= v@);
    r
}

fn vec_u32_eq(a: &Vec<u32>, b: &Vec<u32>) -> (r: bool)
    ensures
        r == (a@ == b@),
{
    if a.len() != b.len() {
        return false;
    }
    let mut i: usize = 0;
    while i < a.len()
        invariant
            i <= a.len(),
            a.len() == b.len(),
            forall|j: int| 0 <= j < i ==> a@[j] == b@[j],
        decreases a.len() - i,
    {
        if a[i] != b[i] {
            return false;
        }
        i = i + 1;
    }
    assert(a@ =~= b@);
    true
}

/// `a + b` computed by `num-rational` (`Ratio::add`, which reduces the
/// result to lowest terms).
#[verifier::external_body]
fn big_add(a: &Number, b: &Number) -> (r: Number)
    ensures
        r@ == rat_add(a@, b@),
{
    let s = |n: bool| if n { Sign::Minus } else { Sign::Plus };
    let x = BigRational::new(BigInt::new(s(a.neg), a.num.clone()), BigInt::new(Sign::Plus, a.den.clone()));
    let y = BigRational::new(BigInt::new(s(b.neg), b.num.clone()), BigInt::new(Sign::Plus, b.den.clone()));
    let z = x + y;
    let (sign, num) = z.numer().to_u32_digits();
    Number { neg: sign == Sign::Minus, num, den: z.denom().to_u32_digits().1 }
}

/// `a * b` computed by `num-rational` (`Ratio::mul`, which reduces the
/// result to lowest terms).
#[verifier::external_body]
fn big_mul(a: &Number, b: &Number) -> (r: Number)
    ensures
        r@ == rat_mul(a@, b@),
{
    let s = |n: bool| if n { Sign::Minus } else { Sign::Plus };
    let x = BigRational::new(BigInt::new(s(a.neg), a.num.clone()), BigInt::new(Sign::Plus, a.den.clone()));
    let y = BigRational::new(BigInt::new(s(b.neg), b.num.clone()), BigInt::new(Sign::Plus, b.den.clone()));
    let z = x * y;
    let (sign, num) = z.numer().to_u32_digits();
    Number { neg: sign == Sign::Minus, num, den: z.denom().to_u32_digits().1 }
}

/// `a < b` as decided by `num-rational` (`Ratio::lt`, the order of the
/// values).
#[verifier::external_body]
fn big_less(a: &Number, b: &Number) -> (r: bool)
    ensures
        r == rat_lt(a@, b@),
{
    let s = |n: bool| if n { Sign::Minus } else { Sign::Plus };
    let x = BigRational::new(BigInt::new(s(a.neg), a.num.clone()), BigInt::new(Sign::Plus, a.den.clone()));
    let y = BigRational::new(BigInt::new(s(b.neg), b.num.clone()), BigInt::new(Sign::Plus, b.den.clone()));
    x < y
}

/// Decimal digits of the integer with the given sign and limbs, by
/// `num-bigint` (`BigInt::to_str_radix` with radix 10).
#[verifier::external_body]
fn big_decimal(neg: bool, limbs: &Vec<u32>) -> (s: String)
    ensures
        s@ == int_decimal(if neg { -(limbs_value(limbs@) as int) } else { limbs_value(limbs@) as int }),
{
    BigInt::new(if neg { Sign::Minus } else { Sign::Plus }, limbs.clone()).to_str_radix(10)
}

fn decimal_chars(neg: bool, limbs: &Vec<u32>) -> (s: Vec<char>)
    ensures
        s@ == int_decimal(if neg { -(limbs_value(limbs@) as int) } else { limbs_value(limbs@) as int }),
{
    let t = big_decimal(neg, limbs);
    chars_of(t.as_str())
}

impl std::str::FromStr for Number {
    type Err = ParseNumberError;

    /// Parse a literal, as [`Number::from_literal`].
    fn from_str(s: &str) -> (r: Result<Number, ParseNumberError>)
        ensures
            r.is_ok() == literal_ok(s@),
            r.is_ok() ==> r.unwrap()@ == literal_value(s@),
            r.is_err() ==> r->Err_0.0@ == s@,
    {
        Number::from_literal(s)
    }
}

} // verus!
