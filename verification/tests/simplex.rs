use claimr::solver::{Delta, LinExpr, RelOp, SVar, Simplex};
use claimr::Number;

fn n(s: &str) -> Number {
    Number::from_literal(s).unwrap()
}
fn lin(terms: &[(SVar, &str)], c: &str) -> LinExpr {
    let mut e = LinExpr::constant(n(c));
    for (v, a) in terms {
        e.add_term(*v, &n(a));
    }
    e
}
fn neg(s: &str) -> Number {
    n(s).negate()
}

#[test]
fn two_equations_determine_both_variables() {
    let mut s = Simplex::new();
    let x = s.new_var();
    let y = s.new_var();
    let mut e1 = lin(&[(x, "1"), (y, "1")], "0");
    e1.set_constant(neg("10"));
    assert!(s.assert_constraint(&e1, RelOp::Eq));
    let mut e2 = lin(&[(x, "1")], "0");
    e2.add_term(y, &neg("1"));
    e2.set_constant(neg("2"));
    assert!(s.assert_constraint(&e2, RelOp::Eq));
    assert_eq!(s.is_determined(x), Some(n("6")));
    assert_eq!(s.is_determined(y), Some(n("4")));
}

#[test]
fn coinciding_bounds_and_infeasibility() {
    let mut s = Simplex::new();
    let x = s.new_var();
    assert!(s.assert_lower(x, Delta::exact(n("3"))));
    assert_eq!(s.is_determined(x), None);
    assert!(s.assert_upper(x, Delta::exact(n("3"))));
    assert_eq!(s.is_determined(x), Some(n("3")));
    let m = s.mark();
    assert!(!s.assert_lower(x, Delta::new(n("3"), n("1"))));
    s.undo_to(m);
    assert_eq!(s.is_determined(x), Some(n("3")));
}

#[test]
fn strict_inequalities() {
    let mut s = Simplex::new();
    let x = s.new_var();
    let e = lin(&[(x, "1")], "-3");
    assert!(s.assert_constraint(&e, RelOp::Gt));
    let m = s.mark();
    assert!(!s.assert_constraint(&e, RelOp::Lt));
    s.undo_to(m);
    assert!(!s.assert_constraint(&e, RelOp::Le));
    s.undo_to(m);
    assert!(s.assert_constraint(&e, RelOp::Ge));
    assert_eq!(s.is_determined(x), None);
}

#[test]
fn implied_equality_through_rows() {
    let mut s = Simplex::new();
    let x = s.new_var();
    let y = s.new_var();
    let mut e = lin(&[(x, "1")], "0");
    e.add_term(y, &neg("1"));
    assert!(s.assert_constraint(&e, RelOp::Eq));
    assert!(s.fix(y, n("3")));
    assert_eq!(s.is_determined(x), Some(n("3")));
    let mut s2 = Simplex::new();
    let x = s2.new_var();
    let y = s2.new_var();
    let d = s2.new_var();
    let mut e = lin(&[(x, "1")], "0");
    e.add_term(y, &neg("1"));
    s2.define(d, &e);
    assert!(s2.fix(d, n("0")));
    assert_eq!(s2.is_determined(x), None);
    assert_eq!(s2.is_determined(d), Some(n("0")));
}

#[test]
fn undo_restores_bounds_and_feasibility() {
    let mut s = Simplex::new();
    let x = s.new_var();
    let y = s.new_var();
    let sum = lin(&[(x, "1"), (y, "1")], "-10");
    assert!(s.assert_constraint(&sum, RelOp::Le));
    let m = s.mark();
    assert!(s.assert_lower(x, Delta::exact(n("8"))));
    assert!(!s.assert_lower(y, Delta::exact(n("5"))));
    s.undo_to(m);
    assert!(s.assert_lower(y, Delta::exact(n("5"))));
    assert!(s.assert_lower(x, Delta::exact(n("5"))));
    assert_eq!(s.is_determined(x), Some(n("5")));
    assert_eq!(s.is_determined(y), Some(n("5")));
}

#[test]
fn exact_rationals_no_drift() {
    let mut s = Simplex::new();
    let x = s.new_var();
    let e = lin(&[(x, "3")], "-1");
    assert!(s.assert_constraint(&e, RelOp::Eq));
    assert_eq!(s.is_determined(x), Number::from_ratio(1, 3));
    let mut acc = LinExpr::constant(neg("0.3"));
    for _ in 0..3 {
        acc.add_term(x, &n("0.1"));
    }
    let m = s.mark();
    assert!(!s.assert_constraint(&acc, RelOp::Eq));
    s.undo_to(m);
}

#[test]
fn bland_terminates_on_a_cycling_prone_instance() {
    let mut s = Simplex::new();
    let v: Vec<SVar> = (0..7).map(|_| s.new_var()).collect();
    for x in &v {
        assert!(s.assert_lower(*x, Delta::zero()));
    }
    let rows = [
        (vec![(v[0], "0.25"), (v[1], "-8"), (v[2], "-1"), (v[3], "9"), (v[4], "1")], "0"),
        (vec![(v[0], "0.5"), (v[1], "-12"), (v[2], "-0.5"), (v[3], "3"), (v[5], "1")], "0"),
        (vec![(v[2], "1"), (v[6], "1")], "-1"),
    ];
    for (terms, c) in rows {
        let e = lin(&terms, c);
        assert!(s.assert_constraint(&e, RelOp::Eq));
    }
    let obj = lin(&[(v[0], "-0.75"), (v[1], "20"), (v[2], "-0.5"), (v[3], "6")], "0");
    assert!(s.assert_constraint(&obj, RelOp::Le));
    let m = s.mark();
    let tight = lin(&[(v[0], "-0.75"), (v[1], "20"), (v[2], "-0.5"), (v[3], "6")], "0.5");
    let _ = s.assert_constraint(&tight, RelOp::Le);
    s.undo_to(m);
    assert!(s.check());
}

#[test]
fn flipping_a_relation_twice_is_the_identity() {
    for op in [RelOp::Lt, RelOp::Le, RelOp::Eq, RelOp::Ge, RelOp::Gt] {
        assert_eq!(op.flip().flip(), op);
    }
    assert_eq!(RelOp::Lt.flip(), RelOp::Gt);
    assert_eq!(RelOp::Le.flip(), RelOp::Ge);
    assert_eq!(RelOp::Eq.flip(), RelOp::Eq);
}

#[test]
fn a_feasible_check_leaves_every_value_within_its_bounds() {
    let mut s = Simplex::new();
    let x = s.new_var();
    let y = s.new_var();
    // x + y >= 4, x - y <= 1, y <= 2
    let mut e1 = lin(&[(x, "1"), (y, "1")], "0");
    e1.set_constant(neg("4"));
    assert!(s.assert_constraint(&e1, RelOp::Ge));
    let mut e2 = lin(&[(x, "1")], "0");
    e2.add_term(y, &neg("1"));
    e2.set_constant(neg("1"));
    assert!(s.assert_constraint(&e2, RelOp::Le));
    assert!(s.assert_upper(y, Delta::exact(n("2"))));
    assert!(s.check());
    for i in 0..s.num_vars() {
        let v = SVar(i);
        let val = s.value(v).copy();
        if let Some(l) = s.lower(v) {
            assert!(!val.less_than(l), "variable {i} below its lower bound");
        }
        if let Some(u) = s.upper(v) {
            assert!(!u.less_than(&val), "variable {i} above its upper bound");
        }
    }
    // The assignment also satisfies the constraints themselves.
    let xv = s.value(x).copy();
    let yv = s.value(y).copy();
    assert!(!xv.plus(&yv).less_than(&Delta::exact(n("4"))));
    assert!(!Delta::exact(n("1")).less_than(&xv.minus(&yv)));
}
