use claimr::eval::project::{fourier_motzkin, gaussian, Constraint, Kind};
use claimr::solver::{LinExpr, SVar};
use claimr::Number;

fn lin(terms: &[(usize, &str)], c: &str) -> LinExpr {
    let mut e = LinExpr::constant(Number::from_literal(c).unwrap());
    for (v, a) in terms {
        let a = if let Some(rest) = a.strip_prefix('-') {
            Number::from_literal(rest).unwrap().negate()
        } else {
            Number::from_literal(a).unwrap()
        };
        e.add_term(SVar(*v), &a);
    }
    e
}

fn terms_of(e: &LinExpr) -> Vec<(usize, String)> {
    (0..e.num_terms()).map(|i| {
        let (v, a) = e.term(i);
        (v.0, a.to_string())
    }).collect()
}

#[test]
fn fm_eliminates_a_two_sided_variable() {
    // X = Y + Z, Y > 0, Z > 0 with Y, Z internal and X public: X > 0.
    let mut cs = vec![
        Constraint { expr: lin(&[(0, "1"), (1, "-1"), (2, "-1")], "0"), kind: Kind::Eq },
        Constraint { expr: lin(&[(1, "1")], "0"), kind: Kind::Gt },
        Constraint { expr: lin(&[(2, "1")], "0"), kind: Kind::Gt },
    ];
    let internal = vec![SVar(1), SVar(2)];
    let public = vec![SVar(0)];
    gaussian(&mut cs, &internal, &public);
    assert_eq!(cs.len(), 2);
    assert!(cs.iter().all(|c| c.kind != Kind::Eq));
    let survivors = fourier_motzkin(&mut cs, &internal);
    assert!(survivors.is_empty());
    assert_eq!(cs.len(), 1);
    assert_eq!(cs[0].kind, Kind::Gt);
    assert_eq!(terms_of(&cs[0].expr), vec![(0, "1".to_string())]);
    assert!(cs[0].expr.constant_part().is_zero());
}

#[test]
fn budget_keeps_survivors() {
    // Many lowers and uppers on an internal variable: exceed the budget.
    let mut cs = Vec::new();
    for i in 0..20 {
        cs.push(Constraint { expr: lin(&[(0, "1"), (i + 1, "-1")], "0"), kind: Kind::Ge });
        cs.push(Constraint { expr: lin(&[(0, "-1"), (i + 21, "1")], "0"), kind: Kind::Ge });
    }
    let internal = vec![SVar(0)];
    let survivors = fourier_motzkin(&mut cs, &internal);
    assert_eq!(survivors, vec![SVar(0)]);
    assert_eq!(cs.len(), 40);
}

#[test]
fn gaussian_reduces_public_equalities() {
    // X + Y = 10 and X - Y = 2 over public X, Y: each equality keeps one
    // subject, and the reduced system is X = 6, Y = 4 up to orientation.
    let mut cs = vec![
        Constraint { expr: lin(&[(0, "1"), (1, "1")], "-10"), kind: Kind::Eq },
        Constraint { expr: lin(&[(0, "1"), (1, "-1")], "-2"), kind: Kind::Eq },
    ];
    gaussian(&mut cs, &vec![], &vec![SVar(0), SVar(1)]);
    assert_eq!(cs.len(), 2);
    assert!(cs.iter().all(|c| c.kind == Kind::Eq));
    // The second equality is left over a single variable.
    assert_eq!(terms_of(&cs[1].expr).len(), 1);
}

#[test]
fn disequations_keep_their_internal_variables() {
    // Y != 0 with Y internal and nothing to eliminate it: Y survives.
    let mut cs = vec![Constraint { expr: lin(&[(1, "1")], "0"), kind: Kind::Ne }];
    let survivors = fourier_motzkin(&mut cs, &vec![SVar(1)]);
    assert_eq!(survivors, vec![SVar(1)]);
    assert_eq!(cs.len(), 1);
}

#[test]
fn gaussian_keeps_every_inequality_and_disequation() {
    // Y = X + 1 eliminated: Y > 2 and Y != 5 become X + 1 > 2 and X + 1 != 5.
    let mut cs = vec![
        Constraint { expr: lin(&[(1, "1"), (0, "-1")], "-1"), kind: Kind::Eq },
        Constraint { expr: lin(&[(1, "1")], "-2"), kind: Kind::Gt },
        Constraint { expr: lin(&[(1, "1")], "-5"), kind: Kind::Ne },
    ];
    gaussian(&mut cs, &vec![SVar(1)], &vec![SVar(0)]);
    let kinds: Vec<Kind> = cs.iter().map(|c| c.kind).collect();
    assert_eq!(kinds, vec![Kind::Gt, Kind::Ne]);
    assert_eq!(terms_of(&cs[0].expr), vec![(0, "1".to_string())]);
}

#[test]
fn fourier_motzkin_keeps_disequations_in_order() {
    // Y >= X and Y <= 3 with Y internal; the disequations stay as they were.
    let mut cs = vec![
        Constraint { expr: lin(&[(0, "1")], "-7"), kind: Kind::Ne },
        Constraint { expr: lin(&[(1, "1"), (0, "-1")], "0"), kind: Kind::Ge },
        Constraint { expr: lin(&[(1, "-1")], "3"), kind: Kind::Ge },
        Constraint { expr: lin(&[(0, "1")], "-9"), kind: Kind::Ne },
    ];
    let survivors = fourier_motzkin(&mut cs, &vec![SVar(1)]);
    assert!(survivors.is_empty());
    let nes: Vec<Vec<(usize, String)>> = cs.iter().filter(|c| c.kind == Kind::Ne).map(|c| terms_of(&c.expr)).collect();
    assert_eq!(nes, vec![vec![(0, "1".to_string())], vec![(0, "1".to_string())]]);
    let consts: Vec<String> = cs.iter().filter(|c| c.kind == Kind::Ne).map(|c| c.expr.constant_part().to_string()).collect();
    assert_eq!(consts, vec!["-7".to_string(), "-9".to_string()]);
    assert_eq!(cs.len(), 3);
}
