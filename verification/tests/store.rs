use claimr::eval::store::Store;
use claimr::eval::{Symbol, Symbols};
use claimr::Number;

fn sym(s: &mut Symbols, n: &str) -> Symbol {
    s.intern(n)
}

#[test]
fn unify_constants_and_numbers() {
    let mut syms = Symbols::new();
    let mut st = Store::new();
    let a1 = st.new_const(sym(&mut syms, "a"));
    let a2 = st.new_const(sym(&mut syms, "a"));
    let b = st.new_const(sym(&mut syms, "b"));
    assert!(st.post_eq(a1, a2));
    assert!(!st.post_eq(a1, b));
    let half = st.new_num(Number::from_ratio(1, 2).unwrap());
    let half2 = st.new_num(Number::from_literal("0.50").unwrap());
    let third = st.new_num(Number::from_ratio(1, 3).unwrap());
    assert!(st.post_eq(half, half2));
    assert!(!st.post_eq(half, third));
    assert!(!st.post_eq(half, a1));
}

#[test]
fn unify_binds_variables_and_aliases() {
    let mut syms = Symbols::new();
    let mut st = Store::new();
    let x = st.new_var();
    let y = st.new_var();
    let a = st.new_const(sym(&mut syms, "a"));
    assert!(st.post_eq(x, y));
    assert_eq!(st.deref(x), st.deref(y));
    assert!(st.post_eq(y, a));
    assert_eq!(st.deref(x), a);
    assert_eq!(st.deref(y), a);
}

#[test]
fn unify_structures_and_fail_on_mismatch() {
    let mut syms = Symbols::new();
    let mut st = Store::new();
    let f = sym(&mut syms, "f");
    let g = sym(&mut syms, "g");
    let a = st.new_const(sym(&mut syms, "a"));
    let b = st.new_const(sym(&mut syms, "b"));
    let x = st.new_var();
    let y = st.new_var();
    let fxa = st.new_struct(f, vec![x, a]);
    let fby = st.new_struct(f, vec![b, y]);
    assert!(st.post_eq(fxa, fby));
    assert_eq!(st.deref(x), b);
    assert_eq!(st.deref(y), a);
    let ga = st.new_struct(g, vec![a]);
    let fa = st.new_struct(f, vec![a]);
    assert!(!st.post_eq(ga, fa));
    let faa = st.new_struct(f, vec![a, a]);
    assert!(!st.post_eq(fa, faa));
}

#[test]
fn undo_restores_exactly() {
    let mut syms = Symbols::new();
    let mut st = Store::new();
    let f = sym(&mut syms, "f");
    let x = st.new_var();
    let a = st.new_const(sym(&mut syms, "a"));
    let mark = st.mark();
    let fx = st.new_struct(f, vec![x]);
    let fa = st.new_struct(f, vec![a]);
    assert!(st.post_eq(fx, fa));
    assert_eq!(st.deref(x), a);
    st.undo_to(&mark);
    assert_eq!(st.deref(x), x);
    assert_eq!(st.len(), mark.heap_size());
    assert_eq!(st.trail_size(), mark.trail_size());
}

#[test]
fn cyclic_terms_unify_and_terminate() {
    let mut syms = Symbols::new();
    let mut st = Store::new();
    let f = sym(&mut syms, "f");
    let x = st.new_var();
    let fx = st.new_struct(f, vec![x]);
    assert!(st.post_eq(x, fx));
    let ffx = {
        let inner = st.new_struct(f, vec![x]);
        st.new_struct(f, vec![inner])
    };
    assert!(st.post_eq(x, ffx));
    let y = st.new_var();
    let fy = st.new_struct(f, vec![y]);
    assert!(st.post_eq(y, fy));
    assert!(st.post_eq(x, y));
    let mut st2 = Store::new();
    let a = st2.new_const(sym(&mut syms, "a"));
    let b = st2.new_const(sym(&mut syms, "b"));
    let z = st2.new_var();
    let fza = st2.new_struct(f, vec![z, a]);
    assert!(st2.post_eq(z, fza));
    let fzb = st2.new_struct(f, vec![z, b]);
    assert!(!st2.post_eq(z, fzb));
}

#[test]
fn dif_immediate_cases() {
    let mut syms = Symbols::new();
    let mut st = Store::new();
    let a = st.new_const(sym(&mut syms, "a"));
    let a2 = st.new_const(sym(&mut syms, "a"));
    let b = st.new_const(sym(&mut syms, "b"));
    assert!(st.post_dif(a, b));
    assert!(st.pending_difs().is_empty());
    assert!(!st.post_dif(a, a2));
}

#[test]
fn dif_suspends_then_wakes() {
    let mut syms = Symbols::new();
    let mut st = Store::new();
    let a = st.new_const(sym(&mut syms, "a"));
    let b = st.new_const(sym(&mut syms, "b"));
    let x = st.new_var();
    assert!(st.post_dif(x, a));
    assert_eq!(st.pending_difs().len(), 1);
    let mark = st.mark();
    assert!(!st.post_eq(x, a));
    st.undo_to(&mark);
    assert!(st.post_eq(x, b));
    assert!(st.pending_difs().is_empty());
    let mut st2 = Store::new();
    let y = st2.new_var();
    let a3 = st2.new_const(sym(&mut syms, "a"));
    assert!(st2.post_eq(y, a3));
    assert!(!st2.post_dif(y, a3));
}

#[test]
fn dif_over_structures_suspends_on_deep_variables() {
    let mut syms = Symbols::new();
    let mut st = Store::new();
    let f = sym(&mut syms, "f");
    let x = st.new_var();
    let y = st.new_var();
    assert!(st.post_dif(x, y));
    let z = st.new_var();
    let w = st.new_var();
    let fz = st.new_struct(f, vec![z]);
    let fw = st.new_struct(f, vec![w]);
    assert!(st.post_eq(x, fz));
    assert!(st.post_eq(y, fw));
    assert_eq!(st.pending_difs().len(), 1);
    let mark = st.mark();
    assert!(!st.post_eq(z, w));
    st.undo_to(&mark);
    let one = st.new_num(Number::from_i64(1));
    let two = st.new_num(Number::from_i64(2));
    assert!(st.post_eq(z, one));
    assert!(st.post_eq(w, two));
    assert!(st.pending_difs().is_empty());
}

#[test]
fn interning_reads_back_and_repeats() {
    let mut syms = Symbols::new();
    let a = syms.intern("alpha");
    let b = syms.intern("beta");
    assert_ne!(a, b);
    assert_eq!(syms.intern("alpha"), a);
    assert_eq!(syms.name(a), "alpha");
    assert_eq!(syms.name(b), "beta");
    assert_eq!(syms.len(), 2);
}

#[test]
fn undo_brings_back_a_decided_disequation() {
    let mut syms = Symbols::new();
    let mut st = Store::new();
    let a = st.new_const(sym(&mut syms, "a"));
    let b = st.new_const(sym(&mut syms, "b"));
    let x = st.new_var();
    assert!(st.post_dif(x, a));
    assert_eq!(st.pending_difs(), vec![(x, a)]);
    let mark = st.mark();
    assert!(st.post_eq(x, b));
    assert!(st.pending_difs().is_empty());
    st.undo_to(&mark);
    assert_eq!(st.pending_difs(), vec![(x, a)]);
    assert_eq!(st.deref(x), x);
}

#[test]
fn a_failed_post_leaves_the_store_as_it_was() {
    let mut syms = Symbols::new();
    let mut st = Store::new();
    let a = st.new_const(sym(&mut syms, "a"));
    let x = st.new_var();
    assert!(st.post_dif(x, a));
    let heap = st.len();
    let trail = st.trail_size();
    assert!(!st.post_eq(x, a));
    assert_eq!(st.len(), heap);
    assert_eq!(st.trail_size(), trail);
    assert_eq!(st.pending_difs(), vec![(x, a)]);
    assert_eq!(st.deref(x), x);
}

#[test]
fn disequation_of_distinct_constants_is_decided_at_once() {
    let mut syms = Symbols::new();
    let mut st = Store::new();
    let a = st.new_const(sym(&mut syms, "a"));
    let b = st.new_const(sym(&mut syms, "b"));
    let x = st.new_var();
    assert!(st.post_eq(x, a));
    // x stands for `a`, which differs from `b`: true, and nothing stays pending.
    assert!(st.post_dif(x, b));
    assert!(st.pending_difs().is_empty());
    // The same constant on both sides fails.
    assert!(!st.post_dif(x, a));
}
