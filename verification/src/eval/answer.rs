//! Answers in solved form: `X = t` for every bound query variable, aliases
//! `X = Y` for query variables that became one, pending disequations, the
//! numeric constraints the query can see, and `true` when nothing remains.
//! Cyclic terms print as equations (`X = f(X)`), the finite representation
//! of a rational tree. The printer is iterative so deep terms cannot
//! overflow the stack.

use vstd::prelude::*;
use crate::number::Number;
use crate::solver::{Delta, LinExpr, SVar};
use crate::solver::linexpr::{lemma_coeff_in, lemma_var_pos, terms_wf};
use crate::number::{rat_mul, rat_sub};
use crate::number::{abs_int, nat_decimal, rat_recip, rat_text};
use crate::text::{chars_of, push_all, push_str, string_from_chars};
use crate::text::push_usize;
use crate::json_out::join_with;
use super::store::{Addr, Cell, Store, alias_root, class_value_from, deref_chain, pending_pairs, exhibited, tightest_lower, tightest_upper};
use crate::number::rat_add;
use super::symbol::Symbols;

verus! {

/// One answer to a query.
#[derive(Debug, Clone, PartialEq, Eq)]
pub struct Answer {
    /// `X = t` equations, query variables first, then named cyclic nodes.
    pub equations: Vec<String>,
    /// Pending tree disequations, rendered `t1 != t2`.
    pub disequations: Vec<String>,
    /// Numeric constraints: bounds, linear equations, numeric disequations.
    pub constraints: Vec<String>,
}

/// The parts joined by `, `.
pub open spec fn join_parts(s: Seq<Seq<char>>) -> Seq<char>
    decreases s.len(),
{
    if s.len() == 0 {
        Seq::empty()
    } else if s.len() == 1 {
        s[0]
    } else {
        join_parts(s.drop_last()) + seq![',', ' '] + s.last()
    }
}

pub open spec fn strings_view(v: Seq<String>) -> Seq<Seq<char>> {
    v.map_values(|s: String| s@)
}

/// Every part of an answer, in printing order.
pub open spec fn answer_parts(a: Answer) -> Seq<Seq<char>> {
    strings_view(a.equations@) + strings_view(a.disequations@) + strings_view(a.constraints@)
}

/// How an answer prints: `true` when it carries nothing, else its parts.
pub open spec fn answer_text(a: Answer) -> Seq<char> {
    if answer_parts(a).len() == 0 {
        seq!['t', 'r', 'u', 'e']
    } else {
        join_parts(answer_parts(a))
    }
}

impl Answer {
    /// True if the answer carries nothing (`true`).
    pub fn is_true(&self) -> (b: bool)
        ensures
            b == (self.equations@.len() == 0 && self.disequations@.len() == 0 && self.constraints@.len() == 0),
    {
        self.equations.len() == 0 && self.disequations.len() == 0 && self.constraints.len() == 0
    }

    /// The answer as printed.
    pub fn to_string(&self) -> (s: String)
        ensures
            s@ == answer_text(*self),
    {
        let ghost parts = answer_parts(*self);
        if self.is_true() {
            proof {
                assert(parts.len() == 0);
            }
            let mut t: Vec<char> = Vec::new();
            t.push('t');
            t.push('r');
            t.push('u');
            t.push('e');
            proof {
                assert(t@ =~= seq!['t', 'r', 'u', 'e']);
            }
            return string_from_chars(&t);
        }
        let mut all: Vec<&String> = Vec::new();
        let mut i: usize = 0;
        while i < self.equations.len()
            invariant
                i <= self.equations@.len(),
                all@.len() == i,
                forall|j: int| 0 <= j < i ==> (#[trigger] all@[j])@ == self.equations@[j]@,
            decreases self.equations@.len() - i,
        {
            all.push(&self.equations[i]);
            i = i + 1;
        }
        let n1 = self.equations.len();
        let mut i: usize = 0;
        while i < self.disequations.len()
            invariant
                i <= self.disequations@.len(),
                n1 == self.equations@.len(),
                all@.len() == n1 + i,
                forall|j: int| 0 <= j < n1 ==> (#[trigger] all@[j])@ == self.equations@[j]@,
                forall|j: int| n1 <= j < n1 + i ==> (#[trigger] all@[j])@ == self.disequations@[j - n1]@,
            decreases self.disequations@.len() - i,
        {
            all.push(&self.disequations[i]);
            i = i + 1;
        }
        let n2 = all.len();
        let mut i: usize = 0;
        while i < self.constraints.len()
            invariant
                i <= self.constraints@.len(),
                n1 == self.equations@.len(),
                n2 == n1 + self.disequations@.len(),
                all@.len() == n2 + i,
                forall|j: int| 0 <= j < n1 ==> (#[trigger] all@[j])@ == self.equations@[j]@,
                forall|j: int| n1 <= j < n2 ==> (#[trigger] all@[j])@ == self.disequations@[j - n1]@,
                forall|j: int| n2 <= j < n2 + i ==> (#[trigger] all@[j])@ == self.constraints@[j - n2]@,
            decreases self.constraints@.len() - i,
        {
            all.push(&self.constraints[i]);
            i = i + 1;
        }
        proof {
            assert forall|j: int| 0 <= j < parts.len() implies (#[trigger] parts[j]) == all@[j]@ by {
                if j < n1 {
                } else if j < n2 {
                } else {
                }
            }
        }
        let mut out: Vec<char> = Vec::new();
        let mut k: usize = 0;
        while k < all.len()
            invariant
                k <= all@.len(),
                all@.len() == parts.len(),
                forall|j: int| 0 <= j < parts.len() ==> (#[trigger] parts[j]) == all@[j]@,
                out@ == join_parts(parts.take(k as int)),
            decreases all@.len() - k,
        {
            proof {
                assert(parts.take(k + 1).drop_last() =~= parts.take(k as int));
                assert(parts.take(k + 1).last() == parts[k as int]);
            }
            if k > 0 {
                out.push(',');
                out.push(' ');
            }
            let t = chars_of(all[k].as_str());
            push_all(&mut out, &t);
            k = k + 1;
            proof {
                if k == 1 {
                    assert(parts.take(1)[0] == parts[0]);
                }
            }
        }
        proof {
            assert(parts.take(parts.len() as int) =~= parts);
        }
        string_from_chars(&out)
    }
}

// --- the term printer -------------------------------------------------------------

/// Display names for heap cells, cyclic nodes, and the `_N` counter.
struct Printer {
    names: Vec<(Addr, Vec<char>)>,
    /// Compound cells that are targets of a back edge.
    cyclic: Vec<bool>,
    /// Cyclic nodes that still need their own `_N = …` equation.
    pending_nodes: Vec<Addr>,
    next_internal: usize,
}

fn to_chars(s: &str) -> (r: Vec<char>)
    ensures
        r@ == s@,
{
    chars_of(s)
}

fn number_chars(n: &Number) -> (r: Vec<char>)
    ensures
        r@ == rat_text(n@),
{
    n.to_text()
}

/// The name first given to `a` in `names`, looking from `i` on.
pub open spec fn name_from(names: Seq<(Addr, Vec<char>)>, a: Addr, i: int) -> Option<Seq<char>>
    decreases names.len() - i,
{
    if i < 0 || i >= names.len() {
        None
    } else if names[i].0 == a {
        Some(names[i].1@)
    } else {
        name_from(names, a, i + 1)
    }
}

/// Giving `a` a name when it has none makes that its name.
proof fn lemma_name_from_push(names: Seq<(Addr, Vec<char>)>, a: Addr, n: Seq<char>, i: int)
    requires
        0 <= i <= names.len(),
        name_from(names, a, i) is None,
    ensures
        forall|v: Vec<char>| v@ == n ==> name_from(#[trigger] names.push((a, v)), a, i) == Some(n),
    decreases names.len() - i,
{
    if i < names.len() {
        lemma_name_from_push(names, a, n, i + 1);
        assert forall|v: Vec<char>| v@ == n implies name_from(#[trigger] names.push((a, v)), a, i) == Some(n) by {
            assert(names.push((a, v))[i] == names[i]);
            assert(name_from(names.push((a, v)), a, i + 1) == Some(n));
        }
    } else {
        assert forall|v: Vec<char>| v@ == n implies name_from(#[trigger] names.push((a, v)), a, i) == Some(n) by {
            assert(names.push((a, v))[i] == (a, v));
        }
    }
}

/// The generated name `_n`.
pub open spec fn internal_name(n: nat) -> Seq<char> {
    seq!['_'] + nat_decimal(n)
}

impl Printer {
    /// No names yet, no cyclic node among `heap_len` cells, counting from 1.
    fn new(heap_len: usize) -> (p: Printer)
        ensures
            p.names@.len() == 0,
            p.cyclic@.len() == heap_len,
            forall|a: int| 0 <= a < heap_len ==> !p.cyclic@[a],
            p.pending_nodes@.len() == 0,
            p.next_internal == 1,
    {
        let mut cyclic: Vec<bool> = Vec::new();
        let mut i: usize = 0;
        while i < heap_len
            invariant
                i <= heap_len,
                cyclic@.len() == i,
                forall|a: int| 0 <= a < i ==> !cyclic@[a],
            decreases heap_len - i,
        {
            cyclic.push(false);
            i = i + 1;
        }
        Printer { names: Vec::new(), cyclic, pending_nodes: Vec::new(), next_internal: 1 }
    }

    fn lookup(&self, a: Addr) -> (r: Option<&Vec<char>>)
        ensures
            r matches Some(n) ==> name_from(self.names@, a, 0) == Some(n@),
            r is None ==> name_from(self.names@, a, 0) is None,
    {
        let mut i: usize = 0;
        while i < self.names.len()
            invariant
                i <= self.names@.len(),
                name_from(self.names@, a, 0) == name_from(self.names@, a, i as int),
            decreases self.names@.len() - i,
        {
            if self.names[i].0 == a {
                return Some(&self.names[i].1);
            }
            i = i + 1;
        }
        None
    }

    fn has_name(&self, a: Addr) -> (b: bool)
        ensures
            b == name_from(self.names@, a, 0) is Some,
    {
        self.lookup(a).is_some()
    }

    fn is_cyclic(&self, a: Addr) -> (b: bool)
        ensures
            b == (a < self.cyclic@.len() && self.cyclic@[a as int]),
    {
        a < self.cyclic.len() && self.cyclic[a]
    }

    /// The next generated name, `_1`, `_2`, ... (the counter stops at the
    /// largest machine integer).
    fn fresh_name(&mut self) -> (n: Vec<char>)
        ensures
            n@ == internal_name(old(self).next_internal as nat),
            final(self).next_internal == (if old(self).next_internal < usize::MAX {
                old(self).next_internal + 1
            } else {
                old(self).next_internal as int
            }),
            final(self).names == old(self).names,
            final(self).cyclic == old(self).cyclic,
            final(self).pending_nodes == old(self).pending_nodes,
    {
        let mut n: Vec<char> = Vec::new();
        n.push('_');
        push_usize(&mut n, self.next_internal);
        if self.next_internal < usize::MAX {
            self.next_internal = self.next_internal + 1;
        }
        n
    }

    /// The name of `a`: the one it was given, else a fresh one, now given.
    fn name_for(&mut self, a: Addr) -> (n: Vec<char>)
        ensures
            final(self).cyclic == old(self).cyclic,
            final(self).pending_nodes == old(self).pending_nodes,
            name_from(old(self).names@, a, 0) matches Some(m) ==> n@ == m && final(self).names == old(self).names
                && final(self).next_internal == old(self).next_internal,
            name_from(old(self).names@, a, 0) is None ==> n@ == internal_name(old(self).next_internal as nat)
                && final(self).names@ == old(self).names@.push((a, final(self).names@.last().1))
                && final(self).names@.last().1@ == n@,
            name_from(final(self).names@, a, 0) == Some(n@),
    {
        if let Some(n) = self.lookup(a) {
            return n.clone();
        }
        let n = self.fresh_name();
        let ghost before = self.names@;
        self.names.push((a, n.clone()));
        proof {
            lemma_name_from_push(before, a, n@, 0);
        }
        n
    }

    /// Mark compound nodes reachable from `root` that are revisited while
    /// still on the search path (back-edge targets): those are cyclic.
    fn find_cycles(&mut self, store: &Store, root: Addr)
        ensures
            final(self).names == old(self).names,
    {
        let n = store.len();
        // 0: unvisited, 1: on the path, 2: done.
        let mut state: Vec<u8> = Vec::new();
        let mut i: usize = 0;
        while i < n
            invariant
                i <= n,
                state@.len() == i,
            decreases n - i,
        {
            state.push(0);
            i = i + 1;
        }
        let mut stack: Vec<(bool, Addr)> = Vec::new();
        stack.push((true, root));
        let mut fuel: u64 = u64::MAX;
        while stack.len() > 0 && fuel > 0
            invariant
                state@.len() == n,
                n == store.heap_len(),
                self.names == old(self).names,
            decreases fuel,
        {
            fuel = fuel - 1;
            let (enter, x) = stack.pop().unwrap();
            if !enter {
                if x < n {
                    state.set(x, 2);
                }
                continue;
            }
            let a = store.deref(x);
            if a >= n {
                continue;
            }
            if let Cell::Struct(_, args) = store.cell(a) {
                if state[a] == 1 {
                    if a < self.cyclic.len() {
                        self.cyclic.set(a, true);
                    }
                    continue;
                }
                if state[a] == 2 {
                    continue;
                }
                state.set(a, 1);
                stack.push((false, a));
                let mut j = args.len();
                while j > 0
                    invariant
                        j <= args@.len(),
                    decreases j,
                {
                    j = j - 1;
                    stack.push((true, args[j]));
                }
            }
        }
    }

    /// Render the term at `root`. If `root` is itself a cyclic node it is
    /// expanded here (its inner occurrences print as its name); other cyclic
    /// nodes print as names and are queued for their own equations.
    #[verifier::rlimit(100)]
    #[verifier::spinoff_prover]
    fn render(&mut self, symbols: &Symbols, store: &Store, root: Addr) -> (out: Vec<char>)
        requires
            store.wf(),
        ensures
            resolved(*store, root as int) >= store.heap_len() ==> out@.len() == 0,
            resolved(*store, root as int) < store.heap_len() ==> (store.cell_at(resolved(*store, root as int)) matches Cell::Num(n)
                ==> out@ == rat_text(n@)),
            resolved(*store, root as int) < store.heap_len() ==> (store.cell_at(resolved(*store, root as int)) matches Cell::Const(c)
                ==> (c.0 < symbols@.len() ==> out@ == symbols@[c.0 as int])),
            resolved(*store, root as int) < store.heap_len()
                && store.cell_at(resolved(*store, root as int)) == Cell::Var(resolved(*store, root as int) as usize)
                && store.slots()[resolved(*store, root as int)].numvar is None
                ==> name_from(final(self).names@, resolved(*store, root as int) as usize, 0) == Some(out@),
            flat_struct(*store, symbols@, resolved(*store, root as int)) ==> out@ == struct_head(*store, symbols@,
                resolved(*store, root as int)) + join_with(arg_texts(*store, symbols@, struct_args(*store,
                resolved(*store, root as int))), seq![',', ' ']) + seq![')'],
            forall|n: nat| #[trigger] tree_info(*store, symbols@, old(self).cyclic@, root, n) is Some
                && tree_info(*store, symbols@, old(self).cyclic@, root, n).unwrap().1 <= u64::MAX
                ==> out@ == tree_info(*store, symbols@, old(self).cyclic@, root, n).unwrap().0,
    {
        let ghost root0 = root;
        let ghost cyc = self.cyclic@;
        let ghost tree = exists|n: nat| #[trigger] tree_info(*store, symbols@, cyc, root0, n) is Some
            && tree_info(*store, symbols@, cyc, root0, n).unwrap().1 <= u64::MAX;
        let ghost big_r: nat = choose|n: nat| #[trigger] tree_info(*store, symbols@, cyc, root0, n) is Some
            && tree_info(*store, symbols@, cyc, root0, n).unwrap().1 <= u64::MAX;
        let ghost whole = tree_info(*store, symbols@, cyc, root0, big_r).unwrap().0;
        let root = store.deref(root);
        proof {
            if tree {
                lemma_tree_resolved(*store, symbols@, cyc, root0, root, big_r);
            }
        }
        let ghost d = root as int;
        let ghost atomic = d >= store.heap_len() || store.cell_at(d) is Num || store.cell_at(d) is Const
            || (store.cell_at(d) == Cell::Var(root) && store.slots()[d].numvar is None);
        let mut out: Vec<char> = Vec::new();
        // `(0, a)` renders the term at `a`, `(1, _)` writes `)`, `(2, _)`
        // writes `, `.
        let mut stack: Vec<(u8, Addr)> = Vec::new();
        stack.push((0, root));
        proof {
            if tree {
                assert(stack@.drop_last() =~= Seq::<(u8, Addr)>::empty());
                assert(stack@.last() == (0u8, root));
                assert(pending_info(*store, symbols@, cyc, stack@.drop_last(), big_r) == Some((Seq::<char>::empty(), 0nat)));
                assert(tree_info(*store, symbols@, cyc, root, big_r) == tree_info(*store, symbols@, cyc, root0, big_r));
                assert(pending_info(*store, symbols@, cyc, stack@, big_r) == Some((whole + Seq::<char>::empty(),
                    tree_info(*store, symbols@, cyc, root0, big_r).unwrap().1 + 0)));
                assert(out@ + (whole + Seq::<char>::empty()) =~= whole);
            }
        }
        let mut first = true;
        let mut fuel: u64 = u64::MAX;
        let ghost flat = flat_struct(*store, symbols@, d);
        let ghost fargs = struct_args(*store, d);
        let ghost texts = arg_texts(*store, symbols@, fargs);
        let ghost pre = struct_head(*store, symbols@, d);
        let ghost sep = seq![',', ' '];
        let ghost mut k: int = 0;
        let ghost mut phase: int = 0;
        while stack.len() > 0 && fuel > 0
            invariant
                store.wf(),
                d == root as int,
                flat ==> 0 <= d < store.heap_len(),
                flat == flat_struct(*store, symbols@, d),
                fargs == struct_args(*store, d),
                texts == arg_texts(*store, symbols@, fargs),
                pre == struct_head(*store, symbols@, d),
                sep == seq![',', ' '],
                flat && !first ==> flat_state(stack@, out@, fuel, k, phase, fargs, texts, pre),
                self.cyclic@ == cyc,
                tree ==> tree_info(*store, symbols@, cyc, root, big_r) == tree_info(*store, symbols@, cyc, root0, big_r),
                tree ==> pending_info(*store, symbols@, cyc, stack@, big_r) is Some
                    && out@ + pending_info(*store, symbols@, cyc, stack@, big_r).unwrap().0 == whole
                    && fuel as int >= pending_info(*store, symbols@, cyc, stack@, big_r).unwrap().1,
                atomic == (d >= store.heap_len() || store.cell_at(d) is Num || store.cell_at(d) is Const
                    || (store.cell_at(d) == Cell::Var(root) && store.slots()[d].numvar is None)),
                first ==> stack@ == seq![(0u8, root)] && out@.len() == 0 && fuel == u64::MAX,
                !first && atomic ==> stack@.len() == 0 && {
                    &&& d >= store.heap_len() ==> out@.len() == 0
                    &&& d < store.heap_len() ==> (store.cell_at(d) matches Cell::Num(n) ==> out@ == rat_text(n@))
                    &&& d < store.heap_len() ==> (store.cell_at(d) matches Cell::Const(c)
                        ==> (c.0 < symbols@.len() ==> out@ == symbols@[c.0 as int]))
                    &&& d < store.heap_len() && store.cell_at(d) == Cell::Var(root) && store.slots()[d].numvar is None
                        ==> name_from(self.names@, root, 0) == Some(out@)
                },
            decreases fuel,
        {
            let ghost fuel0 = fuel;
            fuel = fuel - 1;
            let ghost st0 = stack@;
            let ghost out0 = out@;
            proof {
                if flat && !first && phase == 0 {
                    lemma_arg_stack_top(fargs, k);
                }
            }
            let (kind, x) = stack.pop().unwrap();
            let ghost rest = pending_info(*store, symbols@, cyc, stack@, big_r)->0;
            proof {
                if tree {
                    assert(st0.last() == (kind, x));
                    assert(stack@ == st0.drop_last());
                    assert(pending_info(*store, symbols@, cyc, stack@, big_r) is Some);
                }
            }
            if kind == 1 {
                out.push(')');
                proof {
                    if tree {
                        assert(out@ + rest.0 =~= out0 + (seq![')'] + rest.0));
                    }
                }
                proof {
                    if flat && !first {
                        if phase == 0 {
                            assert(false);
                        } else if phase == 1 && k < fargs.len() {
                            assert(st0.last() == (2u8, 0usize));
                        }
                        assert(phase == 1 && k == fargs.len());
                        assert(texts.take(k) =~= texts);
                        assert(out@ =~= pre + join_with(texts, sep) + seq![')']);
                        phase = 2;
                    }
                }
                continue;
            }
            if kind == 2 {
                out.push(',');
                out.push(' ');
                proof {
                    if tree {
                        assert(out@ + rest.0 =~= out0 + (seq![',', ' '] + rest.0));
                    }
                }
                proof {
                    if flat && !first {
                        assert(phase == 1 && k < fargs.len());
                        assert(st0 =~= arg_stack(fargs, k) + seq![(2u8, 0usize)]);
                        assert(stack@ =~= arg_stack(fargs, k));
                        assert(out@ =~= pre + join_with(texts.take(k), sep) + sep);
                        phase = 0;
                    }
                }
                continue;
            }
            proof {
                if flat && !first {
                    assert(phase == 0);
                    assert(x == fargs[k]);
                    assert(stack@ == arg_stack(fargs, k).drop_last());
                }
            }
            let ghost item = tree_info(*store, symbols@, cyc, x, big_r)->0;
            proof {
                if tree {
                    assert(kind == 0);
                    assert(tree_info(*store, symbols@, cyc, x, big_r) is Some);
                    assert(out0 + (item.0 + rest.0) == whole);
                    assert(fuel0 as int >= item.1 + rest.1);
                }
            }
            let ghost was_first = first;
            let a = store.deref(x);
            let is_root = first && a == root;
            first = false;
            proof {
                if was_first {
                    assert(x == root);
                    assert(stack@.len() == 0);
                    if d < store.heap_len() && (!(store.cell_at(d) is Var) || store.cell_at(d) == Cell::Var(root)) {
                        assert(store.heap_len() > 0);
                        assert(deref_chain(store.slots(), d, store.heap_len()) == d) by {
                            reveal_with_fuel(deref_chain, 2);
                        }
                        assert(a == root);
                    }
                }
                if flat && was_first {
                    assert(a == root);
                }
                if flat && !was_first {
                    assert(atom_text(*store, symbols@, struct_args(*store, d)[k]) is Some);
                    assert(a as int == resolved(*store, x as int));
                    assert(texts[k] == atom_text(*store, symbols@, fargs[k])->0);
                }
            }
            proof {
                if tree {
                    assert(a as int == resolved(*store, x as int));
                }
            }
            if a >= store.len() {
                proof {
                    if tree {
                        assert(false);
                    }
                }
                continue;
            }
            match store.cell(a) {
                Cell::Var(_) => {
                    proof {
                        if flat || tree {
                            assert(false);
                        }
                    }
                    // A numeric variable with a determined value prints as the value.
                    let fixed = match store.numvar_of(a) {
                        Some(sv) => store.class_value(sv),
                        None => None,
                    };
                    match fixed {
                        Some(c) => {
                            let t = number_chars(&c);
                            push_all(&mut out, &t);
                        },
                        None => {
                            let n = self.name_for(a);
                            push_all(&mut out, &n);
                        },
                    }
                },
                Cell::Const(c) => {
                    if c.0 < symbols.len() {
                        push_str(&mut out, symbols.name(*c));
                    }
                    proof {
                        if tree {
                            assert(out@ + rest.0 =~= out0 + (item.0 + rest.0));
                        }
                    }
                    proof {
                        if flat {
                            if was_first {
                                assert(store.cell_at(d) is Struct);
                                assert(false);
                            }
                            assert(out@ =~= out0 + texts[k]);
                            lemma_flat_step(fargs, texts, pre, k, out0, out@, st0, stack@, fuel0, fuel);
                            k = k + 1;
                            phase = 1;
                        }
                    }
                },
                Cell::Num(n) => {
                    let t = number_chars(n);
                    push_all(&mut out, &t);
                    proof {
                        if tree {
                            assert(out@ + rest.0 =~= out0 + (item.0 + rest.0));
                        }
                    }
                    proof {
                        if flat {
                            if was_first {
                                assert(store.cell_at(d) is Struct);
                                assert(false);
                            }
                            assert(out@ =~= out0 + texts[k]);
                            lemma_flat_step(fargs, texts, pre, k, out0, out@, st0, stack@, fuel0, fuel);
                            k = k + 1;
                            phase = 1;
                        }
                    }
                },
                Cell::Struct(f, args) => {
                    proof {
                        if flat && !was_first {
                            assert(false);
                        }
                        if tree {
                            assert(!(a < self.cyclic@.len() && self.cyclic@[a as int]));
                        }
                    }
                    if self.is_cyclic(a) && !is_root {
                        if !self.has_name(a) {
                            let n = self.fresh_name();
                            self.names.push((a, n));
                            self.pending_nodes.push(a);
                        }
                        let n = self.name_for(a);
                        push_all(&mut out, &n);
                        continue;
                    }
                    if f.0 < symbols.len() {
                        push_str(&mut out, symbols.name(*f));
                    }
                    out.push('(');
                    let ghost base = stack@;
                    stack.push((1, 0));
                    proof {
                        assert(stack@ =~= base + arg_stack(args@, args@.len() as int));
                    }
                    let mut i = args.len();
                    while i > 0
                        invariant
                            i <= args@.len(),
                            stack@ == base + arg_stack(args@, i as int),
                        decreases i,
                    {
                        let ghost before = stack@;
                        i = i - 1;
                        if i + 1 < args.len() {
                            stack.push((2, 0));
                        }
                        stack.push((0, args[i]));
                        proof {
                            if i + 1 < args@.len() {
                                assert(stack@ =~= base + (arg_stack(args@, i + 1) + seq![(2u8, 0usize), (0u8, args@[i as int])]));
                            } else {
                                assert(stack@ =~= base + seq![(1u8, 0usize), (0u8, args@[i as int])]);
                            }
                        }
                    }
                    proof {
                        if tree {
                            let sargs = args@;
                            assert(store.cell_at(a as int) == Cell::Struct(*f, *args));
                            let inner = args_info(*store, symbols@, cyc, sargs, (big_r - 1) as nat);
                            assert(inner is Some);
                            lemma_args_mono(*store, symbols@, cyc, sargs, (big_r - 1) as nat, big_r);
                            assert(sargs.subrange(0, sargs.len() as int) =~= sargs);
                            lemma_pending_args(*store, symbols@, cyc, base, sargs, 0, big_r);
                            let t = inner->0;
                            assert(item == (symbols@[f.0 as int] + seq!['('] + t.0 + seq![')'], t.1 + 2));
                            assert(out@ =~= out0 + symbols@[f.0 as int] + seq!['(']);
                            assert(out@ + (t.0 + seq![')'] + rest.0) =~= out0 + (item.0 + rest.0));
                        }
                    }
                    proof {
                        if flat && was_first {
                            assert(base.len() == 0);
                            assert(stack@ =~= arg_stack(fargs, 0));
                            assert(out@ =~= pre);
                            k = 0;
                            if fargs.len() > 0 {
                                phase = 0;
                                assert(texts.take(0) =~= Seq::<Seq<char>>::empty());
                                assert(out@ =~= pre + join_with(texts.take(0), sep));
                            } else {
                                phase = 1;
                                assert(texts.take(0) =~= Seq::<Seq<char>>::empty());
                                assert(out@ =~= pre + join_with(texts.take(0), sep));
                            }
                        }
                    }
                },
            }
        }
        proof {
            if tree {
                if stack@.len() > 0 {
                    assert(stack@.last().0 == 0 ==> tree_info(*store, symbols@, cyc, stack@.last().1, big_r).unwrap().1 >= 1);
                    assert(pending_info(*store, symbols@, cyc, stack@, big_r).unwrap().1 >= 1);
                }
                assert(stack@.len() == 0);
                assert(out@ =~= whole);
                assert forall|n: nat| #[trigger] tree_info(*store, symbols@, old(self).cyclic@, root0, n) is Some
                    && tree_info(*store, symbols@, old(self).cyclic@, root0, n).unwrap().1 <= u64::MAX
                    implies out@ == tree_info(*store, symbols@, old(self).cyclic@, root0, n).unwrap().0 by {
                    if n <= big_r {
                        lemma_tree_mono(*store, symbols@, cyc, root0, n, big_r);
                    } else {
                        lemma_tree_mono(*store, symbols@, cyc, root0, big_r, n);
                    }
                }
            }
        }
        out
    }
}

/// How an argument prints when it stands for a number or a named
/// constant; `None` for anything else.
pub open spec fn atom_text(store: Store, symbols: Seq<Seq<char>>, x: Addr) -> Option<Seq<char>> {
    let a = resolved(store, x as int);
    if 0 <= a < store.heap_len() {
        match store.cell_at(a) {
            Cell::Num(n) => Some(rat_text(n@)),
            Cell::Const(c) => if c.0 < symbols.len() { Some(symbols[c.0 as int]) } else { None },
            _ => None,
        }
    } else {
        None
    }
}

/// The arguments of the structure at `d`.
pub open spec fn struct_args(store: Store, d: int) -> Seq<Addr> {
    if 0 <= d < store.heap_len() {
        match store.cell_at(d) {
            Cell::Struct(_, args) => args@,
            _ => Seq::empty(),
        }
    } else {
        Seq::empty()
    }
}

/// The name of the functor of the structure at `d`, and `(`.
pub open spec fn struct_head(store: Store, symbols: Seq<Seq<char>>, d: int) -> Seq<char> {
    match store.cell_at(d) {
        Cell::Struct(f, _) => symbols[f.0 as int] + seq!['('],
        _ => Seq::empty(),
    }
}

/// A named structure (of fewer than 2^62 arguments) whose arguments are all
/// numbers or named constants.
pub open spec fn flat_struct(store: Store, symbols: Seq<Seq<char>>, d: int) -> bool {
    &&& 0 <= d < store.heap_len()
    &&& store.cell_at(d) matches Cell::Struct(f, args) && f.0 < symbols.len()
    &&& struct_args(store, d).len() < 0x4000_0000_0000_0000
    &&& forall|j: int| 0 <= j < struct_args(store, d).len() ==> (#[trigger] atom_text(store, symbols, struct_args(store, d)[j])) is Some
}

/// The printed arguments, in order.
pub open spec fn arg_texts(store: Store, symbols: Seq<Seq<char>>, args: Seq<Addr>) -> Seq<Seq<char>> {
    args.map_values(|x: Addr| atom_text(store, symbols, x)->0)
}

/// What is left on the render stack when argument `k` is next.
spec fn arg_stack(args: Seq<Addr>, k: int) -> Seq<(u8, Addr)>
    decreases args.len() - k,
{
    if k >= args.len() || k < 0 {
        seq![(1u8, 0usize)]
    } else if k == args.len() - 1 {
        seq![(1u8, 0usize), (0u8, args[k])]
    } else {
        arg_stack(args, k + 1) + seq![(2u8, 0usize), (0u8, args[k])]
    }
}

proof fn lemma_arg_stack_top(args: Seq<Addr>, k: int)
    requires
        0 <= k < args.len(),
    ensures
        arg_stack(args, k).len() > 0,
        arg_stack(args, k).last() == (0u8, args[k]),
        arg_stack(args, k).drop_last() == (if k + 1 < args.len() {
            arg_stack(args, k + 1) + seq![(2u8, 0usize)]
        } else {
            seq![(1u8, 0usize)]
        }),
{
    if k == args.len() - 1 {
        assert(arg_stack(args, k).drop_last() =~= seq![(1u8, 0usize)]);
    } else {
        assert(arg_stack(args, k).drop_last() =~= arg_stack(args, k + 1) + seq![(2u8, 0usize)]);
    }
}

proof fn lemma_join_take_next(items: Seq<Seq<char>>, sep: Seq<char>, k: int)
    requires
        0 <= k < items.len(),
    ensures
        join_with(items.take(k + 1), sep) == (if k == 0 {
            items[0]
        } else {
            join_with(items.take(k), sep) + sep + items[k]
        }),
{
    assert(items.take(k + 1).drop_last() =~= items.take(k));
    assert(items.take(k + 1).last() == items[k]);
    if k == 0 {
        assert(items.take(1)[0] == items[0]);
    }
}

/// Where the rendering of a flat structure stands: before argument `k`
/// (phase 0), after argument `k - 1` (phase 1), or done (phase 2).
spec fn flat_state(stack: Seq<(u8, Addr)>, out: Seq<char>, fuel: u64, k: int, phase: int, args: Seq<Addr>,
    texts: Seq<Seq<char>>, pre: Seq<char>) -> bool {
    let n = args.len() as int;
    let sep = seq![',', ' '];
    &&& texts.len() == n
    &&& n < 0x4000_0000_0000_0000
    &&& (phase == 0 ==> 0 <= k < n && stack == arg_stack(args, k) && fuel as int >= u64::MAX as int - 2 * k - 2
        && out == pre + join_with(texts.take(k), sep) + (if k > 0 { sep } else { Seq::empty() }))
    &&& (phase == 1 ==> 0 <= k <= n && fuel as int >= u64::MAX as int - 2 * k - 1 && (k < n ==> 0 < k && stack == arg_stack(args, k) + seq![(2u8, 0usize)])
        && (k == n ==> stack == seq![(1u8, 0usize)]) && out == pre + join_with(texts.take(k), sep))
    &&& (phase == 2 ==> stack.len() == 0 && out == pre + join_with(texts, sep) + seq![')'])
    &&& (phase == 0 || phase == 1 || phase == 2)
}

/// How the term at `x` prints, and in how many render steps, looking at
/// most `n` structures deep: a number as its value, a named constant as its
/// name, a named structure not marked cyclic in `cyc` as its functor, `(`,
/// its arguments in order separated by `, `, and `)`. `None` for anything
/// else (variables, unnamed symbols, marked or too deep structures).
pub open spec fn tree_info(store: Store, symbols: Seq<Seq<char>>, cyc: Seq<bool>, x: Addr, n: nat)
    -> Option<(Seq<char>, nat)>
    decreases n, 0nat,
{
    let a = resolved(store, x as int);
    if 0 <= a < store.heap_len() {
        match store.cell_at(a) {
            Cell::Num(v) => Some((rat_text(v@), 1nat)),
            Cell::Const(c) => if c.0 < symbols.len() { Some((symbols[c.0 as int], 1nat)) } else { None },
            Cell::Struct(f, args) => if n > 0 && f.0 < symbols.len() && !(a < cyc.len() && cyc[a]) {
                match args_info(store, symbols, cyc, args@, (n - 1) as nat) {
                    Some(t) => Some((symbols[f.0 as int] + seq!['('] + t.0 + seq![')'], t.1 + 2)),
                    None => None,
                }
            } else {
                None
            },
            _ => None,
        }
    } else {
        None
    }
}

/// The arguments `args` printed in order, separated by `, `, and the render
/// steps they take (one per separator).
pub open spec fn args_info(store: Store, symbols: Seq<Seq<char>>, cyc: Seq<bool>, args: Seq<Addr>, n: nat)
    -> Option<(Seq<char>, nat)>
    decreases n, args.len(),
{
    if args.len() == 0 {
        Some((Seq::empty(), 0nat))
    } else {
        match tree_info(store, symbols, cyc, args[0], n) {
            Some(h) => if args.len() == 1 {
                Some(h)
            } else {
                match args_info(store, symbols, cyc, args.subrange(1, args.len() as int), n) {
                    Some(t) => Some((h.0 + seq![',', ' '] + t.0, h.1 + 1 + t.1)),
                    None => None,
                }
            },
            None => None,
        }
    }
}

proof fn lemma_tree_mono(store: Store, symbols: Seq<Seq<char>>, cyc: Seq<bool>, x: Addr, n: nat, m: nat)
    requires
        n <= m,
        tree_info(store, symbols, cyc, x, n) is Some,
    ensures
        tree_info(store, symbols, cyc, x, m) == tree_info(store, symbols, cyc, x, n),
    decreases n, 0nat,
{
    let a = resolved(store, x as int);
    if 0 <= a < store.heap_len() {
        if let Cell::Struct(f, args) = store.cell_at(a) {
            lemma_args_mono(store, symbols, cyc, args@, (n - 1) as nat, (m - 1) as nat);
        }
    }
}

proof fn lemma_args_mono(store: Store, symbols: Seq<Seq<char>>, cyc: Seq<bool>, args: Seq<Addr>, n: nat, m: nat)
    requires
        n <= m,
        args_info(store, symbols, cyc, args, n) is Some,
    ensures
        args_info(store, symbols, cyc, args, m) == args_info(store, symbols, cyc, args, n),
    decreases n, args.len(),
{
    if args.len() > 0 {
        lemma_tree_mono(store, symbols, cyc, args[0], n, m);
        if args.len() > 1 {
            lemma_args_mono(store, symbols, cyc, args.subrange(1, args.len() as int), n, m);
        }
    }
}

/// What the items still on the render stack print, top first, and the
/// steps they take; items that are terms are read `n` deep.
pub open spec fn pending_info(store: Store, symbols: Seq<Seq<char>>, cyc: Seq<bool>, stack: Seq<(u8, Addr)>, n: nat)
    -> Option<(Seq<char>, nat)>
    decreases stack.len(),
{
    if stack.len() == 0 {
        Some((Seq::empty(), 0nat))
    } else {
        let item = stack.last();
        let here: Option<(Seq<char>, nat)> = if item.0 == 0 {
            tree_info(store, symbols, cyc, item.1, n)
        } else if item.0 == 1 {
            Some((seq![')'], 1nat))
        } else if item.0 == 2 {
            Some((seq![',', ' '], 1nat))
        } else {
            None
        };
        match (here, pending_info(store, symbols, cyc, stack.drop_last(), n)) {
            (Some(h), Some(r)) => Some((h.0 + r.0, h.1 + r.1)),
            _ => None,
        }
    }
}

/// Pushing the items of a structure's arguments from argument `k` on adds
/// their printing and `)` before what was pending.
proof fn lemma_pending_args(store: Store, symbols: Seq<Seq<char>>, cyc: Seq<bool>, base: Seq<(u8, Addr)>,
    args: Seq<Addr>, k: int, n: nat)
    requires
        0 <= k <= args.len(),
        pending_info(store, symbols, cyc, base, n) is Some,
        args_info(store, symbols, cyc, args.subrange(k, args.len() as int), n) is Some,
    ensures
        ({
            let r = pending_info(store, symbols, cyc, base, n)->0;
            let t = args_info(store, symbols, cyc, args.subrange(k, args.len() as int), n)->0;
            pending_info(store, symbols, cyc, base + arg_stack(args, k), n) == Some((t.0 + seq![')'] + r.0, t.1 + 1 + r.1))
        }),
    decreases args.len() - k,
{
    let r = pending_info(store, symbols, cyc, base, n)->0;
    let sub = args.subrange(k, args.len() as int);
    if k == args.len() {
        let s = base + arg_stack(args, k);
        assert(s =~= base.push((1u8, 0usize)));
        assert(s.drop_last() =~= base);
        assert(s.last() == (1u8, 0usize));
        assert(pending_info(store, symbols, cyc, s, n) == Some((seq![')'] + r.0, 1 + r.1)));
        assert(sub.len() == 0);
        assert(args_info(store, symbols, cyc, sub, n) == Some((Seq::<char>::empty(), 0nat)));
        assert(seq![')'] + r.0 =~= Seq::<char>::empty() + seq![')'] + r.0);
    } else if k == args.len() - 1 {
        let s = base + arg_stack(args, k);
        let s1 = base.push((1u8, 0usize));
        assert(s =~= s1.push((0u8, args[k])));
        assert(s.drop_last() =~= s1);
        assert(s1.drop_last() =~= base);
        assert(s1.last() == (1u8, 0usize));
        assert(pending_info(store, symbols, cyc, s1, n) == Some((seq![')'] + r.0, 1 + r.1)));
        assert(sub =~= seq![args[k]]);
        assert(sub[0] == args[k]);
        let h = tree_info(store, symbols, cyc, args[k], n)->0;
        assert(args_info(store, symbols, cyc, sub, n) == Some(h));
        assert(s.last() == (0u8, args[k]));
        assert(pending_info(store, symbols, cyc, s, n) == Some((h.0 + (seq![')'] + r.0), h.1 + (1 + r.1))));
        assert(h.0 + (seq![')'] + r.0) =~= h.0 + seq![')'] + r.0);
    } else {
        let s = base + arg_stack(args, k);
        let s1 = base + arg_stack(args, k + 1);
        assert(s =~= s1.push((2u8, 0usize)).push((0u8, args[k])));
        assert(s.drop_last() =~= s1.push((2u8, 0usize)));
        assert(s.drop_last().drop_last() =~= s1);
        assert(sub[0] == args[k]);
        assert(sub.subrange(1, sub.len() as int) =~= args.subrange(k + 1, args.len() as int));
        let h = tree_info(store, symbols, cyc, args[k], n)->0;
        assert(args_info(store, symbols, cyc, args.subrange(k + 1, args.len() as int), n) is Some);
        lemma_pending_args(store, symbols, cyc, base, args, k + 1, n);
        let t1 = args_info(store, symbols, cyc, args.subrange(k + 1, args.len() as int), n)->0;
        let p1 = pending_info(store, symbols, cyc, s1, n)->0;
        assert(p1 == (t1.0 + seq![')'] + r.0, t1.1 + 1 + r.1));
        let s2 = s1.push((2u8, 0usize));
        assert(s2.drop_last() =~= s1);
        assert(s2.last() == (2u8, 0usize));
        assert(pending_info(store, symbols, cyc, s2, n) == Some((seq![',', ' '] + p1.0, 1 + p1.1)));
        assert(s.last() == (0u8, args[k]));
        assert(pending_info(store, symbols, cyc, s, n) == Some((h.0 + (seq![',', ' '] + p1.0), h.1 + (1 + p1.1))));
        assert(args_info(store, symbols, cyc, sub, n) == Some((h.0 + seq![',', ' '] + t1.0, h.1 + 1 + t1.1)));
        assert(h.0 + (seq![',', ' '] + (t1.0 + seq![')'] + r.0)) =~= h.0 + seq![',', ' '] + t1.0 + seq![')'] + r.0);
    }
}

/// A term that prints stands at its resolved cell.
proof fn lemma_tree_resolved(store: Store, symbols: Seq<Seq<char>>, cyc: Seq<bool>, x: Addr, r: Addr, n: nat)
    requires
        tree_info(store, symbols, cyc, x, n) is Some,
        r as int == resolved(store, x as int),
    ensures
        tree_info(store, symbols, cyc, r, n) == tree_info(store, symbols, cyc, x, n),
{
    assert(0 <= r < store.heap_len());
    assert(!(store.cell_at(r as int) is Var));
    assert(deref_chain(store.slots(), r as int, store.heap_len()) == r as int);
}

/// Printing argument `k` moves the rendering of a flat structure from
/// before it to after it.
proof fn lemma_flat_step(args: Seq<Addr>, texts: Seq<Seq<char>>, pre: Seq<char>, k: int, out0: Seq<char>,
    out: Seq<char>, st0: Seq<(u8, Addr)>, st: Seq<(u8, Addr)>, fuel0: u64, fuel: u64)
    requires
        flat_state(st0, out0, fuel0, k, 0, args, texts, pre),
        out == out0 + texts[k],
        st == st0.drop_last(),
        fuel as int == fuel0 as int - 1,
    ensures
        flat_state(st, out, fuel, k + 1, 1, args, texts, pre),
{
    let sep = seq![',', ' '];
    lemma_arg_stack_top(args, k);
    lemma_join_take_next(texts, sep, k);
    if k == 0 {
        assert(texts.take(0) =~= Seq::<Seq<char>>::empty());
        assert(out =~= pre + join_with(texts.take(k + 1), sep));
    } else {
        assert(out =~= pre + join_with(texts.take(k + 1), sep));
    }
}

/// The cell `x` stands for once its bindings are followed.
pub open spec fn resolved(store: Store, x: int) -> int {
    deref_chain(store.slots(), x, store.heap_len())
}

/// `s` holds what the roots stand for, and what the arguments of every
/// structure in it stand for.
pub open spec fn reach_closed(store: Store, roots: Seq<Addr>, s: Set<int>) -> bool {
    &&& forall|i: int| 0 <= i < roots.len() ==> s.contains(resolved(store, #[trigger] roots[i] as int))
    &&& forall|a: int, j: int| #![trigger s.contains(a), store.cell_at(a), args_at(store, a, j)]
        0 <= a < store.heap_len() && s.contains(a) && store.cell_at(a) is Struct && 0 <= j < args_len(store, a)
            ==> s.contains(resolved(store, args_at(store, a, j) as int))
}

/// The number of arguments of the structure at `a`.
pub open spec fn args_len(store: Store, a: int) -> int {
    match store.cell_at(a) {
        Cell::Struct(_, args) => args@.len() as int,
        _ => 0,
    }
}

/// Argument `j` of the structure at `a`.
pub open spec fn args_at(store: Store, a: int, j: int) -> Addr {
    match store.cell_at(a) {
        Cell::Struct(_, args) => args@[j],
        _ => 0,
    }
}

/// `a` is reachable from the roots through bindings and structures: it lies
/// in every set closed as above.
pub open spec fn reaches(store: Store, roots: Seq<Addr>, a: int) -> bool {
    forall|s: Set<int>| #[trigger] reach_closed(store, roots, s) ==> s.contains(a)
}

/// The number of flags set.
pub open spec fn count_true(s: Seq<bool>) -> nat
    decreases s.len(),
{
    if s.len() == 0 {
        0
    } else {
        count_true(s.drop_last()) + (if s.last() { 1nat } else { 0nat })
    }
}

proof fn lemma_count_le(s: Seq<bool>)
    ensures
        count_true(s) <= s.len(),
    decreases s.len(),
{
    if s.len() > 0 {
        lemma_count_le(s.drop_last());
    }
}

proof fn lemma_count_set(s: Seq<bool>, a: int)
    requires
        0 <= a < s.len(),
        !s[a],
    ensures
        count_true(s.update(a, true)) == count_true(s) + 1,
    decreases s.len(),
{
    let t = s.update(a, true);
    if a == s.len() - 1 {
        assert(t.drop_last() =~= s.drop_last());
    } else {
        assert(t.drop_last() =~= s.drop_last().update(a, true));
        lemma_count_set(s.drop_last(), a);
    }
}

/// Unbound variables reachable from `roots` through bindings and
/// structures, as flags over the heap.
fn reachable_vars(store: &Store, roots: &Vec<Addr>) -> (flags: Vec<bool>)
    ensures
        flags@.len() == store.heap_len(),
        forall|a: int| 0 <= a < store.heap_len() ==>
            #[trigger] flags@[a] == (reaches(*store, roots@, a) && store.cell_at(a) is Var),
{
    let n = store.len();
    let ghost st = *store;
    let mut vars: Vec<bool> = Vec::new();
    let mut seen: Vec<bool> = Vec::new();
    let mut i: usize = 0;
    while i < n
        invariant
            i <= n,
            vars@.len() == i,
            seen@.len() == i,
            forall|k: int| 0 <= k < i ==> !vars@[k] && !seen@[k],
        decreases n - i,
    {
        vars.push(false);
        seen.push(false);
        i = i + 1;
    }
    let mut stack: Vec<Addr> = Vec::new();
    let mut i: usize = 0;
    while i < roots.len()
        invariant
            i <= roots@.len(),
            stack@ == roots@.take(i as int),
        decreases roots@.len() - i,
    {
        stack.push(roots[i]);
        i = i + 1;
        assert(stack@ =~= roots@.take(i as int));
    }
    proof {
        assert(stack@ =~= roots@);
        assert(count_true(seen@) == 0) by {
            assert forall|k: int| 0 <= k < seen@.len() implies !seen@[k] by {}
            lemma_count_zero(seen@);
        }
        assert forall|k: int| 0 <= k < stack@.len() implies reaches(st, roots@, resolved(st, #[trigger] stack@[k] as int)) by {
            assert forall|s: Set<int>| #[trigger] reach_closed(st, roots@, s) implies s.contains(resolved(st, stack@[k] as int)) by {
                assert(stack@[k] == roots@[k]);
            }
        }
    }
    while stack.len() > 0
        invariant
            n == store.heap_len(),
            st == *store,
            vars@.len() == n,
            seen@.len() == n,
            count_true(seen@) <= n,
            forall|a: int| 0 <= a < n ==> #[trigger] vars@[a] == (seen@[a] && store.cell_at(a) is Var),
            forall|a: int| 0 <= a < n && #[trigger] seen@[a] ==> reaches(st, roots@, a),
            forall|k: int| 0 <= k < stack@.len() ==> reaches(st, roots@, resolved(st, #[trigger] stack@[k] as int)),
            forall|k: int| 0 <= k < roots@.len() ==> !(0 <= resolved(st, #[trigger] roots@[k] as int) < n)
                || seen@[resolved(st, roots@[k] as int)] || stack@.contains(roots@[k]),
            forall|a: int, j: int| #![trigger seen@[a], args_at(st, a, j)]
                0 <= a < n && seen@[a] && store.cell_at(a) is Struct && 0 <= j < args_len(st, a) ==>
                !(0 <= resolved(st, args_at(st, a, j) as int) < n) || seen@[resolved(st, args_at(st, a, j) as int)]
                || stack@.contains(args_at(st, a, j)),
        decreases n - count_true(seen@), stack@.len(),
    {
        let ghost before = stack@;
        let x = stack.pop().unwrap();
        let a = store.deref(x);
        proof {
            assert(before.last() == x);
            assert(stack@ =~= before.drop_last());
            assert(reaches(st, roots@, resolved(st, x as int)));
            // What the popped entry covered is now covered by `a`.
            assert forall|y: Addr| before.contains(y) && y != x implies stack@.contains(y) by {
                let k = choose|k: int| 0 <= k < before.len() && before[k] == y;
                assert(k < before.len() - 1);
                assert(stack@[k] == y);
            }
        }
        let ghost seen_before = seen@;
        if a >= n || seen[a] {
            proof {
                assert forall|k: int| 0 <= k < roots@.len() implies !(0 <= resolved(st, #[trigger] roots@[k] as int) < n)
                    || seen@[resolved(st, roots@[k] as int)] || stack@.contains(roots@[k]) by {
                    if roots@[k] == x {
                    } else if before.contains(roots@[k]) {
                        assert(stack@.contains(roots@[k]));
                    }
                }
                assert forall|b: int, j: int| #![trigger seen@[b], args_at(st, b, j)]
                    0 <= b < n && seen@[b] && store.cell_at(b) is Struct && 0 <= j < args_len(st, b) implies
                    !(0 <= resolved(st, args_at(st, b, j) as int) < n) || seen@[resolved(st, args_at(st, b, j) as int)]
                    || stack@.contains(args_at(st, b, j)) by {
                    let y = args_at(st, b, j);
                    if y == x {
                    } else if before.contains(y) {
                        assert(stack@.contains(y));
                    }
                }
            }
            continue;
        }
        let ghost seen0 = seen@;
        seen.set(a, true);
        proof {
            lemma_count_set(seen0, a as int);
            lemma_count_le(seen@);
        }
        match store.cell(a) {
            Cell::Var(_) => {
                vars.set(a, true);
            },
            Cell::Struct(_, args) => {
                let ghost base = stack@;
                let mut j: usize = 0;
                while j < args.len()
                    invariant
                        j <= args@.len(),
                        stack@ == base + args@.take(j as int),
                    decreases args@.len() - j,
                {
                    stack.push(args[j]);
                    j = j + 1;
                    assert(stack@ =~= base + args@.take(j as int));
                }
                proof {
                    assert(stack@ =~= base + args@);
                    assert(args_len(st, a as int) == args@.len());
                    assert forall|k: int| 0 <= k < stack@.len() implies reaches(st, roots@, resolved(st, #[trigger] stack@[k] as int)) by {
                        if k >= base.len() {
                            let jj = k - base.len();
                            assert(stack@[k] == args@[jj]);
                            assert(args_at(st, a as int, jj) == args@[jj]);
                            assert forall|s: Set<int>| #[trigger] reach_closed(st, roots@, s) implies s.contains(resolved(st, stack@[k] as int)) by {
                                assert(s.contains(a as int));
                            }
                        } else {
                            assert(stack@[k] == base[k]);
                        }
                    }
                    assert forall|jj: int| 0 <= jj < args@.len() implies stack@.contains(#[trigger] args@[jj]) by {
                        assert(stack@[base.len() + jj] == args@[jj]);
                    }
                    assert forall|y: Addr| base.contains(y) implies stack@.contains(y) by {
                        let k = choose|k: int| 0 <= k < base.len() && base[k] == y;
                        assert(stack@[k] == y);
                    }
                }
            },
            _ => {},
        }
        proof {
            assert forall|b: int| 0 <= b < n && #[trigger] seen0[b] implies seen@[b] by {}
            assert forall|k: int| 0 <= k < roots@.len() implies !(0 <= resolved(st, #[trigger] roots@[k] as int) < n)
                || seen@[resolved(st, roots@[k] as int)] || stack@.contains(roots@[k]) by {
                let r = resolved(st, roots@[k] as int);
                if roots@[k] == x {
                    assert(seen@[a as int]);
                } else if 0 <= r < n && seen0[r] {
                    assert(seen@[r]);
                } else if before.contains(roots@[k]) {
                    assert(stack@.contains(roots@[k]));
                }
            }
            assert forall|b: int, j: int| #![trigger seen@[b], args_at(st, b, j)]
                0 <= b < n && seen@[b] && store.cell_at(b) is Struct && 0 <= j < args_len(st, b) implies
                !(0 <= resolved(st, args_at(st, b, j) as int) < n) || seen@[resolved(st, args_at(st, b, j) as int)]
                || stack@.contains(args_at(st, b, j)) by {
                let y = args_at(st, b, j);
                let r = resolved(st, y as int);
                if b == a as int {
                    assert(stack@.contains(y));
                } else {
                    assert(seen0[b]);
                    if y == x {
                        assert(seen@[a as int]);
                    } else if 0 <= r < n && seen0[r] {
                        assert(seen@[r]);
                    } else if before.contains(y) {
                        assert(stack@.contains(y));
                    }
                }
            }
        }
    }
    proof {
        let s0 = Set::new(|b: int| !(0 <= b < n) || seen@[b]);
        assert(reach_closed(st, roots@, s0));
        assert forall|b: int| 0 <= b < n implies #[trigger] vars@[b] == (reaches(st, roots@, b) && store.cell_at(b) is Var) by {
            if reaches(st, roots@, b) {
                assert(s0.contains(b));
            }
        }
    }
    vars
}

proof fn lemma_count_zero(s: Seq<bool>)
    requires
        forall|k: int| 0 <= k < s.len() ==> !s[k],
    ensures
        count_true(s) == 0,
    decreases s.len(),
{
    if s.len() > 0 {
        lemma_count_zero(s.drop_last());
    }
}

/// Some variable flagged in `vars` is flagged in `reachable`.
pub open spec fn flags_meet(vars: Seq<bool>, reachable: Seq<bool>) -> bool {
    exists|i: int| 0 <= i < vars.len() && #[trigger] vars[i] && i < reachable.len() && reachable[i]
}

/// Every variable flagged in `vars` is flagged in `reachable`.
pub open spec fn flags_within(vars: Seq<bool>, reachable: Seq<bool>) -> bool {
    forall|i: int| 0 <= i < vars.len() && #[trigger] vars[i] ==> i < reachable.len() && reachable[i]
}

fn any_flag_in(vars: &Vec<bool>, reachable: &Vec<bool>) -> (b: bool)
    ensures
        b == flags_meet(vars@, reachable@),
{
    let mut i: usize = 0;
    while i < vars.len()
        invariant
            i <= vars@.len(),
            forall|k: int| 0 <= k < i && #[trigger] vars@[k] ==> !(k < reachable@.len() && reachable@[k]),
        decreases vars@.len() - i,
    {
        if vars[i] && i < reachable.len() && reachable[i] {
            return true;
        }
        i = i + 1;
    }
    false
}

fn all_flags_in(vars: &Vec<bool>, reachable: &Vec<bool>) -> (b: bool)
    ensures
        b == flags_within(vars@, reachable@),
{
    let mut i: usize = 0;
    while i < vars.len()
        invariant
            i <= vars@.len(),
            forall|k: int| 0 <= k < i && #[trigger] vars@[k] ==> k < reachable@.len() && reachable@[k],
        decreases vars@.len() - i,
    {
        if vars[i] && !(i < reachable.len() && reachable[i]) {
            return false;
        }
        i = i + 1;
    }
    true
}

fn pair(a: Addr, b: Addr) -> (v: Vec<Addr>)
    ensures
        v@ == seq![a, b],
{
    let mut v: Vec<Addr> = Vec::new();
    v.push(a);
    v.push(b);
    v
}

/// `name = rhs`.
fn equation(name: &Vec<char>, rhs: &Vec<char>) -> (s: String)
    ensures
        s@ == name@ + seq![' ', '=', ' '] + rhs@,
{
    let mut out = name.clone();
    push_str(&mut out, " = ");
    proof {
        reveal_strlit(" = ");
    }
    push_all(&mut out, rhs);
    string_from_chars(&out)
}

/// The addresses of the query variables.
pub open spec fn query_roots(query_vars: Seq<(String, Addr)>) -> Seq<Addr> {
    query_vars.map_values(|p: (String, Addr)| p.1)
}

/// A pending disequation belongs to the answer when a variable it reaches is
/// reachable from the query.
pub open spec fn dif_shown(store: Store, roots: Seq<Addr>, p: (Addr, Addr)) -> bool {
    exists|v: int| 0 <= v < store.heap_len() && store.cell_at(v) is Var
        && #[trigger] reaches(store, sides(p), v) && reaches(store, roots, v)
}

/// The two sides of a disequation.
pub open spec fn sides(p: (Addr, Addr)) -> Seq<Addr> {
    seq![p.0, p.1]
}

/// The pending disequations the answer shows, in order.
pub open spec fn shown_difs(store: Store, roots: Seq<Addr>) -> Seq<(Addr, Addr)> {
    pending_pairs(store.image().difs).filter(|p: (Addr, Addr)| dif_shown(store, roots, p))
}

/// Every variable reachable from `sides` is reachable from the roots.
pub open spec fn all_visible(store: Store, roots: Seq<Addr>, sides: Seq<Addr>) -> bool {
    forall|v: int| 0 <= v < store.heap_len() && store.cell_at(v) is Var && #[trigger] reaches(store, sides, v)
        ==> reaches(store, roots, v)
}

/// Something numeric is visible from the roots: a reachable variable with a
/// solver variable, or an attribute term of the query all of whose variables
/// are reachable.
pub open spec fn numeric_visible(store: Store, roots: Seq<Addr>) -> bool {
    ||| exists|a: int| 0 <= a < store.heap_len() && store.cell_at(a) is Var
            && #[trigger] reaches(store, roots, a) && store.slots()[a].numvar is Some
    ||| exists|i: int| store.baselines().0 <= i < store.image().attrs.len()
            && all_visible(store, roots, seq![(#[trigger] store.image().attrs[i]).term, store.image().attrs[i].term])
}

/// How many numeric disequations of the query among the first `n` the
/// answer shows: those still pending all of whose variables are reachable
/// from the roots.
pub open spec fn shown_numdif_count(store: Store, roots: Seq<Addr>, n: int) -> nat
    decreases n,
{
    if n <= store.baselines().1 || n > store.image().numdifs.len() {
        0
    } else {
        let nd = store.image().numdifs[n - 1];
        shown_numdif_count(store, roots, n - 1) + (if nd.pending && all_visible(store, roots, seq![nd.a, nd.b]) {
            1nat
        } else {
            0nat
        })
    }
}

/// A line `l != r`.
pub open spec fn is_dif_line(s: Seq<char>) -> bool {
    exists|l: Seq<char>, r: Seq<char>| s == l + seq![' ', '!', '=', ' '] + r
}

/// The cell the `i`-th query variable stands for.
pub open spec fn target_of(store: Store, qv: Seq<(String, Addr)>, i: int) -> int {
    resolved(store, qv[i].1 as int)
}

/// An unbound variable of the store.
pub open spec fn unbound_at(store: Store, d: int) -> bool {
    0 <= d < store.heap_len() && store.cell_at(d) is Var
}

/// The first of the query variables before `i` that stands for `d`; `i`
/// when there is none.
pub open spec fn first_for(store: Store, qv: Seq<(String, Addr)>, d: int, i: int) -> int
    decreases i,
{
    if i <= 0 {
        0
    } else {
        let f = first_for(store, qv, d, i - 1);
        if f < i - 1 {
            f
        } else if target_of(store, qv, i - 1) == d {
            i - 1
        } else {
            i
        }
    }
}

/// The `i`-th query variable has an equation among the leading ones: it is
/// bound to a term, it is an unbound variable that an earlier query
/// variable already names, or its numeric value is fixed.
pub open spec fn emits(store: Store, qv: Seq<(String, Addr)>, i: int) -> bool {
    let d = target_of(store, qv, i);
    if unbound_at(store, d) {
        ||| first_for(store, qv, d, i) < i
        ||| (store.slots()[d].numvar matches Some(sv) && exhibited(store.solver(), sv.0) is Some)
    } else {
        0 <= d < store.heap_len()
    }
}

/// How many of the first `i` query variables have a leading equation.
pub open spec fn emit_count(store: Store, qv: Seq<(String, Addr)>, i: int) -> int
    decreases i,
{
    if i <= 0 {
        0
    } else {
        emit_count(store, qv, i - 1) + (if emits(store, qv, i - 1) { 1int } else { 0int })
    }
}

/// `s` is the leading equation of the `i`-th query variable `X`: `Y = X`
/// for an alias of an earlier `Y`, `X = v` for a number or a fixed numeric
/// value `v`, `X = c` for a constant `c`, and `X = …` for a structure.
pub open spec fn equation_fits(store: Store, symbols: Seq<Seq<char>>, qv: Seq<(String, Addr)>, i: int, s: Seq<char>) -> bool {
    let d = target_of(store, qv, i);
    let name = qv[i].0@;
    let eq = seq![' ', '=', ' '];
    if unbound_at(store, d) {
        if first_for(store, qv, d, i) < i {
            s == qv[first_for(store, qv, d, i)].0@ + eq + name
        } else {
            store.slots()[d].numvar matches Some(sv) && exhibited(store.solver(), sv.0) matches Some(v)
                && s == name + eq + rat_text(v)
        }
    } else {
        &&& s.len() >= name.len() + 3
        &&& s.take(name.len() + 3int) == name + eq
        &&& store.cell_at(d) matches Cell::Num(n) ==> s == name + eq + rat_text(n@)
        &&& store.cell_at(d) matches Cell::Const(c) ==> (c.0 < symbols.len() ==> s == name + eq + symbols[c.0 as int])
        &&& flat_struct(store, symbols, d) ==> s == name + eq + struct_head(store, symbols, d)
            + join_with(arg_texts(store, symbols, struct_args(store, d)), seq![',', ' ']) + seq![')']
    }
}

proof fn lemma_first_for_bound(store: Store, qv: Seq<(String, Addr)>, d: int, i: int)
    requires
        0 <= i,
    ensures
        first_for(store, qv, d, i) <= i,
    decreases i,
{
    if i > 0 {
        lemma_first_for_bound(store, qv, d, i - 1);
    }
}

proof fn lemma_emit_count_monotone(store: Store, qv: Seq<(String, Addr)>, k: int, i: int)
    requires
        0 <= k <= i,
    ensures
        emit_count(store, qv, k) <= emit_count(store, qv, i),
    decreases i - k,
{
    if k < i {
        lemma_emit_count_monotone(store, qv, k, i - 1);
    }
}

proof fn lemma_emit_count_before(store: Store, qv: Seq<(String, Addr)>, k: int, i: int)
    requires
        0 <= k < i,
        emits(store, qv, k),
    ensures
        0 <= emit_count(store, qv, k) < emit_count(store, qv, i),
{
    lemma_emit_count_monotone(store, qv, 0, k);
    lemma_emit_count_monotone(store, qv, k + 1, i);
    assert(emit_count(store, qv, k + 1) == emit_count(store, qv, k) + 1);
}

/// Naming another cell leaves the name of `a` as it was.
proof fn lemma_name_from_push_other(names: Seq<(Addr, Vec<char>)>, x: (Addr, Vec<char>), a: Addr, i: int)
    requires
        0 <= i <= names.len(),
        x.0 != a,
    ensures
        name_from(names.push(x), a, i) == name_from(names, a, i),
    decreases names.len() - i,
{
    if i < names.len() {
        assert(names.push(x)[i] == names[i]);
        lemma_name_from_push_other(names, x, a, i + 1);
    } else {
        assert(names.push(x)[i] == x);
        assert(name_from(names.push(x), a, i + 1) is None);
    }
}

proof fn lemma_filter_push_pair(s: Seq<(Addr, Addr)>, x: (Addr, Addr), f: spec_fn((Addr, Addr)) -> bool)
    ensures
        s.push(x).filter(f) == (if f(x) { s.filter(f).push(x) } else { s.filter(f) }),
{
    reveal(Seq::filter);
    assert(s.push(x).drop_last() =~= s);
    assert(s.push(x).last() == x);
}

/// Build the answer for the query variables from the current store: one
/// disequation for each pending disequation that reaches a variable
/// reachable from the query.
pub(crate) fn render_answer(symbols: &Symbols, store: &Store, query_vars: &Vec<(String, Addr)>) -> (a: Answer)
    requires
        store.wf(),
    ensures
        a.equations@.len() >= emit_count(*store, query_vars@, query_vars@.len() as int),
        forall|i: int| #![trigger emits(*store, query_vars@, i)] 0 <= i < query_vars@.len() && emits(*store, query_vars@, i)
            ==> equation_fits(*store, symbols@, query_vars@, i, a.equations@[emit_count(*store, query_vars@, i)]@),
        a.disequations@.len() == shown_difs(*store, query_roots(query_vars@)).len(),
        forall|x: int| #![trigger reaches(*store, query_roots(query_vars@), x)]
            0 <= x < store.heap_len() && store.cell_at(x) is Var && reaches(*store, query_roots(query_vars@), x)
                && store.slots()[x].numvar is Some
            ==> shows_bounds(*store, alias_root(store.image().aliases, store.slots()[x].numvar->0, store.alias_len()),
                strings_view(a.constraints@)),
        !numeric_visible(*store, query_roots(query_vars@)) ==> a.constraints@.len() == 0,
        numeric_visible(*store, query_roots(query_vars@)) ==> {
            let k = shown_numdif_count(*store, query_roots(query_vars@), store.image().numdifs.len() as int);
            &&& a.constraints@.len() >= k
            &&& forall|j: int| a.constraints@.len() - k <= j < a.constraints@.len()
                ==> is_dif_line(#[trigger] a.constraints@[j]@)
        },
{
    let mut p = Printer::new(store.len());
    let mut equations: Vec<String> = Vec::new();

    // Projection: a pending disequation belongs to the answer only if it
    // mentions a variable reachable from the query variables. Disequations
    // over internal variables alone are always satisfiable (finitely many,
    // over an infinite universe) and are dropped.
    let mut roots: Vec<Addr> = Vec::new();
    let mut i: usize = 0;
    while i < query_vars.len()
        invariant
            i <= query_vars@.len(),
            roots@ == query_roots(query_vars@.take(i as int)),
        decreases query_vars@.len() - i,
    {
        roots.push(query_vars[i].1);
        i = i + 1;
        assert(roots@ =~= query_roots(query_vars@.take(i as int)));
    }
    proof {
        assert(query_vars@.take(query_vars@.len() as int) =~= query_vars@);
    }
    let ghost qroots = roots@;
    let reachable = reachable_vars(store, &roots);
    let all_difs = store.pending_difs();
    let mut difs: Vec<(Addr, Addr)> = Vec::new();
    let ghost shown = |p: (Addr, Addr)| dif_shown(*store, qroots, p);
    let mut i: usize = 0;
    proof {
        reveal(Seq::filter);
        assert(all_difs@.take(0) =~= Seq::<(Addr, Addr)>::empty());
    }
    while i < all_difs.len()
        invariant
            i <= all_difs@.len(),
            difs@ == all_difs@.take(i as int).filter(shown),
            reachable@.len() == store.heap_len(),
            forall|v: int| 0 <= v < store.heap_len() ==>
                #[trigger] reachable@[v] == (reaches(*store, qroots, v) && store.cell_at(v) is Var),
            shown == (|p: (Addr, Addr)| dif_shown(*store, qroots, p)),
        decreases all_difs@.len() - i,
    {
        let (a, b) = all_difs[i];
        let vs = reachable_vars(store, &pair(a, b));
        let keep = any_flag_in(&vs, &reachable);
        proof {
            assert(all_difs@.take(i + 1) =~= all_difs@.take(i as int).push(all_difs@[i as int]));
            lemma_filter_push_pair(all_difs@.take(i as int), all_difs@[i as int], shown);
            if keep {
                let k = choose|k: int| 0 <= k < vs@.len() && #[trigger] vs@[k] && k < reachable@.len() && reachable@[k];
                assert(sides((a, b)) == seq![a, b]);
                assert(reaches(*store, sides((a, b)), k));
                assert(dif_shown(*store, qroots, (a, b)));
            } else {
                if dif_shown(*store, qroots, (a, b)) {
                    let v = choose|v: int| 0 <= v < store.heap_len() && store.cell_at(v) is Var
                        && #[trigger] reaches(*store, sides((a, b)), v) && reaches(*store, qroots, v);
                    assert(sides((a, b)) == seq![a, b]);
                    assert(vs@[v]);
                    assert(reachable@[v]);
                }
            }
        }
        if keep {
            difs.push((a, b));
        }
        i = i + 1;
    }
    proof {
        assert(all_difs@.take(all_difs@.len() as int) =~= all_difs@);
        assert(qroots == query_roots(query_vars@));
    }

    // Pass 1: cycle detection over everything that will print.
    let mut i: usize = 0;
    while i < query_vars.len()
        invariant
            i <= query_vars@.len(),
            p.names@.len() == 0,
        decreases query_vars@.len() - i,
    {
        p.find_cycles(store, query_vars[i].1);
        i = i + 1;
    }
    let mut i: usize = 0;
    while i < difs.len()
        invariant
            i <= difs@.len(),
            p.names@.len() == 0,
        decreases difs@.len() - i,
    {
        p.find_cycles(store, difs[i].0);
        p.find_cycles(store, difs[i].1);
        i = i + 1;
    }

    // Pass 2: name every query variable before rendering anything, so that
    // unbound variables print under their own names, aliases print `A = B`
    // in variable order, and a cyclic value node is labelled by the first
    // variable bound to it (`X = f(X)`).
    let ghost qv = query_vars@;
    let mut aliases: Vec<Option<String>> = Vec::new();
    let mut i: usize = 0;
    while i < query_vars.len()
        invariant
            i <= query_vars@.len(),
            qv == query_vars@,
            aliases@.len() == i,
            forall|k: int| #![trigger aliases@[k]] 0 <= k < i ==> {
                &&& (aliases@[k] is Some) == (unbound_at(*store, target_of(*store, qv, k))
                    && first_for(*store, qv, target_of(*store, qv, k), k) < k)
                &&& aliases@[k] matches Some(s) ==> s@ == qv[first_for(*store, qv, target_of(*store, qv, k), k)].0@
                    + seq![' ', '=', ' '] + qv[k].0@
            },
            forall|v: int| #![trigger first_for(*store, qv, v, i as int)] unbound_at(*store, v) ==> {
                &&& first_for(*store, qv, v, i as int) < i
                    ==> name_from(p.names@, v as usize, 0) == Some(qv[first_for(*store, qv, v, i as int)].0@)
                &&& first_for(*store, qv, v, i as int) >= i ==> name_from(p.names@, v as usize, 0) is None
            },
        decreases query_vars@.len() - i,
    {
        let name = to_chars(query_vars[i].0.as_str());
        let d = store.deref(query_vars[i].1);
        let ghost old_names = p.names@;
        let ghost ii = i as int;
        proof {
            assert(d as int == target_of(*store, qv, ii));
            assert forall|v: int| #![trigger first_for(*store, qv, v, ii + 1)] unbound_at(*store, v)
                implies first_for(*store, qv, v, ii + 1) == (if first_for(*store, qv, v, ii) < ii {
                    first_for(*store, qv, v, ii)
                } else if v == d as int {
                    ii
                } else {
                    ii + 1
                }) by {
                assert(first_for(*store, qv, v, ii) <= ii) by {
                    lemma_first_for_bound(*store, qv, v, ii);
                }
            }
        }
        let is_var = d < store.len() && matches!(store.cell(d), Cell::Var(_));
        if is_var {
            match p.lookup(d) {
                Some(existing) => {
                    proof {
                        assert(first_for(*store, qv, d as int, ii) < ii);
                    }
                    aliases.push(Some(equation(existing, &name)));
                },
                None => {
                    proof {
                        assert(first_for(*store, qv, d as int, ii) >= ii);
                        lemma_name_from_push(old_names, d, name@, 0);
                    }
                    p.names.push((d, name));
                    proof {
                        assert forall|v: int| unbound_at(*store, v) && v != d as int
                            implies name_from(p.names@, v as usize, 0) == name_from(old_names, v as usize, 0) by {
                            lemma_name_from_push_other(old_names, p.names@.last(), v as usize, 0);
                            assert(p.names@ == old_names.push(p.names@.last()));
                        }
                    }
                    aliases.push(None);
                },
            }
        } else {
            if p.is_cyclic(d) && !p.has_name(d) {
                p.names.push((d, name));
                proof {
                    assert forall|v: int| unbound_at(*store, v)
                        implies name_from(p.names@, v as usize, 0) == name_from(old_names, v as usize, 0) by {
                        lemma_name_from_push_other(old_names, p.names@.last(), v as usize, 0);
                        assert(p.names@ == old_names.push(p.names@.last()));
                    }
                }
            }
            aliases.push(None);
        }
        i = i + 1;
    }

    // Pass 3: equations, in query-variable order. An unbound numeric
    // variable whose value is determined prints as `X = value`.
    let mut i: usize = 0;
    while i < query_vars.len()
        invariant
            i <= query_vars@.len(),
            store.wf(),
            qv == query_vars@,
            aliases@.len() == query_vars@.len(),
            forall|k: int| #![trigger aliases@[k]] 0 <= k < query_vars@.len() ==> {
                &&& (aliases@[k] is Some) == (unbound_at(*store, target_of(*store, qv, k))
                    && first_for(*store, qv, target_of(*store, qv, k), k) < k)
                &&& aliases@[k] matches Some(s) ==> s@ == qv[first_for(*store, qv, target_of(*store, qv, k), k)].0@
                    + seq![' ', '=', ' '] + qv[k].0@
            },
            equations@.len() == emit_count(*store, qv, i as int),
            forall|k: int| #![trigger emits(*store, qv, k)] 0 <= k < i && emits(*store, qv, k)
                ==> equation_fits(*store, symbols@, qv, k, equations@[emit_count(*store, qv, k)]@),
        decreases query_vars@.len() - i,
    {
        let ghost before = equations@;
        let ghost ii = i as int;
        proof {
            assert forall|k: int| 0 <= k < ii && emits(*store, qv, k)
                implies emit_count(*store, qv, k) < before.len() by {
                lemma_emit_count_before(*store, qv, k, ii);
            }
        }
        let name = to_chars(query_vars[i].0.as_str());
        let d = store.deref(query_vars[i].1);
        proof {
            assert(d as int == target_of(*store, qv, ii));
            assert(aliases@[ii] is Some == (unbound_at(*store, d as int) && first_for(*store, qv, d as int, ii) < ii));
        }
        if let Some(alias) = &aliases[i] {
            equations.push(alias.clone());
            proof {
                assert(emits(*store, qv, ii));
                assert(equations@[emit_count(*store, qv, ii)] == *alias);
                assert forall|k: int| #![trigger emits(*store, qv, k)] 0 <= k < ii + 1 && emits(*store, qv, k)
                    implies equation_fits(*store, symbols@, qv, k, equations@[emit_count(*store, qv, k)]@) by {
                    if k < ii {
                        lemma_emit_count_before(*store, qv, k, ii);
                        assert(equations@[emit_count(*store, qv, k)] == before[emit_count(*store, qv, k)]);
                    }
                }
            }
            i = i + 1;
            continue;
        }
        if d < store.len() {
            let is_var = matches!(store.cell(d), Cell::Var(_));
            if !is_var {
                let rendered = p.render(symbols, store, query_vars[i].1);
                equations.push(equation(&name, &rendered));
                proof {
                    let s = equations@[emit_count(*store, qv, ii)]@;
                    assert(s == name@ + seq![' ', '=', ' '] + rendered@);
                    assert(s.take(name@.len() + 3int) =~= name@ + seq![' ', '=', ' ']);
                    if flat_struct(*store, symbols@, d as int) {
                        assert(s =~= name@ + seq![' ', '=', ' '] + struct_head(*store, symbols@, d as int)
                            + join_with(arg_texts(*store, symbols@, struct_args(*store, d as int)), seq![',', ' ']) + seq![')']);
                    }
                    assert(emits(*store, qv, ii));
                    assert forall|k: int| #![trigger emits(*store, qv, k)] 0 <= k < ii + 1 && emits(*store, qv, k)
                        implies equation_fits(*store, symbols@, qv, k, equations@[emit_count(*store, qv, k)]@) by {
                        if k < ii {
                            lemma_emit_count_before(*store, qv, k, ii);
                        assert(equations@[emit_count(*store, qv, k)] == before[emit_count(*store, qv, k)]);
                        }
                    }
                }
            } else {
                let value = match store.numvar_of(d) {
                    Some(sv) => store.cheap_value(sv),
                    None => None,
                };
                if let Some(c) = value {
                    equations.push(equation(&name, &number_chars(&c)));
                    proof {
                        assert(emits(*store, qv, ii));
                        assert forall|k: int| #![trigger emits(*store, qv, k)] 0 <= k < ii + 1 && emits(*store, qv, k)
                            implies equation_fits(*store, symbols@, qv, k, equations@[emit_count(*store, qv, k)]@) by {
                            if k < ii {
                                lemma_emit_count_before(*store, qv, k, ii);
                        assert(equations@[emit_count(*store, qv, k)] == before[emit_count(*store, qv, k)]);
                            }
                        }
                    }
                } else {
                    proof {
                        assert(!emits(*store, qv, ii));
                    }
                }
            }
        } else {
            proof {
                assert(!emits(*store, qv, ii));
            }
        }
        i = i + 1;
    }
    proof {
        assert forall|k: int| #![trigger emits(*store, qv, k)] 0 <= k < qv.len() && emits(*store, qv, k)
            implies emit_count(*store, qv, k) < equations@.len() by {
            lemma_emit_count_before(*store, qv, k, qv.len() as int);
        }
    }
    let ghost leading = equations@;

    // Pass 4: disequations.
    let mut disequations: Vec<String> = Vec::new();
    let mut i: usize = 0;
    while i < difs.len()
        invariant
            i <= difs@.len(),
            store.wf(),
            disequations@.len() == i,
        decreases difs@.len() - i,
    {
        let l = p.render(symbols, store, difs[i].0);
        let r = p.render(symbols, store, difs[i].1);
        let mut out = l;
        push_str(&mut out, " != ");
        push_all(&mut out, &r);
        disequations.push(string_from_chars(&out));
        i = i + 1;
    }

    // Pass 5: cyclic nodes that were named but not yet expanded.
    let mut fuel: u64 = u64::MAX;
    while p.pending_nodes.len() > 0 && fuel > 0
        invariant
            store.wf(),
            equations@.len() >= leading.len(),
            forall|k: int| 0 <= k < leading.len() ==> #[trigger] equations@[k] == leading[k],
        decreases fuel,
    {
        fuel = fuel - 1;
        let node = p.pending_nodes.pop().unwrap();
        let name = p.name_for(node);
        let rendered = p.render(symbols, store, node);
        equations.push(equation(&name, &rendered));
    }
    proof {
        assert forall|k: int| #![trigger emits(*store, qv, k)] 0 <= k < qv.len() && emits(*store, qv, k)
            implies equation_fits(*store, symbols@, qv, k, equations@[emit_count(*store, qv, k)]@) by {
            lemma_emit_count_before(*store, qv, k, qv.len() as int);
            assert(equations@[emit_count(*store, qv, k)] == leading[emit_count(*store, qv, k)]);
        }
    }

    // Pass 6: the numeric store, restricted to what the query can see.
    let constraints = render_numeric(&mut p, symbols, store, &reachable, Ghost(qroots));

    Answer { equations, disequations, constraints }
}

// --- the numeric part ------------------------------------------------------------

/// Names of solver variables (alias-class roots), by variable number.
struct SvNames {
    entries: Vec<Option<Vec<char>>>,
}

impl SvNames {
    /// The name of solver variable `v`, if it has one.
    spec fn name(&self, v: usize) -> Option<Seq<char>> {
        if v < self.entries@.len() && self.entries@[v as int] is Some {
            Some(self.entries@[v as int]->0@)
        } else {
            None
        }
    }

    fn get(&self, v: SVar) -> (r: Option<&Vec<char>>)
        ensures
            r matches Some(n) ==> self.name(v.0) == Some(n@),
            r is None ==> self.name(v.0) is None,
    {
        if v.0 < self.entries.len() {
            match &self.entries[v.0] {
                Some(n) => Some(n),
                None => None,
            }
        } else {
            None
        }
    }

    fn has(&self, v: SVar) -> (b: bool)
        ensures
            b == self.name(v.0) is Some,
    {
        self.get(v).is_some()
    }

    /// Name `v` `n`; the other names stay.
    fn insert(&mut self, v: SVar, n: Vec<char>)
        ensures
            final(self).name(v.0) == Some(n@),
            forall|w: usize| w != v.0 ==> final(self).name(w) == old(self).name(w),
    {
        while self.entries.len() <= v.0
            invariant
                forall|w: usize| #[trigger] self.name(w) == old(self).name(w),
            decreases v.0 + 1 - self.entries@.len(),
        {
            let ghost before = *self;
            self.entries.push(None);
            proof {
                assert forall|w: usize| #[trigger] self.name(w) == before.name(w) by {
                    if (w as int) < before.entries@.len() {
                        assert(self.entries@[w as int] == before.entries@[w as int]);
                    }
                }
            }
        }
        let ghost before = *self;
        self.entries.set(v.0, Some(n));
        proof {
            assert forall|w: usize| w != v.0 implies #[trigger] self.name(w) == before.name(w) by {
                if (w as int) < before.entries@.len() {
                    assert(self.entries@[w as int] == before.entries@[w as int]);
                }
            }
        }
    }

    fn is_empty(&self) -> (b: bool)
        ensures
            b == (forall|w: usize| #[trigger] self.name(w) is None),
    {
        let mut i: usize = 0;
        while i < self.entries.len()
            invariant
                i <= self.entries@.len(),
                forall|k: int| 0 <= k < i ==> self.entries@[k] is None,
            decreases self.entries@.len() - i,
        {
            if self.entries[i].is_some() {
                assert(self.name(i) is Some);
                return false;
            }
            i = i + 1;
        }
        true
    }
}

/// A sum in progress: its constant and its coefficient of each variable.
pub type NormAcc = ((int, int), spec_fn(usize) -> (int, int));

/// `f` with `a` added to the coefficient of `r` (nothing when `a` is zero).
pub open spec fn add_coeff(f: spec_fn(usize) -> (int, int), r: usize, a: (int, int)) -> spec_fn(usize) -> (int, int) {
    |u: usize| if u == r && a.0 != 0 { rat_add(f(u), a) } else { f(u) }
}

/// The sum so far of `x`.
pub open spec fn acc_of(x: LinExpr) -> NormAcc {
    (x@.1, |u: usize| x.coeff_spec(u))
}

/// `acc` plus `k` times the terms of `t` from `j` on, in order: a defined
/// variable (below depth 64) is replaced by its definition, one level
/// deeper; any other variable is mapped to its alias root, whose class
/// value, if it has one, goes into the constant.
pub open spec fn norm_terms(store: Store, t: Seq<(usize, (int, int))>, j: int, k: (int, int), depth: nat, acc: NormAcc) -> NormAcc
    decreases (if depth < 64 { 64 - depth } else { 0 }) as nat, t.len() - j + 1,
{
    if j < 0 || j >= t.len() {
        acc
    } else {
        let v = t[j].0;
        let ak = rat_mul(t[j].1, k);
        let next = if depth < 64 && v < store.defs_spec().len() && store.defs_spec()[v as int] is Some {
            norm_expr(store, store.defs_spec()[v as int]->0@, ak, depth + 1, acc)
        } else {
            let r = alias_root(store.image().aliases, SVar(v), store.alias_len());
            match class_value_from(store.solver(), store.image().aliases, store.alias_len(),
                alias_root(store.image().aliases, r, store.alias_len()), 0, store.solver_vars()) {
                Some(cv) => (rat_add(acc.0, rat_mul(cv, ak)), acc.1),
                None => (acc.0, add_coeff(acc.1, r.0, ak)),
            }
        };
        norm_terms(store, t, j + 1, k, depth, next)
    }
}

/// `acc` plus `k` times the expression `e`, expanded as [`norm_terms`] does.
pub open spec fn norm_expr(store: Store, e: (Seq<(usize, (int, int))>, (int, int)), k: (int, int), depth: nat, acc: NormAcc) -> NormAcc
    decreases (if depth < 64 { 64 - depth } else { 0 }) as nat, e.0.len() + 2,
{
    norm_terms(store, e.0, 0, k, depth, (rat_add(acc.0, rat_mul(e.1, k)), acc.1))
}

/// Expand defined variables by their definitions (permanent identities),
/// map variables to roots, substitute fixed classes by their values, and
/// merge like terms: `out += k·e`.
fn normalise_into(store: &Store, e: &LinExpr, k: &Number, out: &mut LinExpr, depth: usize)
    requires
        store.wf(),
        depth <= 64,
    ensures
        final(out)@.1 == norm_expr(*store, e@, k@, depth as nat, acc_of(*old(out))).0,
        forall|u: usize| #[trigger] final(out).coeff_spec(u) == (norm_expr(*store, e@, k@, depth as nat, acc_of(*old(out))).1)(u),
    decreases 64 - depth,
{
    let ghost target = norm_expr(*store, e@, k@, depth as nat, acc_of(*old(out)));
    let c = e.constant_part().times(k);
    let sum = out.constant_part().plus(&c);
    out.set_constant(sum);
    proof {
        assert(acc_of(*out).1 =~= acc_of(*old(out)).1);
        assert(acc_of(*out) == (rat_add(acc_of(*old(out)).0, rat_mul(e@.1, k@)), acc_of(*old(out)).1));
    }
    let mut j: usize = 0;
    while j < e.num_terms()
        invariant
            store.wf(),
            depth <= 64,
            j <= e@.0.len(),
            norm_terms(*store, e@.0, j as int, k@, depth as nat, acc_of(*out)) == target,
        decreases e@.0.len() - j,
    {
        let ghost before = acc_of(*out);
        let (v, a) = e.term(j);
        let ak = a.times(k);
        let mut expanded = false;
        if depth < 64 {
            if let Some(def) = store.def_of(v) {
                normalise_into(store, def, &ak, out, depth + 1);
                proof {
                    let n = norm_expr(*store, def@, ak@, (depth + 1) as nat, before);
                    assert(acc_of(*out).1 =~= n.1);
                    assert(acc_of(*out) == n);
                }
                expanded = true;
            }
        }
        if !expanded {
            let r = store.root(v);
            match store.class_value(r) {
                Some(cv) => {
                    let s = out.constant_part().plus(&cv.times(&ak));
                    out.set_constant(s);
                    proof {
                        assert(acc_of(*out).1 =~= before.1);
                    }
                },
                None => {
                    out.add_term(r, &ak);
                    proof {
                        assert(acc_of(*out).1 =~= add_coeff(before.1, r.0, ak@));
                    }
                },
            }
        }
        j = j + 1;
    }
}

fn normalise(store: &Store, e: &LinExpr) -> (r: LinExpr)
    requires
        store.wf(),
    ensures
        r@.1 == norm_expr(*store, e@, (1int, 1int), 0, ((0int, 1int), |u: usize| (0int, 1int))).0,
        forall|u: usize| #[trigger] r.coeff_spec(u) == (norm_expr(*store, e@, (1int, 1int), 0, ((0int, 1int), |u: usize| (0int, 1int))).1)(u),
{
    let mut out = LinExpr::constant(Number::zero());
    proof {
        assert(acc_of(out).1 =~= (|u: usize| (0int, 1int)));
        assert(acc_of(out) == ((0int, 1int), |u: usize| (0int, 1int)));
    }
    normalise_into(store, e, &Number::one(), &mut out, 0);
    out
}

fn is_def(store: &Store, v: SVar) -> (b: bool)
    ensures
        b == (v.0 < store.defs_spec().len() && store.defs_spec()[v.0 as int] is Some),
{
    store.def_of(v).is_some()
}

/// `v` has no definition: it is not a slack or an arithmetic result, which
/// print through their definitions rather than by a name.
pub open spec fn undefined_var(store: Store, v: usize) -> bool {
    !(v < store.defs_spec().len() && store.defs_spec()[v as int] is Some)
}

/// The term paired with `v` first in `s` from `i` on.
pub open spec fn paired_from(s: Seq<(SVar, Addr)>, v: SVar, i: int) -> Option<Addr>
    decreases s.len() - i,
{
    if i < 0 || i >= s.len() {
        None
    } else if s[i].0 == v {
        Some(s[i].1)
    } else {
        paired_from(s, v, i + 1)
    }
}

/// The attribute term naming each alias-class root, if any.
fn attr_term_of(attr_render: &Vec<(SVar, Addr)>, v: SVar) -> (r: Option<Addr>)
    ensures
        r == paired_from(attr_render@, v, 0),
{
    let mut i: usize = 0;
    while i < attr_render.len()
        invariant
            i <= attr_render@.len(),
            paired_from(attr_render@, v, 0) == paired_from(attr_render@, v, i as int),
        decreases attr_render@.len() - i,
    {
        if attr_render[i].0 == v {
            return Some(attr_render[i].1);
        }
        i = i + 1;
    }
    None
}

/// Name the unnamed, undefined variables of `e`. True if any was named.
fn name_vars_of(
    p: &mut Printer,
    symbols: &Symbols,
    store: &Store,
    names: &mut SvNames,
    attr_render: &Vec<(SVar, Addr)>,
    e: &LinExpr,
) -> (changed: bool)
    requires
        store.wf(),
    ensures
        changed == exists|j: int| 0 <= j < e@.0.len() && old(names).name((#[trigger] e@.0[j]).0) is None
            && undefined_var(*store, e@.0[j].0),
        forall|j: int| 0 <= j < e@.0.len() && undefined_var(*store, (#[trigger] e@.0[j]).0)
            ==> final(names).name(e@.0[j].0) is Some,
        forall|w: usize| old(names).name(w) is Some ==> #[trigger] final(names).name(w) == old(names).name(w),
        forall|w: usize| final(names).name(w) is Some && old(names).name(w) is None
            ==> exists|j: int| 0 <= j < e@.0.len() && (#[trigger] e@.0[j]).0 == w,
{
    e.lemma_wf();
    let mut changed = false;
    let mut j: usize = 0;
    while j < e.num_terms()
        invariant
            store.wf(),
            j <= e@.0.len(),
            terms_wf(e@.0),
            changed == exists|k: int| 0 <= k < j && old(names).name((#[trigger] e@.0[k]).0) is None
                && undefined_var(*store, e@.0[k].0),
            forall|k: int| 0 <= k < j && undefined_var(*store, (#[trigger] e@.0[k]).0)
                ==> names.name(e@.0[k].0) is Some,
            forall|w: usize| old(names).name(w) is Some ==> #[trigger] names.name(w) == old(names).name(w),
            forall|w: usize| names.name(w) is Some && old(names).name(w) is None
                ==> exists|k: int| 0 <= k < j && (#[trigger] e@.0[k]).0 == w,
        decreases e@.0.len() - j,
    {
        let (v, _) = e.term(j);
        proof {
            assert forall|k: int| 0 <= k < j implies (#[trigger] e@.0[k]).0 != v.0 by {
                assert(e@.0[k].0 < e@.0[j as int].0);
            }
        }
        if !names.has(v) && !is_def(store, v) {
            let n = match attr_term_of(attr_render, v) {
                Some(term) => p.render(symbols, store, term),
                None => p.fresh_name(),
            };
            names.insert(v, n);
            changed = true;
        }
        j = j + 1;
    }
    changed
}

/// Some variable of `e` has a name.
fn mentions_named(names: &SvNames, e: &LinExpr) -> (b: bool)
    ensures
        b == exists|j: int| 0 <= j < e@.0.len() && names.name((#[trigger] e@.0[j]).0) is Some,
{
    let mut j: usize = 0;
    while j < e.num_terms()
        invariant
            j <= e@.0.len(),
            forall|k: int| 0 <= k < j ==> names.name((#[trigger] e@.0[k]).0) is None,
        decreases e@.0.len() - j,
    {
        let (v, _) = e.term(j);
        if names.has(v) {
            return true;
        }
        j = j + 1;
    }
    false
}

/// A coefficient's magnitude as written before its variable: nothing for
/// one, else `m*`.
pub open spec fn coeff_text(a: (int, int)) -> Seq<char> {
    let m = (abs_int(a.0) as int, a.1);
    if m == (1int, 1int) {
        Seq::empty()
    } else {
        rat_text(m) + seq!['*']
    }
}

/// The sign written before a term: `-` or nothing first, ` - ` or ` + `
/// after another term.
pub open spec fn sign_text(first: bool, a: (int, int)) -> Seq<char> {
    if first {
        if a.0 < 0 {
            seq!['-']
        } else {
            Seq::empty()
        }
    } else if a.0 < 0 {
        seq![' ', '-', ' ']
    } else {
        seq![' ', '+', ' ']
    }
}

/// A positive constant leads when the first term is negative.
pub open spec fn lead_const(e: (Seq<(usize, (int, int))>, (int, int))) -> bool {
    e.1.0 > 0 && e.0.len() > 0 && e.0[0].1.0 < 0
}

/// The constant after the terms: alone when there are none, nothing when it
/// led or is zero.
pub open spec fn const_tail(e: (Seq<(usize, (int, int))>, (int, int))) -> Seq<char> {
    if e.0.len() == 0 {
        rat_text(e.1)
    } else if lead_const(e) {
        Seq::empty()
    } else if e.1.0 > 0 {
        seq![' ', '+', ' '] + rat_text(e.1)
    } else if e.1.0 < 0 {
        seq![' ', '-', ' '] + rat_text((abs_int(e.1.0) as int, e.1.1))
    } else {
        Seq::empty()
    }
}

/// Every variable of `e` has a name.
spec fn all_named(names: SvNames, e: (Seq<(usize, (int, int))>, (int, int))) -> bool {
    forall|j: int| 0 <= j < e.0.len() ==> names.name((#[trigger] e.0[j]).0) is Some
}

/// The first `n` terms of `e`, signed and named.
spec fn terms_text(names: SvNames, e: (Seq<(usize, (int, int))>, (int, int)), n: int) -> Seq<char>
    decreases n,
{
    if n <= 0 {
        Seq::empty()
    } else {
        terms_text(names, e, n - 1) + sign_text(!lead_const(e) && n - 1 == 0, e.0[n - 1].1)
            + coeff_text(e.0[n - 1].1) + names.name(e.0[n - 1].0)->0
    }
}

/// How `e` prints.
spec fn expr_text_m(names: SvNames, e: (Seq<(usize, (int, int))>, (int, int))) -> Seq<char> {
    (if lead_const(e) { rat_text(e.1) } else { Seq::empty() }) + terms_text(names, e, e.0.len() as int)
        + const_tail(e)
}

/// The constant of a printed expression reads back as the constant of the
/// expression: one that follows the terms prints as ` - |c|` when negative
/// and ` + c` when positive, and one that leads prints first, as itself.
proof fn lemma_expr_text_constant(names: SvNames, e: (Seq<(usize, (int, int))>, (int, int)))
    requires
        e.0.len() > 0,
    ensures
        !lead_const(e) && e.1.0 < 0 ==> exists|p: Seq<char>|
            expr_text_m(names, e) == p + seq![' ', '-', ' '] + #[trigger] rat_text((-e.1.0, e.1.1)),
        !lead_const(e) && e.1.0 > 0 ==> exists|p: Seq<char>|
            expr_text_m(names, e) == p + seq![' ', '+', ' '] + #[trigger] rat_text(e.1),
        lead_const(e) ==> e.1.0 > 0 && exists|s: Seq<char>| expr_text_m(names, e) == #[trigger] rat_text(e.1) + s,
        e.1.0 == 0 ==> expr_text_m(names, e) == terms_text(names, e, e.0.len() as int),
{
    let t = terms_text(names, e, e.0.len() as int);
    if lead_const(e) {
        assert(expr_text_m(names, e) == rat_text(e.1) + (t + Seq::<char>::empty()));
    } else if e.1.0 < 0 {
        assert(abs_int(e.1.0) as int == -e.1.0);
        assert(expr_text_m(names, e) == (Seq::<char>::empty() + t) + seq![' ', '-', ' '] + rat_text((-e.1.0, e.1.1)));
    } else if e.1.0 > 0 {
        assert(expr_text_m(names, e) == (Seq::<char>::empty() + t) + seq![' ', '+', ' '] + rat_text(e.1));
    } else {
        assert(expr_text_m(names, e) =~= t);
    }
}

/// Each term of a printed expression reads back as itself: its sign (`-`
/// before a negative first term that does not follow a leading constant,
/// ` - ` or ` + ` between terms), then its magnitude followed by `*` unless
/// it is one, then the variable's name.
proof fn lemma_expr_text_terms(names: SvNames, e: (Seq<(usize, (int, int))>, (int, int)), j: int)
    requires
        0 <= j < e.0.len(),
    ensures
        terms_text(names, e, j + 1) == terms_text(names, e, j)
            + (if e.0[j].1.0 < 0 {
                if j == 0 && !lead_const(e) { seq!['-'] } else { seq![' ', '-', ' '] }
            } else {
                if j == 0 && !lead_const(e) { Seq::empty() } else { seq![' ', '+', ' '] }
            })
            + (if abs_int(e.0[j].1.0) == 1 && e.0[j].1.1 == 1 {
                Seq::empty()
            } else {
                rat_text((abs_int(e.0[j].1.0) as int, e.0[j].1.1)) + seq!['*']
            })
            + names.name(e.0[j].0)->0,
{
}

/// `terms` with a positive constant leading when the first term is
/// negative (`10 - X`); `None` if a variable has no name.
#[verifier::rlimit(40)]
fn render_expr(names: &SvNames, e: &LinExpr) -> (r: Option<Vec<char>>)
    ensures
        r is Some == all_named(*names, e@),
        r matches Some(t) ==> t@ == expr_text_m(*names, e@),
{
    proof {
        reveal_strlit(" - ");
        reveal_strlit(" + ");
    }
    let ghost ev = e@;
    let mut out: Vec<char> = Vec::new();
    let mut first = true;
    let leads = e.constant_part().is_positive() && e.num_terms() > 0 && e.term(0).1.is_negative();
    if leads {
        let t = number_chars(e.constant_part());
        push_all(&mut out, &t);
        first = false;
    }
    let ghost head = out@;
    let one = Number::one();
    let mut j: usize = 0;
    while j < e.num_terms()
        invariant
            j <= e@.0.len(),
            ev == e@,
            leads == lead_const(ev),
            head == (if lead_const(ev) { rat_text(ev.1) } else { Seq::empty() }),
            out@ == head + terms_text(*names, ev, j as int),
            first == (!lead_const(ev) && j == 0),
            one@ == (1int, 1int),
            forall|k: int| 0 <= k < j ==> names.name((#[trigger] ev.0[k]).0) is Some,
        decreases e@.0.len() - j,
    {
        let (v, a) = e.term(j);
        let name = names.get(v)?;
        let ghost before = out@;
        proof {
            reveal_strlit(" - ");
            reveal_strlit(" + ");
        }
        if first {
            if a.is_negative() {
                out.push('-');
            }
        } else if a.is_negative() {
            push_str(&mut out, " - ");
        } else {
            push_str(&mut out, " + ");
        }
        proof {
            assert(out@ =~= before + sign_text(first, ev.0[j as int].1));
        }
        let ghost signed = out@;
        first = false;
        let m = a.abs();
        if !m.equals(&one) {
            let t = number_chars(&m);
            push_all(&mut out, &t);
            out.push('*');
        }
        proof {
            assert(out@ =~= signed + coeff_text(ev.0[j as int].1));
        }
        push_all(&mut out, name);
        j = j + 1;
        proof {
            assert(out@ =~= head + terms_text(*names, ev, j as int));
        }
    }
    let ghost body = out@;
    if first {
        let t = number_chars(e.constant_part());
        push_all(&mut out, &t);
    } else if leads {
    } else if e.constant_part().is_positive() {
        push_str(&mut out, " + ");
        let t = number_chars(e.constant_part());
        push_all(&mut out, &t);
    } else if e.constant_part().is_negative() {
        push_str(&mut out, " - ");
        let t = number_chars(&e.constant_part().abs());
        push_all(&mut out, &t);
    }
    proof {
        assert(out@ =~= body + const_tail(ev));
    }
    Some(out)
}

/// The coefficient one, up to sign.
pub open spec fn is_unit(a: (int, int)) -> bool {
    (abs_int(a.0) as int, a.1) == (1int, 1int)
}

/// The last term among the first `n` with a unit coefficient, or -1.
pub open spec fn last_unit(t: Seq<(usize, (int, int))>, n: int) -> int
    decreases n,
{
    if n <= 0 {
        -1
    } else if is_unit(t[n - 1].1) {
        n - 1
    } else {
        last_unit(t, n - 1)
    }
}

/// The term an equation is solved for: the last with a unit coefficient,
/// else the last.
pub open spec fn pivot(t: Seq<(usize, (int, int))>) -> int {
    if last_unit(t, t.len() as int) >= 0 {
        last_unit(t, t.len() as int)
    } else {
        t.len() - 1
    }
}

/// `a·v + rest = c` solved for the variable at `p`: `(c - rest) / a`.
pub open spec fn solved_for(t: Seq<(usize, (int, int))>, c: (int, int), p: int) -> (Seq<(usize, (int, int))>, (int, int)) {
    let inv = rat_recip(t[p].1);
    (
        t.remove(p).map_values(|q: (usize, (int, int))| (q.0, rat_mul(rat_mul(q.1, (-1int, 1int)), inv))),
        rat_mul(c, inv),
    )
}

/// The two variables of `X - Y`, positive first.
pub open spec fn diff_pair(t: Seq<(usize, (int, int))>) -> Option<(usize, usize)> {
    if t[0].1 == (1int, 1int) && t[1].1 == (-1int, 1int) {
        Some((t[0].0, t[1].0))
    } else if t[1].1 == (1int, 1int) && t[0].1 == (-1int, 1int) {
        Some((t[1].0, t[0].0))
    } else {
        None
    }
}

/// How the line `terms op c` prints, if all its variables are named.
spec fn line_text(names: SvNames, terms: (Seq<(usize, (int, int))>, (int, int)), op: Seq<char>, is_eq: bool, c: (int, int)) -> Option<Seq<char>> {
    let t = terms.0;
    if is_eq {
        if t.len() == 0 {
            None
        } else {
            let p = pivot(t);
            let rest = solved_for(t, c, p);
            if names.name(t[p].0) is Some && all_named(names, rest) {
                Some(names.name(t[p].0)->0 + seq![' ', '=', ' '] + expr_text_m(names, rest))
            } else {
                None
            }
        }
    } else if t.len() == 2 && c.0 == 0 && diff_pair(t) is Some {
        let (pos, neg) = diff_pair(t)->0;
        if names.name(pos) is Some && names.name(neg) is Some {
            Some(names.name(pos)->0 + seq![' '] + op + seq![' '] + names.name(neg)->0)
        } else {
            None
        }
    } else if all_named(names, terms) {
        Some(expr_text_m(names, terms) + seq![' '] + op + seq![' '] + rat_text(c))
    } else {
        None
    }
}

/// A constraint line `terms op c` in a readable shape: an equality is solved
/// for its most recently introduced unit-coefficient variable (`Y = X + 1`);
/// a two-variable difference prints as `X op Y`; otherwise `expr op c`.
#[verifier::rlimit(50)]
fn render_line(names: &SvNames, terms: &LinExpr, op: &str, is_eq: bool, c: &Number) -> (r: Option<Vec<char>>)
    ensures
        r matches Some(l) ==> line_text(*names, terms@, op@, is_eq, c@) == Some(l@),
        r is None ==> line_text(*names, terms@, op@, is_eq, c@) is None,
{
    let ghost t = terms@.0;
    terms.lemma_wf();
    let one = Number::one();
    let n = terms.num_terms();
    if is_eq {
        if n == 0 {
            return None;
        }
        // The last unit-coefficient term, else the last term.
        let mut pick = n - 1;
        let mut found = false;
        let mut j = n;
        while j > 0 && !found
            invariant
                j <= n,
                n == terms@.0.len(),
                t == terms@.0,
                pick < n,
                one@ == (1int, 1int),
                !found ==> pick == n - 1 && last_unit(t, n as int) == last_unit(t, j as int),
                found ==> pick == last_unit(t, n as int),
            decreases j,
        {
            j = j - 1;
            if terms.term(j).1.abs().equals(&one) {
                pick = j;
                found = true;
            }
        }
        proof {
            assert(pick == pivot(t));
        }
        let (v, a) = terms.term(pick);
        let a = a.copy();
        let name = match names.get(v) {
            Some(nm) => nm,
            None => {
                return None;
            },
        };
        // a·v + rest = c  ⇒  v = (c − rest) / a
        let mut rest = terms.copy();
        proof {
            lemma_coeff_in(t, v.0);
            assert forall|k: int| 0 <= k < pick implies t[k].0 != v.0 by {
                assert(t[k].0 < t[pick as int].0);
            }
            lemma_var_pos(t, v.0, 0, pick as int);
        }
        let taken = rest.take(v);
        proof {
            assert(taken is Some);
            assert(rest@.0 == t.remove(pick as int));
        }
        rest.negate();
        rest.set_constant(c.copy());
        let inv = match a.recip() {
            Some(x) => x,
            None => {
                return None;
            },
        };
        rest.scale(&inv);
        proof {
            assert(rest@.0 =~= solved_for(t, c@, pick as int).0);
        }
        let rhs = match render_expr(names, &rest) {
            Some(x) => x,
            None => {
                return None;
            },
        };
        let mut out = name.clone();
        push_str(&mut out, " = ");
        push_all(&mut out, &rhs);
        proof {
            reveal_strlit(" = ");
        }
        return Some(out);
    }
    if n == 2 && c.is_zero() {
        let (v1, a1) = terms.term(0);
        let (v2, a2) = terms.term(1);
        let minus_one = one.negate();
        let pos_neg = if a1.equals(&one) && a2.equals(&minus_one) {
            Some((v1, v2))
        } else if a2.equals(&one) && a1.equals(&minus_one) {
            Some((v2, v1))
        } else {
            None
        };
        match pos_neg {
            Some((pos, neg)) => {
                let mut out = match names.get(pos) {
                    Some(x) => x.clone(),
                    None => {
                        return None;
                    },
                };
                out.push(' ');
                push_str(&mut out, op);
                out.push(' ');
                match names.get(neg) {
                    Some(x) => push_all(&mut out, x),
                    None => {
                        return None;
                    },
                }
                return Some(out);
            },
            None => {},
        }
    }
    let mut out = match render_expr(names, terms) {
        Some(x) => x,
        None => {
            return None;
        },
    };
    out.push(' ');
    push_str(&mut out, op);
    out.push(' ');
    let t = number_chars(c);
    push_all(&mut out, &t);
    Some(out)
}

pub open spec fn opt_chars(o: Option<Vec<char>>) -> Option<Seq<char>> {
    match o {
        Some(x) => Some(x@),
        None => None,
    }
}

/// The line, if there is one.
pub open spec fn opt_line(l: Option<Seq<char>>) -> Seq<Seq<char>> {
    match l {
        Some(x) => seq![x],
        None => Seq::empty(),
    }
}

fn push_line(out: &mut Vec<String>, line: Option<Vec<char>>)
    ensures
        strings_view(final(out)@) == strings_view(old(out)@) + opt_line(opt_chars(line)),
{
    let ghost before = out@;
    if let Some(l) = line {
        out.push(string_from_chars(&l));
        proof {
            assert(strings_view(out@) =~= strings_view(before) + seq![l@]);
        }
    } else {
        proof {
            assert(strings_view(out@) =~= strings_view(before) + Seq::<Seq<char>>::empty());
        }
    }
}

/// The lines of bounds `lower` and `upper` on `terms`: one equation when
/// they meet at an exact value, else a `>`/`>=` line and a `<`/`<=` line
/// (strict when the bound is past its value by an infinitesimal).
spec fn bound_texts(names: SvNames, terms: (Seq<(usize, (int, int))>, (int, int)), lower: Option<((int, int), (int, int))>, upper: Option<((int, int), (int, int))>) -> Seq<Seq<char>> {
    if lower matches Some(l) && upper == Some(l) && infinitesimal(l) == 0 {
        opt_line(line_text(names, terms, seq!['='], true, value_part(lower->0)))
    } else {
        (match lower {
            Some(l) => opt_line(line_text(names, terms, if infinitesimal(l) > 0 { seq!['>'] } else { seq!['>', '='] }, false, value_part(l))),
            None => Seq::empty(),
        }) + (match upper {
            Some(u) => opt_line(line_text(names, terms, if infinitesimal(u) < 0 { seq!['<'] } else { seq!['<', '='] }, false, value_part(u))),
            None => Seq::empty(),
        })
    }
}

/// The rational part of a bound.
pub open spec fn value_part(d: ((int, int), (int, int))) -> (int, int) {
    d.0
}

/// The numerator of a bound's infinitesimal part.
pub open spec fn infinitesimal(d: ((int, int), (int, int))) -> int {
    let k = d.1;
    k.0
}

pub open spec fn opt_delta(d: Option<Delta>) -> Option<((int, int), (int, int))> {
    match d {
        Some(x) => Some(x@),
        None => None,
    }
}

/// `seg` occurs in `out` as consecutive lines.
pub open spec fn has_segment(out: Seq<Seq<char>>, seg: Seq<Seq<char>>) -> bool {
    exists|j: int| 0 <= j && j + seg.len() <= out.len() && #[trigger] out.subrange(j, j + seg.len()) == seg
}

/// The class of `r` has no fixed value and the lines state its tightest
/// bounds, under some naming in which `r` has a name.
pub(crate) closed spec fn shows_bounds(store: Store, r: SVar, out: Seq<Seq<char>>) -> bool {
    class_open(store, r) ==> exists|names: SvNames| #[trigger] names.name(r.0) is Some
        && has_segment(out, class_segment(store, names, r))
}

/// The class of `r` has no fixed value.
pub(crate) closed spec fn class_open(store: Store, r: SVar) -> bool {
    let m = store.image().aliases;
    class_value_from(store.solver(), m, store.alias_len(), alias_root(m, r, store.alias_len()), 0, store.solver_vars()) is None
}

/// The bound lines of the class of `r` under `names`.
pub(crate) closed spec fn class_segment(store: Store, names: SvNames, r: SVar) -> Seq<Seq<char>> {
    let m = store.image().aliases;
    let rr = alias_root(m, r, store.alias_len());
    bound_texts(names, (seq![(r.0, (1int, 1int))], (0int, 1int)),
        tightest_lower(store.solver(), m, store.alias_len(), rr, store.solver_vars()),
        tightest_upper(store.solver(), m, store.alias_len(), rr, store.solver_vars()))
}

proof fn lemma_segment_grows(out: Seq<Seq<char>>, more: Seq<Seq<char>>, seg: Seq<Seq<char>>)
    requires
        has_segment(out, seg),
    ensures
        has_segment(out + more, seg),
{
    let j = choose|j: int| 0 <= j && j + seg.len() <= out.len() && #[trigger] out.subrange(j, j + seg.len()) == seg;
    assert((out + more).subrange(j, j + seg.len()) =~= out.subrange(j, j + seg.len()));
}

fn bound_lines(names: &SvNames, terms: &LinExpr, lower: Option<Delta>, upper: Option<Delta>, out: &mut Vec<String>)
    ensures
        strings_view(final(out)@) == strings_view(old(out)@) + bound_texts(*names, terms@, opt_delta(lower), opt_delta(upper)),
{
    proof {
        reveal_strlit("=");
        reveal_strlit(">");
        reveal_strlit(">=");
        reveal_strlit("<");
        reveal_strlit("<=");
    }
    let ghost start = strings_view(out@);
    if let (Some(l), Some(u)) = (&lower, &upper) {
        if l.equals(u) && l.is_exact() {
            push_line(out, render_line(names, terms, "=", true, &l.c));
            return;
        }
    }
    if let Some(l) = &lower {
        let op = if l.k.is_positive() { ">" } else { ">=" };
        let line = render_line(names, terms, op, false, &l.c);
        assert(opt_chars(line) == line_text(*names, terms@, op@, false, l.c@));
        assert(op@ == (if infinitesimal(l@) > 0 { seq!['>'] } else { seq!['>', '='] }));
        push_line(out, line);
    }
    let ghost lows: Seq<Seq<char>> = match opt_delta(lower) {
        Some(l) => opt_line(line_text(*names, terms@, if infinitesimal(l) > 0 { seq!['>'] } else { seq!['>', '='] }, false, value_part(l))),
        None => Seq::empty(),
    };
    let ghost highs: Seq<Seq<char>> = match opt_delta(upper) {
        Some(u) => opt_line(line_text(*names, terms@, if infinitesimal(u) < 0 { seq!['<'] } else { seq!['<', '='] }, false, value_part(u))),
        None => Seq::empty(),
    };
    assert(strings_view(out@) =~= start + lows);
    let ghost mid = strings_view(out@);
    if let Some(u) = &upper {
        let op = if u.k.is_negative() { "<" } else { "<=" };
        let line = render_line(names, terms, op, false, &u.c);
        assert(opt_chars(line) == line_text(*names, terms@, op@, false, u.c@));
        assert(op@ == (if infinitesimal(u@) < 0 { seq!['<'] } else { seq!['<', '='] }));
        push_line(out, line);
    }
    assert(strings_view(out@) =~= mid + highs);
    proof {
        assert(bound_texts(*names, terms@, opt_delta(lower), opt_delta(upper)) == lows + highs);
        assert(strings_view(out@) =~= start + bound_texts(*names, terms@, opt_delta(lower), opt_delta(upper)));
    }
}

fn opt_copy(d: Option<&Delta>) -> (r: Option<Delta>)
    ensures
        r is Some == d is Some,
        r matches Some(x) ==> x@ == d.unwrap()@,
{
    match d {
        Some(x) => Some(x.copy()),
        None => None,
    }
}

fn shift(d: Option<Delta>, k: &Number) -> (r: Option<Delta>)
    ensures
        r is Some == d is Some,
        r matches Some(x) ==> x@ == (rat_sub(d.unwrap()@.0, k@), d.unwrap()@.1),
{
    match d {
        Some(x) => Some(Delta::new(x.c.minus(k), x.k)),
        None => None,
    }
}

/// Numeric constraints over solver variables the query can see: determined
/// values (`age(bob) = 3`), bounds (`X > 3`), linear equations (`Y = X + 1`),
/// constraint rows (`X + Y <= 10`), numeric disequations. Alias classes print
/// as one variable; fully determined lines are omitted (their values already
/// show); constraints of the world (the initial store) show only when they
/// touch something the query mentions.
fn render_numeric(
    p: &mut Printer,
    symbols: &Symbols,
    store: &Store,
    reachable: &Vec<bool>,
    Ghost(roots): Ghost<Seq<Addr>>,
) -> (out: Vec<String>)
    requires
        store.wf(),
        reachable@.len() == store.heap_len(),
        forall|v: int| 0 <= v < store.heap_len() ==>
            #[trigger] reachable@[v] == (reaches(*store, roots, v) && store.cell_at(v) is Var),
    ensures
        !numeric_visible(*store, roots) ==> out@.len() == 0,
        forall|a: int| #![trigger reaches(*store, roots, a)]
            0 <= a < store.heap_len() && store.cell_at(a) is Var && reaches(*store, roots, a) && store.slots()[a].numvar is Some
            ==> shows_bounds(*store, alias_root(store.image().aliases, store.slots()[a].numvar->0, store.alias_len()),
                strings_view(out@)),
        numeric_visible(*store, roots) ==> {
            let k = shown_numdif_count(*store, roots, store.image().numdifs.len() as int);
            &&& out@.len() >= k
            &&& forall|j: int| out@.len() - k <= j < out@.len() ==> is_dif_line(#[trigger] out@[j]@)
        },
{
    let nv = store.num_solver_vars();
    let mut names = SvNames { entries: Vec::new() };

    // Names for alias classes (by root), in (root, address) order.
    let mut heap_named: Vec<(SVar, Addr)> = Vec::new();
    let mut a: usize = 0;
    while a < reachable.len()
        invariant
            a <= reachable@.len(),
            store.wf(),
            reachable@.len() == store.heap_len(),
            forall|v: int| 0 <= v < store.heap_len() ==>
                #[trigger] reachable@[v] == (reaches(*store, roots, v) && store.cell_at(v) is Var),
            heap_named@.len() > 0 ==> numeric_visible(*store, roots),
            (exists|b: int| 0 <= b < a && reachable@[b] && store.slots()[b].numvar is Some) ==> heap_named@.len() > 0,
            forall|b: int| #![trigger reachable@[b]] 0 <= b < a && reachable@[b] && store.slots()[b].numvar is Some
                ==> heap_named@.contains((alias_root(store.image().aliases, store.slots()[b].numvar->0, store.alias_len()), b as usize)),
        decreases reachable@.len() - a,
    {
        let ghost hn = heap_named@;
        if reachable[a] {
            if let Some(sv) = store.numvar_of(a) {
                heap_named.push((store.root(sv), a));
                proof {
                    assert(reaches(*store, roots, a as int));
                    assert(heap_named@[hn.len() as int] == (alias_root(store.image().aliases, sv, store.alias_len()), a));
                }
            }
        }
        proof {
            assert forall|b: int| #![trigger reachable@[b]] 0 <= b < a + 1 && reachable@[b] && store.slots()[b].numvar is Some
                implies heap_named@.contains((alias_root(store.image().aliases, store.slots()[b].numvar->0, store.alias_len()), b as usize)) by {
                let x = (alias_root(store.image().aliases, store.slots()[b].numvar->0, store.alias_len()), b as usize);
                if b < a {
                    let k = choose|k: int| 0 <= k < hn.len() && hn[k] == x;
                    assert(heap_named@[k] == x);
                } else {
                    assert(heap_named@[hn.len() as int] == x);
                }
            }
        }
        a = a + 1;
    }
    let ghost unsorted = heap_named@;
    sort_pairs(&mut heap_named);
    proof {
        assert forall|x: (SVar, Addr)| #[trigger] unsorted.contains(x) implies heap_named@.contains(x) by {
            vstd::seq_lib::to_multiset_contains(unsorted, x);
            vstd::seq_lib::to_multiset_contains(heap_named@, x);
        }
    }
    let mut i: usize = 0;
    while i < heap_named.len()
        invariant
            i <= heap_named@.len(),
            store.wf(),
            i > 0 ==> exists|w: usize| names.name(w) is Some,
            heap_named@.len() == 0 ==> names.entries@.len() == 0,
            forall|k: int| 0 <= k < i ==> (#[trigger] names.name(heap_named@[k].0.0)) is Some,
        decreases heap_named@.len() - i,
    {
        let (r, v) = heap_named[i];
        let n = p.name_for(v);
        let ghost before = names;
        if !names.has(r) {
            names.insert(r, n);
        }
        assert(names.name(r.0) is Some);
        proof {
            assert forall|k: int| 0 <= k < i + 1 implies (#[trigger] names.name(heap_named@[k].0.0)) is Some by {
                if k < i && heap_named@[k].0.0 != r.0 {
                    assert(before.name(heap_named@[k].0.0) is Some);
                }
            }
        }
        i = i + 1;
    }
    proof {
        assert forall|b: int| #![trigger reachable@[b]] 0 <= b < store.heap_len() && reachable@[b] && store.slots()[b].numvar is Some
            implies names.name(alias_root(store.image().aliases, store.slots()[b].numvar->0, store.alias_len()).0) is Some by {
            let x = (alias_root(store.image().aliases, store.slots()[b].numvar->0, store.alias_len()), b as usize);
            assert(unsorted.contains(x));
            let k = choose|k: int| 0 <= k < heap_named@.len() && heap_named@[k] == x;
            assert(names.name(heap_named@[k].0.0) is Some);
        }
    }
    let ghost n1 = names;
    // Attribute terms created by the query whose variables are all visible.
    let mut attr_named: Vec<(SVar, Addr)> = Vec::new();
    let na = store.attr_count();
    let mut i: usize = store.baseline_attrs();
    while i < na
        invariant
            store.wf(),
            na == store.image().attrs.len(),
            store.baselines().0 <= i,
            reachable@.len() == store.heap_len(),
            forall|v: int| 0 <= v < store.heap_len() ==>
                #[trigger] reachable@[v] == (reaches(*store, roots, v) && store.cell_at(v) is Var),
            attr_named@.len() > 0 ==> numeric_visible(*store, roots),
            (exists|b: int| store.baselines().0 <= b < i && b < na
                && all_visible(*store, roots, seq![(#[trigger] store.image().attrs[b]).term, store.image().attrs[b].term]))
                ==> attr_named@.len() > 0,
        decreases na - i,
    {
        if let Some((term, sv)) = store.attr(i) {
            let pv = pair(term, term);
            let vs = reachable_vars(store, &pv);
            let all_in = all_flags_in(&vs, reachable);
            proof {
                let sd = seq![term, term];
                assert(pv@ == sd);
                if all_in {
                    assert forall|v: int| 0 <= v < store.heap_len() && store.cell_at(v) is Var
                        && #[trigger] reaches(*store, sd, v) implies reaches(*store, roots, v) by {
                        assert(vs@[v]);
                    }
                    assert(all_visible(*store, roots, seq![store.image().attrs[i as int].term, store.image().attrs[i as int].term]));
                } else {
                    let k = choose|k: int| 0 <= k < vs@.len() && #[trigger] vs@[k] && !(k < reachable@.len() && reachable@[k]);
                    assert(!all_visible(*store, roots, seq![store.image().attrs[i as int].term, store.image().attrs[i as int].term])) by {
                        assert(reaches(*store, sd, k));
                    }
                }
            }
            if all_in {
                attr_named.push((store.root(sv), term));
            }
        }
        i = i + 1;
    }
    sort_pairs(&mut attr_named);
    let mut i: usize = 0;
    while i < attr_named.len()
        invariant
            i <= attr_named@.len(),
            store.wf(),
            (heap_named@.len() > 0 || i > 0) ==> exists|w: usize| names.name(w) is Some,
            heap_named@.len() == 0 && attr_named@.len() == 0 ==> names.entries@.len() == 0,
            forall|w: usize| n1.name(w) is Some ==> (#[trigger] names.name(w)) is Some,
        decreases attr_named@.len() - i,
    {
        let (r, term) = attr_named[i];
        let dup = i > 0 && attr_named[i - 1].0 == r;
        if !dup && !names.has(r) {
            let rendered = p.render(symbols, store, term);
            names.insert(r, rendered);
        }
        proof {
            if i == 0 {
                assert(names.name(r.0) is Some);
            }
        }
        i = i + 1;
    }
    proof {
        if numeric_visible(*store, roots) {
            if exists|a: int| 0 <= a < store.heap_len() && store.cell_at(a) is Var
                && #[trigger] reaches(*store, roots, a) && store.slots()[a].numvar is Some {
                let a = choose|a: int| 0 <= a < store.heap_len() && store.cell_at(a) is Var
                    && #[trigger] reaches(*store, roots, a) && store.slots()[a].numvar is Some;
                assert(reachable@[a]);
            }
        }
    }
    if names.is_empty() {
        return Vec::new();
    }
    // Any attribute term (world or query) can name its class if the closure
    // pulls it in — better than an internal `_N`.
    let mut attr_render: Vec<(SVar, Addr)> = Vec::new();
    let mut i: usize = 0;
    while i < na
        invariant
            store.wf(),
        decreases na - i,
    {
        if let Some((term, sv)) = store.attr(i) {
            let r = store.root(sv);
            if attr_term_of(&attr_render, r).is_none() {
                attr_render.push((r, term));
            }
        }
        i = i + 1;
    }

    // Close over rows and bounded definitions touching named classes; name
    // internal classes `_N` as needed.
    let mut changed = true;
    let mut fuel: u64 = u64::MAX;
    while changed && fuel > 0
        invariant
            store.wf(),
            forall|w: usize| n1.name(w) is Some ==> (#[trigger] names.name(w)) is Some,
        decreases fuel,
    {
        fuel = fuel - 1;
        changed = false;
        let mut known: Vec<SVar> = Vec::new();
        let mut v: usize = 0;
        while v < names.entries.len()
            invariant
                v <= names.entries@.len(),
            decreases names.entries@.len() - v,
        {
            if names.entries[v].is_some() {
                known.push(SVar(v));
            }
            v = v + 1;
        }
        let mut i: usize = 0;
        while i < known.len()
            invariant
                i <= known@.len(),
                store.wf(),
                forall|w: usize| n1.name(w) is Some ==> (#[trigger] names.name(w)) is Some,
            decreases known@.len() - i,
        {
            let r = known[i];
            if store.class_value(r).is_none() {
                if let Some(row) = store.class_row(r) {
                    let e = normalise(store, row);
                    if name_vars_of(p, symbols, store, &mut names, &attr_render, &e) {
                        changed = true;
                    }
                }
            }
            i = i + 1;
        }
        let nd = store.def_count();
        let mut s: usize = 0;
        while s < nd
            invariant
                store.wf(),
                forall|w: usize| n1.name(w) is Some ==> (#[trigger] names.name(w)) is Some,
            decreases nd - s,
        {
            if let Some(def) = store.def_of(SVar(s)) {
                if s < nv {
                    let bounded = store.lower_bound(SVar(s)).is_some() || store.upper_bound(SVar(s)).is_some();
                    if bounded {
                        let e = normalise(store, def);
                        if !e.is_constant() && mentions_named(&names, &e) {
                            if name_vars_of(p, symbols, store, &mut names, &attr_render, &e) {
                                changed = true;
                            }
                        }
                    }
                }
            }
            s = s + 1;
        }
    }

    let mut out: Vec<String> = Vec::new();
    // Fixed heap variables print inline (query variables in the equations
    // pass, inner ones as their value); fixed attribute terms print here.
    let mut r: usize = 0;
    while r < names.entries.len()
        invariant
            store.wf(),
            forall|w: usize| #![trigger names.name(w)] w < r && names.name(w) is Some && class_open(*store, SVar(w))
                ==> has_segment(strings_view(out@), class_segment(*store, names, SVar(w))),
        decreases names.entries@.len() - r,
    {
        let ghost before = strings_view(out@);
        proof {
            assert(names.name(r) is Some == names.entries@[r as int] is Some);
        }
        if let Some(name) = &names.entries[r] {
            let rv = SVar(r);
            match store.class_value(rv) {
                Some(c) => {
                    if is_attr_class(store, rv) {
                        out.push(equation(name, &number_chars(&c)));
                    }
                },
                None => {
                    let (lower, upper) = store.class_bounds(rv);
                    let ghost pre = strings_view(out@);
                    bound_lines(&names, &LinExpr::var(rv), lower, upper, &mut out);
                    let ghost mid = strings_view(out@);
                    proof {
                        let seg = class_segment(*store, names, rv);
                        assert(opt_delta(lower) == crate::solver::simplex::opt_view(lower));
                        assert(opt_delta(upper) == crate::solver::simplex::opt_view(upper));
                        assert(mid.subrange(pre.len() as int, (pre.len() + seg.len()) as int) =~= seg);
                        assert(has_segment(mid, seg));
                    }
                    if let Some(row) = store.class_row(rv) {
                        let e = normalise(store, row);
                        let trivial = e.as_var() == Some(rv) || e.coeff(rv).is_some();
                        if !trivial {
                            if let Some(rhs) = render_expr(&names, &e) {
                                out.push(equation(name, &rhs));
                            }
                        }
                    }
                    proof {
                        let now = strings_view(out@);
                        assert(now =~= mid + now.subrange(mid.len() as int, now.len() as int));
                        lemma_segment_grows(mid, now.subrange(mid.len() as int, now.len() as int), class_segment(*store, names, rv));
                        assert(pre.len() <= mid.len());
                    }
                },
            }
        }
        proof {
            let now = strings_view(out@);
            assert(now =~= before + now.subrange(before.len() as int, now.len() as int));
            assert forall|w: usize| #![trigger names.name(w)] w < r + 1 && names.name(w) is Some && class_open(*store, SVar(w))
                implies has_segment(now, class_segment(*store, names, SVar(w))) by {
                if w < r {
                    lemma_segment_grows(before, now.subrange(before.len() as int, now.len() as int),
                        class_segment(*store, names, SVar(w)));
                }
            }
        }
        r = r + 1;
    }
    let ghost shown = strings_view(out@);
    let nd = store.def_count();
    let mut s: usize = 0;
    while s < nd
        invariant
            store.wf(),
            strings_view(out@).len() >= shown.len(),
            forall|k: int| 0 <= k < shown.len() ==> #[trigger] strings_view(out@)[k] == shown[k],
        decreases nd - s,
    {
        if let Some(def) = store.def_of(SVar(s)) {
            if s < nv {
                let lower = opt_copy(store.lower_bound(SVar(s)));
                let upper = opt_copy(store.upper_bound(SVar(s)));
                if lower.is_some() || upper.is_some() {
                    let e = normalise(store, def);
                    if !e.is_constant() && mentions_named(&names, &e) {
                        // s = e = terms + k  ⇒  terms op c - k
                        let k = e.constant_part().copy();
                        let mut terms = e.copy();
                        terms.set_constant(Number::zero());
                        bound_lines(&names, &terms, shift(lower, &k), shift(upper, &k), &mut out);
                    }
                }
            }
        }
        s = s + 1;
    }
    let nn = store.numdif_count();
    let ghost pre = out@.len();
    let mut i: usize = store.baseline_numdifs();
    while i < nn
        invariant
            store.wf(),
            nn == store.image().numdifs.len(),
            store.baselines().1 <= i,
            i <= nn || i == store.baselines().1,
            reachable@.len() == store.heap_len(),
            forall|v: int| 0 <= v < store.heap_len() ==>
                #[trigger] reachable@[v] == (reaches(*store, roots, v) && store.cell_at(v) is Var),
            out@.len() == pre + shown_numdif_count(*store, roots, i as int),
            forall|j: int| pre <= j < out@.len() ==> is_dif_line(#[trigger] out@[j]@),
            strings_view(out@).len() >= shown.len(),
            forall|k: int| 0 <= k < shown.len() ==> #[trigger] strings_view(out@)[k] == shown[k],
        decreases nn - i,
    {
        let ghost before = out@;
        if let Some((pending, da, db)) = store.numdif(i) {
          if pending {
            let pv = pair(da, db);
            let vs = reachable_vars(store, &pv);
            let all_in = all_flags_in(&vs, reachable);
            proof {
                let sd = seq![da, db];
                assert(pv@ == sd);
                if all_in {
                    assert forall|v: int| 0 <= v < store.heap_len() && store.cell_at(v) is Var
                        && #[trigger] reaches(*store, sd, v) implies reaches(*store, roots, v) by {
                        assert(vs@[v]);
                    }
                } else {
                    let k = choose|k: int| 0 <= k < vs@.len() && #[trigger] vs@[k] && !(k < reachable@.len() && reachable@[k]);
                    assert(reaches(*store, sd, k));
                    assert(!all_visible(*store, roots, sd));
                }
            }
            if all_in {
                let l = p.render(symbols, store, da);
                let r = p.render(symbols, store, db);
                let mut line = l;
                push_str(&mut line, " != ");
                push_all(&mut line, &r);
                proof {
                    reveal_strlit(" != ");
                    assert(line@ == l@ + seq![' ', '!', '=', ' '] + r@);
                }
                out.push(string_from_chars(&line));
                proof {
                    assert(is_dif_line(out@[out@.len() - 1]@));
                }
            }
          }
        }
        proof {
            assert forall|j: int| pre <= j < out@.len() implies is_dif_line(#[trigger] out@[j]@) by {
                if j < before.len() {
                    assert(out@[j] == before[j]);
                }
            }
            assert forall|k: int| 0 <= k < shown.len() implies #[trigger] strings_view(out@)[k] == shown[k] by {
                assert(strings_view(before)[k] == shown[k]);
                assert(out@[k] == before[k]);
            }
        }
        i = i + 1;
    }
    proof {
        if store.baselines().1 > nn {
            assert(shown_numdif_count(*store, roots, nn as int) == 0);
            assert(shown_numdif_count(*store, roots, i as int) == 0);
        }
        assert(shown_numdif_count(*store, roots, i as int) == shown_numdif_count(*store, roots, nn as int));
        let now = strings_view(out@);
        let rest = now.subrange(shown.len() as int, now.len() as int);
        assert(now =~= shown + rest);
        assert forall|a: int| #![trigger reaches(*store, roots, a)]
            0 <= a < store.heap_len() && store.cell_at(a) is Var && reaches(*store, roots, a) && store.slots()[a].numvar is Some
            implies shows_bounds(*store, alias_root(store.image().aliases, store.slots()[a].numvar->0, store.alias_len()), now) by {
            let rt = alias_root(store.image().aliases, store.slots()[a].numvar->0, store.alias_len());
            assert(reachable@[a]);
            assert(n1.name(rt.0) is Some);
            assert(names.name(rt.0) is Some);
            assert(SVar(rt.0) == rt);
            if class_open(*store, rt) {
                assert(has_segment(shown, class_segment(*store, names, rt)));
                lemma_segment_grows(shown, rest, class_segment(*store, names, rt));
            }
        }
    }
    out
}

fn is_attr_class(store: &Store, r: SVar) -> (b: bool)
    requires
        store.wf(),
    ensures
        b == exists|i: int| 0 <= i < store.image().attrs.len()
            && alias_root(store.image().aliases, (#[trigger] store.image().attrs[i]).svar, store.alias_len()) == r,
{
    let na = store.attr_count();
    let mut i: usize = 0;
    while i < na
        invariant
            i <= na,
            na == store.image().attrs.len(),
            forall|k: int| 0 <= k < i ==> alias_root(store.image().aliases, (#[trigger] store.image().attrs[k]).svar, store.alias_len()) != r,
        decreases na - i,
    {
        if let Some((_, sv)) = store.attr(i) {
            if store.root(sv) == r {
                return true;
            }
        }
        i = i + 1;
    }
    false
}

/// Pairs ordered by variable number, then address.
pub open spec fn pair_le(a: (SVar, Addr), b: (SVar, Addr)) -> bool {
    a.0.0 < b.0.0 || (a.0.0 == b.0.0 && a.1 <= b.1)
}

proof fn lemma_swap_multiset(s: Seq<(SVar, Addr)>, j: int)
    requires
        0 < j < s.len(),
    ensures
        s.update(j - 1, s[j]).update(j, s[j - 1]).to_multiset() == s.to_multiset(),
{
    broadcast use vstd::seq_lib::to_multiset_update;
    broadcast use vstd::multiset::group_multiset_axioms;
    let s1 = s.update(j - 1, s[j]);
    assert(s1[j] == s[j]);
    let m0 = s.to_multiset();
    let m1 = m0.insert(s[j]).remove(s[j - 1]);
    assert(s1.to_multiset() == m1);
    let m2 = m1.insert(s[j - 1]).remove(s[j]);
    assert(s1.update(j, s[j - 1]).to_multiset() == m2);
    assert(s.contains(s[j - 1]));
    assert(m0.count(s[j - 1]) > 0) by {
        broadcast use vstd::seq_lib::to_multiset_contains;
    }
    assert(m2 =~= m0);
}

/// Sort pairs by variable number, then address (insertion sort).
fn sort_pairs(v: &mut Vec<(SVar, Addr)>)
    ensures
        final(v)@.len() == old(v)@.len(),
        final(v)@.to_multiset() == old(v)@.to_multiset(),
        forall|x: int, y: int| 0 <= x < y < final(v)@.len() ==> pair_le(#[trigger] final(v)@[x], #[trigger] final(v)@[y]),
{
    let n = v.len();
    let mut i: usize = 1;
    if n == 0 {
        return;
    }
    while i < n
        invariant
            1 <= i <= n,
            v@.len() == n,
            v@.to_multiset() == old(v)@.to_multiset(),
            forall|x: int, y: int| 0 <= x < y < i ==> pair_le(#[trigger] v@[x], #[trigger] v@[y]),
        decreases n - i,
    {
        let mut j = i;
        let mut stop = false;
        while j > 0 && !stop
            invariant
                v@.len() == n,
                j <= i < n,
                stop ==> forall|x: int, y: int| 0 <= x < y <= i ==> pair_le(#[trigger] v@[x], #[trigger] v@[y]),
                v@.to_multiset() == old(v)@.to_multiset(),
                forall|x: int, y: int| 0 <= x < y <= i && x != j && y != j ==> pair_le(#[trigger] v@[x], #[trigger] v@[y]),
                forall|y: int| j < y <= i ==> pair_le(v@[j as int], #[trigger] v@[y]),
            decreases j + (if stop { 0int } else { 1int }),
        {
            let a = v[j - 1];
            let b = v[j];
            let greater = a.0.0 > b.0.0 || (a.0.0 == b.0.0 && a.1 > b.1);
            if !greater {
                proof {
                    assert forall|x: int, y: int| 0 <= x < y <= i implies pair_le(#[trigger] v@[x], #[trigger] v@[y]) by {
                        if y == j && x < j - 1 {
                            assert(pair_le(v@[x], v@[j - 1]));
                        }
                    }
                }
                stop = true;
            } else {
            proof {
                lemma_swap_multiset(v@, j as int);
            }
            let ghost w = v@;
            v.set(j - 1, b);
            v.set(j, a);
            proof {
                assert forall|x: int, y: int| 0 <= x < y <= i && x != j - 1 && y != j - 1 implies pair_le(#[trigger] v@[x], #[trigger] v@[y]) by {
                    if y == j {
                        assert(pair_le(w[x], w[j - 1]));
                    } else if x == j {
                        assert(pair_le(w[j - 1], w[y]));
                    } else {
                        assert(pair_le(w[x], w[y]));
                    }
                }
                assert forall|y: int| j - 1 < y <= i implies pair_le(v@[j - 1], #[trigger] v@[y]) by {
                    if y > j {
                        assert(pair_le(w[j as int], w[y]));
                    }
                }
            }
            j = j - 1;
            }
        }
        proof {
            if !stop {
                assert(j == 0);
                assert forall|x: int, y: int| 0 <= x < y <= i implies pair_le(#[trigger] v@[x], #[trigger] v@[y]) by {
                    if x != 0 {
                        assert(pair_le(v@[x], v@[y]));
                    }
                }
            }
        }
        i = i + 1;
    }
}

/// Render terms with the query's variable names (for runtime error
/// messages).
pub(crate) fn render_terms(symbols: &Symbols, store: &Store, query_vars: &Vec<(String, Addr)>, addrs: &Vec<Addr>) -> (out: Vec<Vec<char>>)
    requires
        store.wf(),
    ensures
        out@.len() == addrs@.len(),
{
    let mut p = Printer::new(store.len());
    let mut i: usize = 0;
    while i < query_vars.len()
        invariant
            i <= query_vars@.len(),
        decreases query_vars@.len() - i,
    {
        let d = store.deref(query_vars[i].1);
        if d < store.len() && matches!(store.cell(d), Cell::Var(_)) && !p.has_name(d) {
            p.names.push((d, to_chars(query_vars[i].0.as_str())));
        }
        i = i + 1;
    }
    let mut i: usize = 0;
    while i < addrs.len()
        invariant
            i <= addrs@.len(),
        decreases addrs@.len() - i,
    {
        p.find_cycles(store, addrs[i]);
        i = i + 1;
    }
    let mut out: Vec<Vec<char>> = Vec::new();
    let mut i: usize = 0;
    while i < addrs.len()
        invariant
            i <= addrs@.len(),
            store.wf(),
            out@.len() == i,
        decreases addrs@.len() - i,
    {
        out.push(p.render(symbols, store, addrs[i]));
        i = i + 1;
    }
    out
}

} // verus!
