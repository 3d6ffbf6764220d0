//! The constraint store: a term heap, variable bindings, the trail,
//! suspension of wakers on variables, unification over rational trees,
//! `dif` — and the numeric part: solver variables for numeric heap variables
//! and attribute terms, linear constraints in the simplex, numeric
//! disequations, delayed products.
//!
//! Every mutation is recorded on the trail (or in the simplex's own bound
//! trail, marked together) so that [`Store::undo_to`] returns to an earlier
//! [`Mark`] — chronological backtracking and trial unification rely on that.
//!
//! Loops that follow bindings or run to quiescence carry a step budget
//! (`u64::MAX` steps) so that their termination is evident; no input
//! reaches it.

use vstd::prelude::*;
use crate::ast::ArithOp;
use crate::number::{Number, nat_decimal, rat_add, rat_mul, rat_lt, rat_le, rat_neg, rat_text};
use crate::solver::{Delta, LinExpr, SVar, Simplex, fits, in_range, lemma_in_range_mono};
use crate::solver::delta::{delta_le, delta_lt};
use crate::solver::linexpr::lemma_coeff_in;
use crate::solver;
use crate::text::{push_str, string_from_chars};
use crate::text::push_usize;
use super::error::EvalError;
use super::symbol::Symbol;

verus! {

/// Address of a cell in the heap.
pub type Addr = usize;

/// A heap cell. A variable is `Var(a)` at address `a` when unbound; binding
/// it makes it `Var(target)`. Compound cells may be overwritten by a `Var`
/// forwarding to an equal compound (bind-before-descend), which is what makes
/// unification of rational trees terminate.
#[derive(Debug, Clone, PartialEq, Eq)]
pub enum Cell {
    Var(Addr),
    Const(Symbol),
    Num(Number),
    Struct(Symbol, Vec<Addr>),
}

#[derive(Debug, Clone)]
pub struct Dif {
    pub a: Addr,
    pub b: Addr,
    pub pending: bool,
}

/// One element of the structural key of an attribute term.
#[derive(Debug, Clone)]
pub enum KeyElem {
    Sym(Symbol, usize),
    Num(Number),
    Var(Addr),
}

#[derive(Debug, Clone)]
pub struct AttrEntry {
    pub term: Addr,
    pub key: Vec<KeyElem>,
    pub svar: SVar,
}

#[derive(Debug, Clone)]
pub struct NumDif {
    pub d: SVar,
    pub a: Addr,
    pub b: Addr,
    pub pending: bool,
}

#[derive(Debug, Clone, Copy, PartialEq, Eq, Structural)]
pub enum ProductKind {
    Mul,
    Div,
}

#[derive(Debug, Clone)]
pub struct Product {
    pub n: SVar,
    pub kind: ProductKind,
    pub a: SVar,
    pub b: SVar,
    pub a_addr: Addr,
    pub b_addr: Addr,
    pub pending: bool,
}

/// Something suspended on a variable, re-examined when it is bound (or,
/// for numeric variables, determined).
#[derive(Debug, Clone, Copy, PartialEq, Eq, Structural)]
pub enum Waker {
    Dif(usize),
    Attr(usize),
}

/// Everything the store keeps per heap cell: the cell, its solver variable
/// when it is a numeric variable, the wakers suspended on it, and whether
/// its "determined" event has fired.
#[derive(Debug, Clone)]
pub struct Slot {
    pub cell: Cell,
    pub numvar: Option<SVar>,
    pub wake: Vec<Waker>,
    pub fired: bool,
}

/// One recorded change, with what is needed to take it back.
#[derive(Debug)]
pub enum Undo {
    /// A heap slot and its previous contents; the flag tells whether the
    /// cell itself (not only its attachments) changed.
    Slot(Addr, Slot, bool),
    DifPending(usize),
    AttrIndex,
    AttrKey(usize, Vec<KeyElem>),
    NumDifPending(usize),
    ProductPending(usize),
    /// A solver variable's alias link and its previous value.
    Alias(SVar, Option<SVar>),
}

/// What the trail takes back: the heap slots, the tree disequations, the
/// attribute entries and their index, the numeric disequations, the delayed
/// products, and the alias links between solver variables.
#[verifier::ext_equal]
pub struct Image {
    pub heap: Seq<Slot>,
    pub difs: Seq<Dif>,
    pub attrs: Seq<AttrEntry>,
    pub index: Seq<(Vec<KeyElem>, SVar)>,
    pub numdifs: Seq<NumDif>,
    pub products: Seq<Product>,
    pub aliases: Map<usize, SVar>,
}

/// Two cells alike: numbers of the same value, structures with the same
/// functor and arguments, otherwise the same cell.
pub open spec fn cell_alike(x: Cell, y: Cell) -> bool {
    match (x, y) {
        (Cell::Num(m), Cell::Num(n)) => m@ == n@,
        (Cell::Struct(f, xs), Cell::Struct(g, ys)) => f == g && xs@ == ys@,
        _ => x == y,
    }
}

/// The slot `s` is the slot `t` with cell `c`, solver variable `nv`, wakers
/// `w` and fired flag `f`.
pub open spec fn slot_is(s: Slot, c: Cell, nv: Option<SVar>, w: Seq<Waker>, f: bool) -> bool {
    &&& cell_alike(s.cell, c)
    &&& s.numvar == nv
    &&& s.wake@ == w
    &&& s.fired == f
}

/// Only the slot at `a` of the heap changed (and only when `a` is in it),
/// to one for which `p` holds; the other tables are the same.
pub open spec fn heap_slot_changed(later: Image, earlier: Image, a: int, p: spec_fn(Slot) -> bool) -> bool {
    &&& later == (Image { heap: later.heap, ..earlier })
    &&& later.heap.len() == earlier.heap.len()
    &&& forall|b: int| 0 <= b < earlier.heap.len() && b != a ==> #[trigger] later.heap[b] == earlier.heap[b]
    &&& 0 <= a < earlier.heap.len() ==> p(later.heap[a])
    &&& !(0 <= a < earlier.heap.len()) ==> later.heap == earlier.heap
}

/// Whether `d op 0` holds, `d` a rational (`!=` is not posted as a relation).
pub open spec fn rel_zero(op: crate::ast::RelOp, d: (int, int)) -> bool {
    match op {
        crate::ast::RelOp::Lt => rat_lt((0int, 1int), rat_neg(d)),
        crate::ast::RelOp::Le => rat_le((0int, 1int), rat_neg(d)),
        crate::ast::RelOp::Eq => (0int, 1int) == rat_neg(d),
        crate::ast::RelOp::Ge => rat_le(rat_neg(d), (0int, 1int)),
        crate::ast::RelOp::Gt => rat_lt(rat_neg(d), (0int, 1int)),
        crate::ast::RelOp::Neq => false,
    }
}

/// `later` differs from `earlier` at most in the wakers suspended on heap
/// cells.
pub open spec fn only_wakers_changed(later: Image, earlier: Image) -> bool {
    &&& later == (Image { heap: later.heap, ..earlier })
    &&& later.heap.len() == earlier.heap.len()
    &&& forall|b: int| 0 <= b < earlier.heap.len() ==> cell_alike((#[trigger] later.heap[b]).cell, earlier.heap[b].cell)
        && later.heap[b].numvar == earlier.heap[b].numvar && later.heap[b].fired == earlier.heap[b].fired
}

/// The alias links held in a table indexed by solver variable.
pub open spec fn alias_map(s: Seq<Option<SVar>>) -> Map<usize, SVar> {
    Map::new(|i: usize| (i as int) < s.len() && s[i as int] is Some, |i: usize| s[i as int]->0)
}

/// Alias links with the link of `i` set to `v` (removed for `None`).
pub open spec fn relink(m: Map<usize, SVar>, i: usize, v: Option<SVar>) -> Map<usize, SVar> {
    match v {
        Some(p) => m.insert(i, p),
        None => m.remove(i),
    }
}

/// Following bound-variable links from `a`, at most `steps` of them, to
/// an unbound variable or a non-variable cell.
pub open spec fn deref_chain(heap: Seq<Slot>, a: int, steps: nat) -> int
    decreases steps,
{
    if 0 <= a < heap.len() && steps > 0 {
        match heap[a].cell {
            Cell::Var(t) => if t != a && t < heap.len() {
                deref_chain(heap, t as int, (steps - 1) as nat)
            } else {
                a
            },
            _ => a,
        }
    } else {
        a
    }
}

/// The two sides of each pending disequation, in order.
pub open spec fn pending_pairs(d: Seq<Dif>) -> Seq<(Addr, Addr)>
    decreases d.len(),
{
    if d.len() == 0 {
        Seq::empty()
    } else {
        let rest = pending_pairs(d.drop_last());
        if d.last().pending {
            rest.push((d.last().a, d.last().b))
        } else {
            rest
        }
    }
}

/// The alias link of `i`, if any.
pub open spec fn alias_link(m: Map<usize, SVar>, i: usize) -> Option<SVar> {
    if m.contains_key(i) {
        Some(m[i])
    } else {
        None
    }
}

/// `later` agrees with `prefix` on all of `prefix`.
pub open spec fn extends<T>(later: Seq<T>, prefix: Seq<T>) -> bool {
    &&& prefix.len() <= later.len()
    &&& forall|x: int| 0 <= x < prefix.len() ==> #[trigger] later[x] == prefix[x]
}

/// `later` grew from `prefix`: the growing tables agree on what `prefix`
/// holds, the attribute index and the alias links are the same.
pub open spec fn image_extends(later: Image, prefix: Image) -> bool {
    &&& extends(later.heap, prefix.heap)
    &&& extends(later.difs, prefix.difs)
    &&& extends(later.attrs, prefix.attrs)
    &&& later.index == prefix.index
    &&& extends(later.numdifs, prefix.numdifs)
    &&& extends(later.products, prefix.products)
    &&& later.aliases == prefix.aliases
}

/// Every growing table of `small` is no longer than in `big`.
pub open spec fn image_within(small: Image, big: Image) -> bool {
    &&& small.heap.len() <= big.heap.len()
    &&& small.difs.len() <= big.difs.len()
    &&& small.attrs.len() <= big.attrs.len()
    &&& small.numdifs.len() <= big.numdifs.len()
    &&& small.products.len() <= big.products.len()
}

/// What taking back the trail entry `u` makes of `img`.
#[verifier::opaque]
pub open spec fn undo_image(u: Undo, img: Image) -> Image {
    match u {
        Undo::Slot(a, old, _) => if a < img.heap.len() {
            Image { heap: img.heap.update(a as int, old), ..img }
        } else {
            img
        },
        Undo::DifPending(id) => if id < img.difs.len() {
            let d = img.difs[id as int];
            Image { difs: img.difs.update(id as int, Dif { a: d.a, b: d.b, pending: true }), ..img }
        } else {
            img
        },
        Undo::AttrIndex => if img.index.len() > 0 {
            Image { index: img.index.drop_last(), ..img }
        } else {
            img
        },
        Undo::AttrKey(id, old) => if id < img.attrs.len() {
            let e = img.attrs[id as int];
            Image { attrs: img.attrs.update(id as int, AttrEntry { term: e.term, key: old, svar: e.svar }), ..img }
        } else {
            img
        },
        Undo::NumDifPending(id) => if id < img.numdifs.len() {
            let e = img.numdifs[id as int];
            Image { numdifs: img.numdifs.update(id as int, NumDif { d: e.d, a: e.a, b: e.b, pending: true }), ..img }
        } else {
            img
        },
        Undo::ProductPending(id) => if id < img.products.len() {
            let p = img.products[id as int];
            Image {
                products: img.products.update(
                    id as int,
                    Product { n: p.n, kind: p.kind, a: p.a, b: p.b, a_addr: p.a_addr, b_addr: p.b_addr, pending: true },
                ),
                ..img
            }
        } else {
            img
        },
        Undo::Alias(sv, prev) => Image { aliases: relink(img.aliases, sv.0, prev), ..img },
    }
}

/// Entry `k` of the trail, taken back from the image just before the next
/// entry (`next`), gives back what the image was just before it (`hist[k]`).
pub open spec fn hist_step_ok(hist: Seq<Image>, trail: Seq<Undo>, k: int, next: Image) -> bool {
    image_extends(undo_image(trail[k], next), hist[k])
}

/// The history: `hist[k]` is the image just before trail entry `k` was
/// recorded; each entry takes back what it changed; between entries the
/// tables only grow.
pub open spec fn history_ok(cur: Image, hist: Seq<Image>, trail: Seq<Undo>) -> bool {
    &&& hist.len() == trail.len()
    &&& forall|k: int| 0 <= k < trail.len() ==> image_within(#[trigger] hist[k], cur)
    &&& forall|k: int, j: int| 0 <= k <= j < trail.len() ==> image_within(#[trigger] hist[k], #[trigger] hist[j])
    &&& forall|k: int| #![trigger hist[k]] 1 <= k < trail.len() ==> hist_step_ok(hist, trail, k - 1, hist[k])
    &&& trail.len() > 0 ==> hist_step_ok(hist, trail, trail.len() - 1, cur)
}

/// A mark can still be returned to: its trail position and tables are
/// within the store's, and its snapshot agrees with the history at its
/// position.
pub open spec fn mark_ok(cur: Image, hist: Seq<Image>, n: nat, m: Mark) -> bool {
    let snap = m.snapshot();
    &&& m.trail_len() <= n
    &&& m.sizes_ok()
    &&& image_within(snap, cur)
    &&& m.trail_len() > 0 ==> image_within(hist[m.trail_len() - 1], snap)
    &&& m.trail_len() < n ==> image_extends(hist[m.trail_len() as int], snap)
    &&& m.trail_len() == n ==> image_extends(cur, snap)
}

/// A point in the store's history to return to.
#[derive(Clone, Copy)]
pub struct Mark {
    heap: usize,
    trail: usize,
    difs: usize,
    attrs: usize,
    numdifs: usize,
    products: usize,
    simplex: solver::Mark,
    snap: Ghost<Image>,
}

impl Mark {
    /// What the trail restores, as it was when the mark was taken.
    pub closed spec fn snapshot(self) -> Image {
        self.snap@
    }

    /// The table sizes recorded are those of the snapshot.
    pub closed spec fn sizes_ok(self) -> bool {
        &&& self.heap as nat == self.snap@.heap.len()
        &&& self.difs as nat == self.snap@.difs.len()
        &&& self.attrs as nat == self.snap@.attrs.len()
        &&& self.numdifs as nat == self.snap@.numdifs.len()
        &&& self.products as nat == self.snap@.products.len()
    }

    /// The solver's mark.
    pub closed spec fn solver_mark(self) -> solver::Mark {
        self.simplex
    }

    /// How far into the solver's history the mark was taken.
    pub open spec fn position(self) -> nat {
        self.solver_mark().position()
    }

    /// The heap size when the mark was taken.
    pub closed spec fn heap_len(self) -> nat {
        self.heap as nat
    }

    /// The trail length when the mark was taken.
    pub closed spec fn trail_len(self) -> nat {
        self.trail as nat
    }

    /// No table of this mark's snapshot is longer than in `other`'s.
    pub open spec fn within(self, other: Mark) -> bool {
        image_within(self.snapshot(), other.snapshot())
    }

    /// The heap size when the mark was taken.
    pub fn heap_size(&self) -> (n: usize)
        ensures
            n == self.heap_len(),
    {
        self.heap
    }

    /// The trail length when the mark was taken.
    pub fn trail_size(&self) -> (n: usize)
        ensures
            n == self.trail_len(),
    {
        self.trail
    }
}

/// The store.
pub struct Store {
    heap: Vec<Slot>,
    trail: Vec<Undo>,
    /// `hist[k]`: the image just before trail entry `k` was recorded.
    hist: Ghost<Seq<Image>>,
    difs: Vec<Dif>,
    /// Wakers woken since the last settle.
    woken: Vec<Waker>,
    pub(crate) simplex: Simplex,
    /// Attribute terms registered so far.
    pub(crate) attrs: Vec<AttrEntry>,
    /// Key → unknown for every registered attribute term (inserted and
    /// removed in trail order).
    attr_index: Vec<(Vec<KeyElem>, SVar)>,
    pub(crate) numdifs: Vec<NumDif>,
    pub(crate) products: Vec<Product>,
    /// The defining expression of each slack or defined solver variable, for
    /// printing (permanent, like the solver variables themselves).
    pub(crate) defs: Vec<Option<LinExpr>>,
    /// Solver variables equated by `equate`: child → parent.
    aliases: Vec<Option<SVar>>,
    /// Attribute entries and numeric disequations created before the
    /// current query belong to the world, not to the answer.
    pub(crate) baseline_attrs: usize,
    pub(crate) baseline_numdifs: usize,
    /// Numeric heap variables touched during the current trial unification.
    touched: Vec<Addr>,
    /// A sticky runtime error (cyclic attribute term).
    pub(crate) error: Option<EvalError>,
    /// A non-linear product still pending at answer time: its operand terms
    /// and operator.
    pub(crate) nonlinear: Option<(Addr, Addr, char)>,
}

/// Following alias links from `s`, at most `steps` of them.
pub open spec fn alias_root(m: Map<usize, SVar>, s: SVar, steps: nat) -> SVar
    decreases steps,
{
    if steps == 0 {
        s
    } else {
        match alias_link(m, s.0) {
            Some(p) => alias_root(m, p, (steps - 1) as nat),
            None => s,
        }
    }
}

/// The value of a bound.
pub open spec fn val_of(d: ((int, int), (int, int))) -> (int, int) {
    d.0
}

/// The numerator of a bound's infinitesimal part.
pub open spec fn eps_of(d: ((int, int), (int, int))) -> int {
    let k = d.1;
    k.0
}

/// The value pinned by coinciding exact bounds.
pub open spec fn pinned(b: (Option<((int, int), (int, int))>, Option<((int, int), (int, int))>)) -> Option<(int, int)> {
    if b.0 is Some && b.1 is Some && b.0 == b.1 && eps_of(b.0->0) == 0 {
        Some(val_of(b.0->0))
    } else {
        None
    }
}

/// `acc` plus the pinned values of the first `n` terms times their
/// coefficients; `None` if one is not pinned.
pub open spec fn pinned_sum(bounds: Seq<(Option<((int, int), (int, int))>, Option<((int, int), (int, int))>)>, t: Seq<(usize, (int, int))>, n: int, acc: (int, int)) -> Option<(int, int)>
    decreases n,
{
    if n <= 0 {
        Some(acc)
    } else {
        match pinned_sum(bounds, t, n - 1, acc) {
            None => None,
            Some(x) => if t[n - 1].0 < bounds.len() && pinned(bounds[t[n - 1].0 as int]) is Some {
                Some(rat_add(x, rat_mul(pinned(bounds[t[n - 1].0 as int])->0, t[n - 1].1)))
            } else {
                None
            },
        }
    }
}

/// Once a term is not pinned, the sum stays undefined.
proof fn lemma_pinned_none(bounds: Seq<(Option<((int, int), (int, int))>, Option<((int, int), (int, int))>)>, t: Seq<(usize, (int, int))>, j: int, m: int, acc: (int, int))
    requires
        0 <= j <= m,
        pinned_sum(bounds, t, j, acc) is None,
    ensures
        pinned_sum(bounds, t, m, acc) is None,
    decreases m - j,
{
    if j < m {
        lemma_pinned_none(bounds, t, j, m - 1, acc);
    }
}

/// A value the solver exhibits for `v` without probing: coinciding exact
/// bounds, or a row whose variables all have such values.
pub open spec fn exhibited(s: Simplex, v: usize) -> Option<(int, int)> {
    if v >= s.num_vars_spec() {
        None
    } else if pinned(s.bounds()[v as int]) is Some {
        pinned(s.bounds()[v as int])
    } else {
        match s.row_spec(v) {
            None => None,
            Some(e) => pinned_sum(s.bounds(), e.0, e.0.len() as int, e.1),
        }
    }
}

/// The first member of alias class `r` from `v` on, below `n`, whose value
/// the solver exhibits, and that value.
pub open spec fn class_value_from(s: Simplex, m: Map<usize, SVar>, steps: nat, r: SVar, v: nat, n: nat) -> Option<(int, int)>
    decreases n - v,
{
    if v >= n {
        None
    } else if alias_root(m, SVar(v as usize), steps) == r && exhibited(s, v as usize) is Some {
        exhibited(s, v as usize)
    } else {
        class_value_from(s, m, steps, r, v + 1, n)
    }
}

/// The row of the first basic member of alias class `r` from `v` on.
pub open spec fn class_row_from(s: Simplex, m: Map<usize, SVar>, steps: nat, r: SVar, v: nat, n: nat) -> Option<(Seq<(usize, (int, int))>, (int, int))>
    decreases n - v,
{
    if v >= n {
        None
    } else if alias_root(m, SVar(v as usize), steps) == r && s.row_spec(v as usize) is Some {
        s.row_spec(v as usize)
    } else {
        class_row_from(s, m, steps, r, v + 1, n)
    }
}

/// The greatest lower bound among the first `n` members of alias class
/// `r` (the first of equals).
pub open spec fn tightest_lower(s: Simplex, m: Map<usize, SVar>, steps: nat, r: SVar, n: nat) -> Option<((int, int), (int, int))>
    decreases n,
{
    if n == 0 {
        None
    } else {
        let prev = tightest_lower(s, m, steps, r, (n - 1) as nat);
        let b = s.bounds()[n - 1].0;
        if alias_root(m, SVar((n - 1) as usize), steps) == r && b is Some
            && (prev is None || solver::delta::delta_lt(prev->0, b->0)) {
            b
        } else {
            prev
        }
    }
}

/// The least upper bound among the first `n` members of alias class `r`.
pub open spec fn tightest_upper(s: Simplex, m: Map<usize, SVar>, steps: nat, r: SVar, n: nat) -> Option<((int, int), (int, int))>
    decreases n,
{
    if n == 0 {
        None
    } else {
        let prev = tightest_upper(s, m, steps, r, (n - 1) as nat);
        let b = s.bounds()[n - 1].1;
        if alias_root(m, SVar((n - 1) as usize), steps) == r && b is Some
            && (prev is None || solver::delta::delta_lt(b->0, prev->0)) {
            b
        } else {
            prev
        }
    }
}

/// Growth is transitive.
proof fn lemma_image_trans(a: Image, b: Image, c: Image)
    requires
        image_extends(a, b),
        image_extends(b, c),
    ensures
        image_extends(a, c),
{
    assert forall|x: int| 0 <= x < c.heap.len() implies #[trigger] a.heap[x] == c.heap[x] by {
        assert(a.heap[x] == b.heap[x]);
    }
    assert forall|x: int| 0 <= x < c.difs.len() implies #[trigger] a.difs[x] == c.difs[x] by {
        assert(a.difs[x] == b.difs[x]);
    }
    assert forall|x: int| 0 <= x < c.attrs.len() implies #[trigger] a.attrs[x] == c.attrs[x] by {
        assert(a.attrs[x] == b.attrs[x]);
    }
    assert forall|x: int| 0 <= x < c.numdifs.len() implies #[trigger] a.numdifs[x] == c.numdifs[x] by {
        assert(a.numdifs[x] == b.numdifs[x]);
    }
    assert forall|x: int| 0 <= x < c.products.len() implies #[trigger] a.products[x] == c.products[x] by {
        assert(a.products[x] == b.products[x]);
    }
}

/// Two images that `a` grew from, the second no longer than the first:
/// the first grew from the second.
proof fn lemma_image_common(a: Image, b: Image, c: Image)
    requires
        image_extends(a, b),
        image_extends(a, c),
        image_within(c, b),
    ensures
        image_extends(b, c),
{
    assert forall|x: int| 0 <= x < c.heap.len() implies #[trigger] b.heap[x] == c.heap[x] by {
        assert(a.heap[x] == b.heap[x]);
    }
    assert forall|x: int| 0 <= x < c.difs.len() implies #[trigger] b.difs[x] == c.difs[x] by {
        assert(a.difs[x] == b.difs[x]);
    }
    assert forall|x: int| 0 <= x < c.attrs.len() implies #[trigger] b.attrs[x] == c.attrs[x] by {
        assert(a.attrs[x] == b.attrs[x]);
    }
    assert forall|x: int| 0 <= x < c.numdifs.len() implies #[trigger] b.numdifs[x] == c.numdifs[x] by {
        assert(a.numdifs[x] == b.numdifs[x]);
    }
    assert forall|x: int| 0 <= x < c.products.len() implies #[trigger] b.products[x] == c.products[x] by {
        assert(a.products[x] == b.products[x]);
    }
}

/// Taking back an entry keeps growth, and keeps the table sizes.
proof fn lemma_undo_mono(u: Undo, c: Image, n: Image)
    requires
        image_extends(c, n),
    ensures
        image_extends(undo_image(u, c), undo_image(u, n)),
        image_within(undo_image(u, c), c),
        image_within(c, undo_image(u, c)),
{
    reveal(undo_image);
    let uc = undo_image(u, c);
    let un = undo_image(u, n);
    assert forall|x: int| 0 <= x < un.heap.len() implies #[trigger] uc.heap[x] == un.heap[x] by {
        assert(c.heap[x] == n.heap[x]);
    }
    assert forall|x: int| 0 <= x < un.difs.len() implies #[trigger] uc.difs[x] == un.difs[x] by {
        assert(c.difs[x] == n.difs[x]);
    }
    assert forall|x: int| 0 <= x < un.attrs.len() implies #[trigger] uc.attrs[x] == un.attrs[x] by {
        assert(c.attrs[x] == n.attrs[x]);
    }
    assert forall|x: int| 0 <= x < un.numdifs.len() implies #[trigger] uc.numdifs[x] == un.numdifs[x] by {
        assert(c.numdifs[x] == n.numdifs[x]);
    }
    assert forall|x: int| 0 <= x < un.products.len() implies #[trigger] uc.products[x] == un.products[x] by {
        assert(c.products[x] == n.products[x]);
    }
}

/// The image grows without a trail entry (a table gains entries at its
/// end): the history still describes it and every mark stays valid.
proof fn lemma_grow(before: Image, after: Image, hist: Seq<Image>, trail: Seq<Undo>)
    requires
        history_ok(before, hist, trail),
        image_extends(after, before),
    ensures
        history_ok(after, hist, trail),
        forall|m: Mark| mark_ok(before, hist, trail.len(), m) ==> #[trigger] mark_ok(after, hist, trail.len(), m),
{
    let n = trail.len();
    if n > 0 {
        let u = trail[n - 1];
        lemma_undo_mono(u, after, before);
        lemma_image_trans(undo_image(u, after), undo_image(u, before), hist[n - 1]);
    }
    assert forall|m: Mark| mark_ok(before, hist, n, m) implies #[trigger] mark_ok(after, hist, n, m) by {
        if m.trail_len() == n {
            lemma_image_trans(after, before, m.snapshot());
        }
    }
}

/// A trail entry `u` is recorded for a change from `before` to `after`
/// that `u` takes back: the history, extended by `before`, describes
/// `after`, and every mark stays valid.
proof fn lemma_record(before: Image, after: Image, u: Undo, hist: Seq<Image>, trail: Seq<Undo>)
    requires
        history_ok(before, hist, trail),
        image_extends(undo_image(u, after), before),
        image_within(before, after),
    ensures
        history_ok(after, hist.push(before), trail.push(u)),
        forall|m: Mark| mark_ok(before, hist, trail.len(), m) ==>
            #[trigger] mark_ok(after, hist.push(before), trail.len() + 1, m),
{
    let n = trail.len();
    let hs = hist.push(before);
    let tr = trail.push(u);
    assert(tr[n as int] == u);
    assert(hs[n as int] == before);
    assert forall|k: int| 0 <= k < tr.len() implies image_within(#[trigger] hs[k], after) by {
        if k < n {
            assert(hs[k] == hist[k]);
        }
    }
    assert forall|k: int, j: int| 0 <= k <= j < tr.len() implies image_within(#[trigger] hs[k], #[trigger] hs[j]) by {
        if j < n {
            assert(hs[k] == hist[k]);
            assert(hs[j] == hist[j]);
        } else if k < n {
            assert(hs[k] == hist[k]);
        }
    }
    assert forall|k: int| #![trigger hs[k]] 1 <= k < tr.len() implies hist_step_ok(hs, tr, k - 1, hs[k]) by {
        assert(hs[k - 1] == hist[k - 1]);
        assert(tr[k - 1] == trail[k - 1]);
        if k < n {
            assert(hs[k] == hist[k]);
        }
    }
    assert(hist_step_ok(hs, tr, n as int, after));
    assert forall|m: Mark| mark_ok(before, hist, n, m) implies #[trigger] mark_ok(after, hs, n + 1, m) by {
        if m.trail_len() < n {
            assert(hs[m.trail_len() as int] == hist[m.trail_len() as int]);
        }
        if m.trail_len() > 0 {
            assert(hs[m.trail_len() - 1] == hist[m.trail_len() - 1]);
        }
    }
}

/// One step of taking back the trail: the image after taking back entry
/// `k - 1` agrees with what it was before that entry.
proof fn lemma_undo_step(cur: Image, cur0: Image, h0: Seq<Image>, t0: Seq<Undo>, k: int)
    requires
        history_ok(cur0, h0, t0),
        1 <= k <= t0.len(),
        k == t0.len() ==> cur == cur0,
        k < t0.len() ==> image_extends(cur, h0[k]),
    ensures
        image_extends(undo_image(t0[k - 1], cur), h0[k - 1]),
{
    if k < t0.len() {
        assert(hist_step_ok(h0, t0, k - 1, h0[k]));
        lemma_undo_mono(t0[k - 1], cur, h0[k]);
        lemma_image_trans(undo_image(t0[k - 1], cur), undo_image(t0[k - 1], h0[k]), h0[k - 1]);
    }
}

/// Taking back entry `k - 1` keeps the table sizes and reaches an image
/// that grew from the one before that entry.
proof fn lemma_undo_next(cur: Image, next: Image, cur0: Image, h0: Seq<Image>, t0: Seq<Undo>, k: int)
    requires
        history_ok(cur0, h0, t0),
        1 <= k <= t0.len(),
        image_within(cur0, cur),
        image_within(cur, cur0),
        k == t0.len() ==> cur == cur0,
        k < t0.len() ==> image_extends(cur, h0[k]),
        next == undo_image(t0[k - 1], cur),
    ensures
        image_within(cur0, next),
        image_within(next, cur0),
        image_extends(next, h0[k - 1]),
{
    lemma_undo_step(cur, cur0, h0, t0, k);
    lemma_image_refl(cur);
    lemma_undo_mono(t0[k - 1], cur, cur);
}

/// Having taken the trail back to a mark, the image grew from its snapshot.
proof fn lemma_undo_reaches_snapshot(cur: Image, cur0: Image, h0: Seq<Image>, t0: Seq<Undo>, m: Mark)
    requires
        mark_ok(cur0, h0, t0.len(), m),
        m.trail_len() == t0.len() ==> cur == cur0,
        m.trail_len() < t0.len() ==> image_extends(cur, h0[m.trail_len() as int]),
    ensures
        image_extends(cur, m.snapshot()),
{
    if m.trail_len() < t0.len() {
        lemma_image_trans(cur, h0[m.trail_len() as int], m.snapshot());
    }
}

/// After returning to mark `m`, the remaining history describes the image
/// (now `m`'s snapshot), and marks taken no later than `m` stay valid.
proof fn lemma_truncated_history(cur0: Image, h0: Seq<Image>, t0: Seq<Undo>, m: Mark)
    requires
        history_ok(cur0, h0, t0),
        mark_ok(cur0, h0, t0.len(), m),
    ensures
        history_ok(m.snapshot(), h0.subrange(0, m.trail_len() as int), t0.subrange(0, m.trail_len() as int)),
        mark_ok(m.snapshot(), h0.subrange(0, m.trail_len() as int), m.trail_len(), m),
        forall|m2: Mark| mark_ok(cur0, h0, t0.len(), m2) && m2.trail_len() <= m.trail_len()
            && image_within(m2.snapshot(), m.snapshot()) ==> #[trigger] mark_ok(m.snapshot(), h0.subrange(0, m.trail_len() as int), m.trail_len(), m2),
{
    let n0 = t0.len();
    let k = m.trail_len() as int;
    let cur = m.snapshot();
    let hs = h0.subrange(0, k);
    let t = t0.subrange(0, k);
    // The image at the mark's position, from which the snapshot grew.
    let at = if k < n0 { h0[k] } else { cur0 };
    assert(image_extends(at, cur));
    assert forall|j: int| 0 <= j < k implies image_within(#[trigger] hs[j], cur) by {
        assert(hs[j] == h0[j]);
        assert(image_within(h0[j], h0[k - 1]));
    }
    assert forall|j: int, i: int| 0 <= j <= i < k implies image_within(#[trigger] hs[j], #[trigger] hs[i]) by {
        assert(hs[j] == h0[j]);
        assert(hs[i] == h0[i]);
    }
    assert forall|j: int| #![trigger hs[j]] 1 <= j < k implies hist_step_ok(hs, t, j - 1, hs[j]) by {
        assert(hs[j] == h0[j]);
        assert(hs[j - 1] == h0[j - 1]);
        assert(t[j - 1] == t0[j - 1]);
        assert(hist_step_ok(h0, t0, j - 1, h0[j]));
    }
    if k > 0 {
        let l = k - 1;
        let u = t0[l];
        assert(hs[l] == h0[l]);
        assert(t[l] == u);
        assert(hist_step_ok(h0, t0, l, at));
        lemma_undo_mono(u, at, cur);
        lemma_image_refl(cur);
        lemma_undo_mono(u, cur, cur);
        lemma_image_common(undo_image(u, at), undo_image(u, cur), h0[l]);
        assert(hist_step_ok(hs, t, l, cur));
    }
    assert forall|x: int| 0 <= x < cur.heap.len() implies #[trigger] cur.heap[x] == cur.heap[x] by {}
    assert(image_extends(cur, cur));
    assert forall|m2: Mark| mark_ok(cur0, h0, n0, m2) && m2.trail_len() <= m.trail_len()
        && image_within(m2.snapshot(), m.snapshot()) implies #[trigger] mark_ok(cur, hs, m.trail_len(), m2) by {
        let k2 = m2.trail_len() as int;
        if k2 > 0 {
            assert(hs[k2 - 1] == h0[k2 - 1]);
        }
        if k2 < k {
            assert(hs[k2] == h0[k2]);
        } else {
            lemma_image_common(at, cur, m2.snapshot());
        }
    }
}

/// Every image grew from itself.
proof fn lemma_image_refl(a: Image)
    ensures
        image_extends(a, a),
{
}

/// Set entry `i` of an alias table to `v`, growing the table as needed.
fn relink_table(table: &mut Vec<Option<SVar>>, i: usize, v: Option<SVar>)
    ensures
        alias_map(final(table)@) == relink(alias_map(old(table)@), i, v),
{
    while table.len() <= i
        invariant
            alias_map(table@) == alias_map(old(table)@),
        decreases i + 1 - table@.len(),
    {
        let ghost s = table@;
        table.push(None);
        proof {
            assert(alias_map(table@) =~= alias_map(s));
        }
    }
    let ghost s = table@;
    table.set(i, v);
    proof {
        assert(alias_map(table@) =~= relink(alias_map(s), i, v));
    }
}

/// Two key elements are the same: symbols with arities, numbers by value,
/// variables by address.
pub open spec fn elem_same(x: KeyElem, y: KeyElem) -> bool {
    match (x, y) {
        (KeyElem::Sym(f, n), KeyElem::Sym(g, m)) => f == g && n == m,
        (KeyElem::Num(p), KeyElem::Num(q)) => p@ == q@,
        (KeyElem::Var(p), KeyElem::Var(q)) => p == q,
        _ => false,
    }
}

/// Two keys are the same, element by element.
pub open spec fn keys_same(a: Seq<KeyElem>, b: Seq<KeyElem>) -> bool {
    &&& a.len() == b.len()
    &&& forall|i: int| 0 <= i < a.len() ==> elem_same(#[trigger] a[i], b[i])
}

/// The unknown registered under the first key in `index` from `i` on that
/// is the same as `key`.
pub open spec fn key_lookup(index: Seq<(Vec<KeyElem>, SVar)>, key: Seq<KeyElem>, i: int) -> Option<SVar>
    decreases index.len() - i,
{
    if i < 0 || i >= index.len() {
        None
    } else if keys_same(index[i].0@, key) {
        Some(index[i].1)
    } else {
        key_lookup(index, key, i + 1)
    }
}

/// Equality of attribute keys.
pub fn key_eq(a: &Vec<KeyElem>, b: &Vec<KeyElem>) -> (r: bool)
    ensures
        r == keys_same(a@, b@),
{
    if a.len() != b.len() {
        return false;
    }
    let mut i: usize = 0;
    while i < a.len()
        invariant
            i <= a@.len(),
            a@.len() == b@.len(),
            forall|k: int| 0 <= k < i ==> elem_same(#[trigger] a@[k], b@[k]),
        decreases a@.len() - i,
    {
        let same = match (&a[i], &b[i]) {
            (KeyElem::Sym(f, n), KeyElem::Sym(g, m)) => *f == *g && *n == *m,
            (KeyElem::Num(x), KeyElem::Num(y)) => x.equals(y),
            (KeyElem::Var(x), KeyElem::Var(y)) => *x == *y,
            _ => false,
        };
        if !same {
            return false;
        }
        i = i + 1;
    }
    true
}

impl Store {
    // --- the invariant and marks ----------------------------------------------

    /// The solver.
    pub closed spec fn solver(&self) -> Simplex {
        self.simplex
    }

    /// The heap slots.
    pub closed spec fn slots(&self) -> Seq<Slot> {
        self.heap@
    }

    /// What the trail restores.
    pub closed spec fn image(&self) -> Image {
        Image {
            heap: self.heap@,
            difs: self.difs@,
            attrs: self.attrs@,
            index: self.attr_index@,
            numdifs: self.numdifs@,
            products: self.products@,
            aliases: alias_map(self.aliases@),
        }
    }

    /// The image before each trail entry.
    pub closed spec fn history(&self) -> Seq<Image> {
        self.hist@
    }

    /// The trail.
    pub closed spec fn trail_entries(&self) -> Seq<Undo> {
        self.trail@
    }

    /// A well-formed solver and a faithful history.
    pub open spec fn wf(&self) -> bool {
        &&& self.solver().wf()
        &&& history_ok(self.image(), self.history(), self.trail_entries())
    }

    /// `m` was taken from this store's history and can be returned to.
    pub open spec fn valid_mark(&self, m: Mark) -> bool {
        &&& self.solver().valid_mark(m.solver_mark())
        &&& mark_ok(self.image(), self.history(), self.trail_len(), m)
    }

    /// Marks of `old` stay valid.
    pub open spec fn keeps_marks(&self, old: &Store) -> bool {
        &&& self.solver().keeps_marks(&old.solver())
        &&& forall|m: Mark| mark_ok(old.image(), old.history(), old.trail_len(), m)
            ==> #[trigger] mark_ok(self.image(), self.history(), self.trail_len(), m)
    }

    /// Well formed, with every mark of `old` still valid, and the heap and
    /// the trail no shorter than in `old`.
    pub open spec fn evolves(&self, old: &Store) -> bool {
        &&& self.wf()
        &&& self.keeps_marks(old)
        &&& self.heap_len() >= old.heap_len()
        &&& self.trail_len() >= old.trail_len()
    }

    /// Solver marks of `old` taken at or before `pos` stay valid.
    pub open spec fn keeps_marks_upto(&self, old: &Store, pos: nat) -> bool {
        forall|sm: solver::Mark| old.solver().valid_mark(sm) && sm.position() <= pos ==> #[trigger] self.solver().valid_mark(sm)
    }

    /// Marks of `old` taken at or before trail position `t`, with tables no
    /// longer than in `bound`, stay valid.
    pub open spec fn keeps_image_marks_upto(&self, old: &Store, t: nat, bound: Image) -> bool {
        forall|m: Mark| mark_ok(old.image(), old.history(), old.trail_len(), m) && m.trail_len() <= t
            && image_within(m.snapshot(), bound) ==> #[trigger] mark_ok(self.image(), self.history(), self.trail_len(), m)
    }

    /// Every valid solver mark was taken at or before `pos`.
    pub open spec fn all_within(&self, pos: nat) -> bool {
        forall|sm: solver::Mark| #[trigger] self.solver().valid_mark(sm) ==> sm.position() <= pos
    }

    /// The number of solver variables.
    pub closed spec fn solver_vars(&self) -> nat {
        self.simplex.num_vars_spec()
    }

    pub open spec fn heap_len(&self) -> nat {
        self.slots().len()
    }

    /// No delayed product is still pending: every product met so far has
    /// been made linear by a determined factor.
    pub open spec fn products_linear(&self) -> bool {
        forall|k: int| 0 <= k < self.image().products.len() ==> !(#[trigger] self.image().products[k]).pending
    }

    /// The number `a` stands for, if it stands for one.
    pub open spec fn num_at(&self, a: Addr) -> Option<(int, int)> {
        let d = deref_chain(self.slots(), a as int, self.heap_len());
        if a < self.heap_len() && self.cell_at(d) is Num {
            Some(self.cell_at(d)->Num_0@)
        } else {
            None
        }
    }

    /// When `a` and `b` both stand for numbers, their difference `a - b`.
    pub open spec fn num_pair(&self, a: Addr, b: Addr) -> Option<(int, int)> {
        let da = deref_chain(self.slots(), a as int, self.heap_len());
        let db = deref_chain(self.slots(), b as int, self.heap_len());
        if a < self.heap_len() && b < self.heap_len() && self.cell_at(da) is Num && self.cell_at(db) is Num {
            Some(rat_add(self.cell_at(da)->Num_0@, rat_mul(self.cell_at(db)->Num_0@, (-1int, 1int))))
        } else {
            None
        }
    }

    /// The bounds of every solver variable of `old` are as in `old`.
    pub open spec fn bounds_kept(&self, old: &Store) -> bool {
        &&& old.solver_vars() <= self.solver_vars()
        &&& forall|v: int| 0 <= v < old.solver_vars() ==> #[trigger] self.solver().bounds()[v] == old.solver().bounds()[v]
    }

    /// The cell `a` stands for is the constant `c`.
    pub open spec fn const_at(&self, a: Addr, c: Symbol) -> bool {
        &&& a < self.heap_len()
        &&& self.cell_at(deref_chain(self.slots(), a as int, self.heap_len())) == Cell::Const(c)
    }

    /// `a` stands for an unbound variable that is not numeric.
    pub open spec fn plain_var_at(&self, a: Addr) -> bool {
        let d = deref_chain(self.slots(), a as int, self.heap_len());
        &&& a < self.heap_len()
        &&& 0 <= d < self.heap_len()
        &&& self.cell_at(d) == Cell::Var(d as usize)
        &&& self.slots()[d].numvar is None
    }

    /// `b` stands for a cell that is not a variable.
    pub open spec fn nonvar_at(&self, b: Addr) -> bool {
        &&& b < self.heap_len()
        &&& 0 <= deref_chain(self.slots(), b as int, self.heap_len()) < self.heap_len()
        &&& !(self.cell_at(deref_chain(self.slots(), b as int, self.heap_len())) is Var)
    }

    /// The address `a` stands for.
    pub open spec fn resolved_at(&self, a: Addr) -> int {
        deref_chain(self.slots(), a as int, self.heap_len())
    }

    /// `later` and `earlier` agree on everything quiescence looks at.
    pub open spec fn same_numeric_state(later: &Store, earlier: &Store) -> bool {
        &&& later.solver_vars() == earlier.solver_vars()
        &&& later.solver().bounds() == earlier.solver().bounds()
        &&& forall|u: usize| #[trigger] later.solver().row_spec(u) == earlier.solver().row_spec(u)
    }

    /// How many wakers wait to be processed.
    pub closed spec fn woken_len(&self) -> nat {
        self.woken@.len()
    }

    /// The wakers waiting to be processed, in order.
    pub closed spec fn woken_spec(&self) -> Seq<Waker> {
        self.woken@
    }

    /// No unfired, unbound numeric heap variable has a value the solver
    /// exhibits (coinciding exact bounds, or a row of such variables).
    pub open spec fn vars_quiet(&self) -> bool {
        forall|a: int|
            0 <= a < self.heap_len() && !(#[trigger] self.slots()[a]).fired && self.slots()[a].cell == Cell::Var(a as usize)
                && self.slots()[a].numvar is Some
                ==> exhibited(self.solver(), self.slots()[a].numvar.unwrap().0) is None
    }

    /// No pending numeric disequation has a difference the solver exhibits.
    pub open spec fn numdifs_quiet(&self) -> bool {
        forall|i: int|
            0 <= i < self.image().numdifs.len() && (#[trigger] self.image().numdifs[i]).pending
                ==> exhibited(self.solver(), self.image().numdifs[i].d.0) is None
    }

    /// No pending product has a factor that would make it linear exhibited:
    /// neither factor of a product, not the divisor of a quotient.
    pub open spec fn products_quiet(&self) -> bool {
        forall|i: int|
            0 <= i < self.image().products.len() && (#[trigger] self.image().products[i]).pending
                ==> exhibited(self.solver(), self.image().products[i].b.0) is None
                && (self.image().products[i].kind == ProductKind::Mul
                    ==> exhibited(self.solver(), self.image().products[i].a.0) is None)
    }

    /// Nothing is open: no heap variable is numeric, no attribute term is
    /// registered, no disequation or numeric disequation is pending, no
    /// product is delayed, and nothing is woken.
    pub open spec fn nothing_open(&self) -> bool {
        &&& forall|a: int| 0 <= a < self.heap_len() ==> (#[trigger] self.slots()[a]).numvar is None
        &&& self.image().attrs.len() == 0
        &&& forall|i: int| 0 <= i < self.image().difs.len() ==> !(#[trigger] self.image().difs[i]).pending
        &&& forall|i: int| 0 <= i < self.image().numdifs.len() ==> !(#[trigger] self.image().numdifs[i]).pending
        &&& self.products_linear()
        &&& self.woken_len() == 0
    }

    /// Nothing woken is left, and the cheap numeric consequences are drawn.
    pub open spec fn quiescent(&self) -> bool {
        &&& self.woken_len() == 0
        &&& self.vars_quiet()
        &&& self.numdifs_quiet()
        &&& self.products_quiet()
    }

    pub open spec fn trail_len(&self) -> nat {
        self.trail_entries().len()
    }

    pub open spec fn cell_at(&self, a: int) -> Cell {
        self.slots()[a].cell
    }

    pub fn new() -> (s: Store)
        ensures
            s.wf(),
            s.heap_len() == 0,
            s.trail_len() == 0,
            s.quiescent(),
    {
        Store {
            heap: Vec::new(),
            trail: Vec::new(),
            hist: Ghost(Seq::empty()),
            difs: Vec::new(),
            woken: Vec::new(),
            simplex: Simplex::new(),
            attrs: Vec::new(),
            attr_index: Vec::new(),
            numdifs: Vec::new(),
            products: Vec::new(),
            defs: Vec::new(),
            aliases: Vec::new(),
            baseline_attrs: 0,
            baseline_numdifs: 0,
            touched: Vec::new(),
            error: None,
            nonlinear: None,
        }
    }

    /// The current point in history.
    pub fn mark(&self) -> (m: Mark)
        requires
            self.wf(),
        ensures
            self.valid_mark(m),
            m.snapshot() == self.image(),
            m.heap_len() == self.heap_len(),
            m.trail_len() == self.trail_len(),
            m.position() == self.solver().history_len(),
            m.solver_mark().snapshot() == self.solver().bounds(),
            forall|m2: Mark| #[trigger] self.valid_mark(m2) ==> m2.position() <= m.position()
                && m2.trail_len() <= m.trail_len() && m2.within(m),
            self.all_within(m.position()),
    {
        let sm = self.simplex.mark();
        let m = Mark {
            heap: self.heap.len(),
            trail: self.trail.len(),
            difs: self.difs.len(),
            attrs: self.attrs.len(),
            numdifs: self.numdifs.len(),
            products: self.products.len(),
            simplex: sm,
            snap: Ghost(self.image()),
        };
        proof {
            assert forall|m2: Mark| #[trigger] self.valid_mark(m2) implies m2.position() <= m.position() by {
                self.simplex.lemma_mark_within(m2.simplex);
            }
            assert forall|sm2: solver::Mark| #[trigger] self.simplex.valid_mark(sm2) implies sm2.position() <= m.position() by {
                self.simplex.lemma_mark_within(sm2);
            }
            if self.trail@.len() > 0 {
                assert(image_within(self.hist@[self.trail@.len() - 1], self.image()));
            }
            lemma_image_refl(self.image());
        }
        m
    }

    /// Take back the last trail entry.
    fn undo_one(&mut self)
        requires
            old(self).trail@.len() > 0,
            old(self).hist@.len() == old(self).trail@.len(),
        ensures
            final(self).trail@ == old(self).trail@.drop_last(),
            final(self).hist@ == old(self).hist@.drop_last(),
            final(self).simplex == old(self).simplex,
            final(self).image() == undo_image(old(self).trail@.last(), old(self).image()),
    {
        let ghost gu = self.trail@.last();
        let ghost before = self.image();
        let u = self.trail.pop().unwrap();
        self.hist = Ghost(self.hist@.drop_last());
        match u {
            Undo::Slot(a, old, _) => {
                if a < self.heap.len() {
                    self.heap.set(a, old);
                }
            },
            Undo::DifPending(id) => {
                if id < self.difs.len() {
                    let d = Dif { a: self.difs[id].a, b: self.difs[id].b, pending: true };
                    self.difs.set(id, d);
                }
            },
            Undo::AttrIndex => {
                self.attr_index.pop();
            },
            Undo::AttrKey(id, old) => {
                if id < self.attrs.len() {
                    let e = AttrEntry { term: self.attrs[id].term, key: old, svar: self.attrs[id].svar };
                    self.attrs.set(id, e);
                }
            },
            Undo::NumDifPending(id) => {
                if id < self.numdifs.len() {
                    let e = NumDif { d: self.numdifs[id].d, a: self.numdifs[id].a, b: self.numdifs[id].b, pending: true };
                    self.numdifs.set(id, e);
                }
            },
            Undo::ProductPending(id) => {
                if id < self.products.len() {
                    let p = Product {
                        n: self.products[id].n,
                        kind: self.products[id].kind,
                        a: self.products[id].a,
                        b: self.products[id].b,
                        a_addr: self.products[id].a_addr,
                        b_addr: self.products[id].b_addr,
                        pending: true,
                    };
                    self.products.set(id, p);
                }
            },
            Undo::Alias(sv, prev) => {
                relink_table(&mut self.aliases, sv.0, prev);
            },
        }
        proof {
            assert(u == gu);
            let after = self.image();
            reveal(undo_image);
            let expect = undo_image(gu, before);
            assert(after.heap =~= expect.heap);
            assert(after.difs =~= expect.difs);
            assert(after.attrs =~= expect.attrs);
            assert(after.index =~= expect.index);
            assert(after.numdifs =~= expect.numdifs);
            assert(after.products =~= expect.products);
            assert(after.aliases =~= expect.aliases);
        }
    }

    /// Take back trail entries down to `mark`'s position: the image then
    /// grew from the mark's snapshot.
    fn undo_trail(&mut self, mark: &Mark)
        requires
            history_ok(old(self).image(), old(self).hist@, old(self).trail@),
            mark_ok(old(self).image(), old(self).hist@, old(self).trail@.len(), *mark),
        ensures
            final(self).simplex == old(self).simplex,
            final(self).trail@ == old(self).trail@.subrange(0, mark.trail as int),
            final(self).hist@ == old(self).hist@.subrange(0, mark.trail as int),
            image_within(old(self).image(), final(self).image()),
            image_within(final(self).image(), old(self).image()),
            image_extends(final(self).image(), mark.snap@),
    {
        let ghost h0 = self.hist@;
        let ghost t0 = self.trail@;
        let ghost n0 = t0.len();
        let ghost cur0 = self.image();
        proof {
            assert(t0.subrange(0, n0 as int) =~= t0);
            assert(h0.subrange(0, n0 as int) =~= h0);
        }
        while self.trail.len() > mark.trail
            invariant
                self.simplex == old(self).simplex,
                mark.trail <= self.trail@.len() <= n0,
                self.trail@ == t0.subrange(0, self.trail@.len() as int),
                self.hist@ == h0.subrange(0, self.trail@.len() as int),
                h0 == old(self).hist@,
                t0 == old(self).trail@,
                cur0 == old(self).image(),
                n0 == t0.len(),
                history_ok(cur0, h0, t0),
                image_within(cur0, self.image()),
                image_within(self.image(), cur0),
                self.trail@.len() == n0 ==> self.image() == cur0,
                self.trail@.len() < n0 ==> image_extends(self.image(), h0[self.trail@.len() as int]),
            decreases self.trail@.len(),
        {
            let ghost k: int = self.trail@.len() as int;
            let ghost cur = self.image();
            proof {
                assert(self.trail@.last() == t0[k - 1]);
            }
            self.undo_one();
            proof {
                lemma_undo_next(cur, self.image(), cur0, h0, t0, k);
                assert(self.trail@ =~= t0.subrange(0, self.trail@.len() as int));
                assert(self.hist@ =~= h0.subrange(0, self.trail@.len() as int));
            }
        }
        proof {
            lemma_undo_reaches_snapshot(self.image(), cur0, h0, t0, *mark);
        }
    }

    /// Restore the store to `mark`, undoing every change made since:
    /// everything the trail restores (heap slots, tree and numeric
    /// disequations, attribute entries and index, delayed products, alias
    /// links) is exactly as at the mark, and so are the solver's bounds.
    pub fn undo_to(&mut self, mark: &Mark)
        requires
            old(self).wf(),
            old(self).valid_mark(*mark),
        ensures
            final(self).wf(),
            final(self).valid_mark(*mark),
            final(self).image() == mark.snapshot(),
            final(self).slots() == mark.snapshot().heap,
            final(self).trail_len() == mark.trail_len(),
            final(self).heap_len() == mark.heap_len(),
            final(self).solver_vars() == old(self).solver_vars(),
            mark.solver_mark().snapshot().len() <= final(self).solver_vars(),
            forall|u: usize| #[trigger] final(self).solver().row_spec(u) == old(self).solver().row_spec(u),
            final(self).woken_len() == 0,
            forall|v: int| 0 <= v < final(self).solver_vars() ==>
                #[trigger] final(self).solver().bounds()[v] == solver::simplex::ext(mark.solver_mark().snapshot(), v),
            final(self).keeps_marks_upto(&*old(self), mark.position()),
            final(self).keeps_image_marks_upto(&*old(self), mark.trail_len(), mark.snapshot()),
            forall|m: Mark| old(self).valid_mark(m) && m.position() <= mark.position() && m.trail_len() <= mark.trail_len()
                && m.within(*mark) ==> #[trigger] final(self).valid_mark(m),
    {
        proof {
            self.solver().lemma_mark_snapshot(mark.solver_mark());
        }
        let ghost h0 = self.hist@;
        let ghost t0 = self.trail@;
        let ghost cur0 = self.image();
        self.undo_trail(mark);
        self.heap.truncate(mark.heap);
        self.difs.truncate(mark.difs);
        self.attrs.truncate(mark.attrs);
        self.numdifs.truncate(mark.numdifs);
        self.products.truncate(mark.products);
        self.simplex.undo_to(mark.simplex);
        self.woken.clear();
        self.touched.clear();
        proof {
            let snap = mark.snap@;
            assert(self.heap@ =~= snap.heap);
            assert(self.difs@ =~= snap.difs);
            assert(self.attrs@ =~= snap.attrs);
            assert(self.numdifs@ =~= snap.numdifs);
            assert(self.products@ =~= snap.products);
            assert(self.image() == snap);
            lemma_truncated_history(cur0, h0, t0, *mark);
        }
    }

    // --- construction ----------------------------------------------------------

    /// Record trail entry `u` for the change from `before` to the current
    /// image, which `u` takes back.
    fn record(&mut self, u: Undo, Ghost(before): Ghost<Image>)
        requires
            old(self).solver().wf(),
            history_ok(before, old(self).hist@, old(self).trail@),
            image_extends(undo_image(u, old(self).image()), before),
            image_within(before, old(self).image()),
        ensures
            final(self).wf(),
            final(self).image() == old(self).image(),
            final(self).simplex == old(self).simplex,
            final(self).trail@ == old(self).trail@.push(u),
            final(self).woken@ == old(self).woken@,
            forall|m: Mark| mark_ok(before, old(self).hist@, old(self).trail@.len(), m) ==>
                #[trigger] mark_ok(final(self).image(), final(self).history(), final(self).trail_len(), m),
    {
        let ghost h = self.hist@;
        let ghost t = self.trail@;
        let ghost after = self.image();
        proof {
            lemma_record(before, after, u, h, t);
        }
        self.hist = Ghost(self.hist@.push(before));
        self.trail.push(u);
    }

    fn push_cell(&mut self, c: Cell) -> (a: Addr)
        requires
            old(self).wf(),
        ensures
            final(self).evolves(&*old(self)),
            a == old(self).heap_len(),
            final(self).heap_len() == old(self).heap_len() + 1,
            final(self).trail_len() == old(self).trail_len(),
            final(self).cell_at(a as int) == c,
            final(self).solver_vars() == old(self).solver_vars(),
            final(self).slots().drop_last() == old(self).slots(),
            final(self).slots()[a as int].numvar is None,
            final(self).image() == (Image { heap: final(self).image().heap, ..old(self).image() }),
            final(self).solver() == old(self).solver(),
            final(self).woken_spec() == old(self).woken_spec(),
    {
        let a = self.heap.len();
        let ghost before = self.image();
        self.heap.push(Slot { cell: c, numvar: None, wake: Vec::new(), fired: false });
        proof {
            lemma_image_refl(before);
            lemma_grow(before, self.image(), self.hist@, self.trail@);
        }
        a
    }

    /// Replace the slot at `a` (recorded on the trail, flagged when the cell
    /// itself changes).
    fn put_slot(&mut self, a: Addr, new: Slot, cell_changed: bool)
        requires
            old(self).wf(),
        ensures
            final(self).evolves(&*old(self)),
            final(self).heap_len() == old(self).heap_len(),
            a < old(self).heap_len() ==> final(self).slots() == old(self).slots().update(a as int, new),
            a < old(self).heap_len() ==> final(self).image() == (Image { heap: old(self).image().heap.update(a as int, new), ..old(self).image() }),
            a >= old(self).heap_len() ==> final(self).image() == old(self).image(),
            final(self).solver() == old(self).solver(),
            final(self).woken_spec() == old(self).woken_spec(),
    {
        if a >= self.heap.len() {
            return;
        }
        let ghost before = self.image();
        let mut tmp = new;
        std::mem::swap(&mut self.heap[a], &mut tmp);
        proof {
            lemma_image_refl(before);
            assert(self.heap@ =~= before.heap.update(a as int, new));
            reveal(undo_image);
            assert(undo_image(Undo::Slot(a, tmp, cell_changed), self.image()).heap =~= before.heap);
        }
        self.record(Undo::Slot(a, tmp, cell_changed), Ghost(before));
    }

    /// A new tree disequation (pending).
    fn push_dif(&mut self, d: Dif)
        requires
            old(self).wf(),
        ensures
            final(self).evolves(&*old(self)),
            final(self).slots() == old(self).slots(),
            final(self).difs@ == old(self).difs@.push(d),
            final(self).image() == (Image { difs: old(self).image().difs.push(d), ..old(self).image() }),
            final(self).solver() == old(self).solver(),
            final(self).woken_len() == old(self).woken_len(),
    {
        let ghost before = self.image();
        self.difs.push(d);
        proof {
            lemma_image_refl(before);
            lemma_grow(before, self.image(), self.hist@, self.trail@);
        }
    }

    /// A new attribute entry.
    fn push_attr(&mut self, e: AttrEntry)
        requires
            old(self).wf(),
        ensures
            final(self).evolves(&*old(self)),
            final(self).slots() == old(self).slots(),
            final(self).image() == (Image { attrs: old(self).image().attrs.push(e), ..old(self).image() }),
            final(self).solver() == old(self).solver(),
    {
        let ghost before = self.image();
        self.attrs.push(e);
        proof {
            lemma_image_refl(before);
            lemma_grow(before, self.image(), self.hist@, self.trail@);
        }
    }

    /// A new numeric disequation.
    fn push_numdif(&mut self, nd: NumDif)
        requires
            old(self).wf(),
        ensures
            final(self).evolves(&*old(self)),
            final(self).slots() == old(self).slots(),
            final(self).numdifs@ == old(self).numdifs@.push(nd),
    {
        let ghost before = self.image();
        self.numdifs.push(nd);
        proof {
            lemma_image_refl(before);
            lemma_grow(before, self.image(), self.hist@, self.trail@);
        }
    }

    /// A new delayed product.
    fn push_product(&mut self, p: Product)
        requires
            old(self).wf(),
        ensures
            final(self).evolves(&*old(self)),
            final(self).slots() == old(self).slots(),
            final(self).image() == (Image { products: old(self).image().products.push(p), ..old(self).image() }),
            final(self).solver() == old(self).solver(),
    {
        let ghost before = self.image();
        self.products.push(p);
        proof {
            lemma_image_refl(before);
            lemma_grow(before, self.image(), self.hist@, self.trail@);
        }
    }

    /// A tree disequation is decided: no longer pending (recorded).
    fn retire_dif(&mut self, id: usize)
        requires
            old(self).wf(),
        ensures
            final(self).evolves(&*old(self)),
            final(self).slots() == old(self).slots(),
            id < old(self).image().difs.len() ==> final(self).image() == (Image {
                difs: old(self).image().difs.update(id as int, (Dif {
                    a: old(self).image().difs[id as int].a,
                    b: old(self).image().difs[id as int].b,
                    pending: false,
                })),
                ..old(self).image()
            }),
            id >= old(self).image().difs.len() ==> final(self).image() == old(self).image(),
            final(self).solver() == old(self).solver(),
            final(self).woken_len() == old(self).woken_len(),
    {
        if id < self.difs.len() && self.difs[id].pending {
            let ghost before = self.image();
            let d = Dif { a: self.difs[id].a, b: self.difs[id].b, pending: false };
            self.difs.set(id, d);
            proof {
                lemma_image_refl(before);
                reveal(undo_image);
                assert(undo_image(Undo::DifPending(id), self.image()).difs =~= before.difs);
            }
            self.record(Undo::DifPending(id), Ghost(before));
        }
    }

    /// A numeric disequation is decided: no longer pending (recorded).
    fn retire_numdif(&mut self, id: usize)
        requires
            old(self).wf(),
        ensures
            final(self).evolves(&*old(self)),
            final(self).slots() == old(self).slots(),
            id < old(self).image().numdifs.len() ==> final(self).image() == (Image {
                numdifs: old(self).image().numdifs.update(id as int, (NumDif {
                    d: old(self).image().numdifs[id as int].d,
                    a: old(self).image().numdifs[id as int].a,
                    b: old(self).image().numdifs[id as int].b,
                    pending: false,
                })),
                ..old(self).image()
            }),
            id >= old(self).image().numdifs.len() ==> final(self).image() == old(self).image(),
            final(self).solver() == old(self).solver(),
    {
        if id < self.numdifs.len() && self.numdifs[id].pending {
            let ghost before = self.image();
            let e = NumDif { d: self.numdifs[id].d, a: self.numdifs[id].a, b: self.numdifs[id].b, pending: false };
            self.numdifs.set(id, e);
            proof {
                lemma_image_refl(before);
                reveal(undo_image);
                assert(undo_image(Undo::NumDifPending(id), self.image()).numdifs =~= before.numdifs);
            }
            self.record(Undo::NumDifPending(id), Ghost(before));
        }
    }

    /// A delayed product is linearised: no longer pending (recorded).
    fn retire_product(&mut self, id: usize)
        requires
            old(self).wf(),
        ensures
            final(self).evolves(&*old(self)),
            final(self).slots() == old(self).slots(),
            id < old(self).image().products.len() ==> final(self).image() == (Image {
                products: old(self).image().products.update(id as int, (Product {
                    n: old(self).image().products[id as int].n,
                    kind: old(self).image().products[id as int].kind,
                    a: old(self).image().products[id as int].a,
                    b: old(self).image().products[id as int].b,
                    a_addr: old(self).image().products[id as int].a_addr,
                    b_addr: old(self).image().products[id as int].b_addr,
                    pending: false,
                })),
                ..old(self).image()
            }),
            id >= old(self).image().products.len() ==> final(self).image() == old(self).image(),
            final(self).solver() == old(self).solver(),
    {
        if id < self.products.len() && self.products[id].pending {
            let ghost before = self.image();
            let p = Product {
                n: self.products[id].n,
                kind: self.products[id].kind,
                a: self.products[id].a,
                b: self.products[id].b,
                a_addr: self.products[id].a_addr,
                b_addr: self.products[id].b_addr,
                pending: false,
            };
            self.products.set(id, p);
            proof {
                lemma_image_refl(before);
                reveal(undo_image);
                assert(undo_image(Undo::ProductPending(id), self.image()).products =~= before.products);
            }
            self.record(Undo::ProductPending(id), Ghost(before));
        }
    }

    /// Replace the key of attribute entry `id` (recorded).
    fn set_attr_key(&mut self, id: usize, key: Vec<KeyElem>)
        requires
            old(self).wf(),
        ensures
            final(self).evolves(&*old(self)),
            final(self).slots() == old(self).slots(),
            id < old(self).image().attrs.len() ==> final(self).image() == (Image {
                attrs: old(self).image().attrs.update(id as int, (AttrEntry {
                    term: old(self).image().attrs[id as int].term,
                    key: key,
                    svar: old(self).image().attrs[id as int].svar,
                })),
                ..old(self).image()
            }),
            id >= old(self).image().attrs.len() ==> final(self).image() == old(self).image(),
            final(self).solver() == old(self).solver(),
    {
        if id < self.attrs.len() {
            let ghost before = self.image();
            let mut tmp = AttrEntry { term: self.attrs[id].term, key, svar: self.attrs[id].svar };
            std::mem::swap(&mut self.attrs[id], &mut tmp);
            let old_key = tmp.key;
            proof {
                lemma_image_refl(before);
                reveal(undo_image);
                assert(undo_image(Undo::AttrKey(id, old_key), self.image()).attrs =~= before.attrs);
            }
            self.record(Undo::AttrKey(id, old_key), Ghost(before));
        }
    }

    /// A fresh unbound variable.
    pub fn new_var(&mut self) -> (a: Addr)
        requires
            old(self).wf(),
        ensures
            final(self).evolves(&*old(self)),
            a == old(self).heap_len(),
            final(self).heap_len() == old(self).heap_len() + 1,
            final(self).solver_vars() == old(self).solver_vars(),
            final(self).cell_at(a as int) == Cell::Var(a),
            final(self).slots().drop_last() == old(self).slots(),
            final(self).slots()[a as int].numvar is None,
            final(self).image() == (Image { heap: final(self).image().heap, ..old(self).image() }),
            final(self).solver() == old(self).solver(),
    {
        let a = self.heap.len();
        self.push_cell(Cell::Var(a))
    }

    pub fn new_const(&mut self, s: Symbol) -> (a: Addr)
        requires
            old(self).wf(),
        ensures
            final(self).evolves(&*old(self)),
            a == old(self).heap_len(),
            final(self).heap_len() == old(self).heap_len() + 1,
            final(self).solver_vars() == old(self).solver_vars(),
            final(self).cell_at(a as int) == Cell::Const(s),
            final(self).slots().drop_last() == old(self).slots(),
            final(self).slots()[a as int].numvar is None,
            final(self).image() == (Image { heap: final(self).image().heap, ..old(self).image() }),
            final(self).solver() == old(self).solver(),
            old(self).quiescent() ==> final(self).quiescent(),
    {
        let a = self.push_cell(Cell::Const(s));
        proof {
            if old(self).quiescent() {
                assert forall|x: int| 0 <= x < self.heap_len() && !(#[trigger] self.slots()[x]).fired
                    && self.slots()[x].cell == Cell::Var(x as usize) && self.slots()[x].numvar is Some
                    implies exhibited(self.solver(), self.slots()[x].numvar.unwrap().0) is None by {
                    if x < old(self).heap_len() {
                        assert(self.slots().drop_last()[x] == self.slots()[x]);
                        assert(old(self).slots()[x] == self.slots()[x]);
                    }
                }
                assert(self.image().numdifs == old(self).image().numdifs);
                assert(self.image().products == old(self).image().products);
            }
        }
        a
    }

    pub fn new_num(&mut self, n: Number) -> (a: Addr)
        requires
            old(self).wf(),
        ensures
            final(self).evolves(&*old(self)),
            a == old(self).heap_len(),
            final(self).heap_len() == old(self).heap_len() + 1,
            final(self).solver_vars() == old(self).solver_vars(),
            final(self).cell_at(a as int) == Cell::Num(n),
            final(self).slots().drop_last() == old(self).slots(),
            final(self).slots()[a as int].numvar is None,
            final(self).image() == (Image { heap: final(self).image().heap, ..old(self).image() }),
            final(self).solver() == old(self).solver(),
    {
        self.push_cell(Cell::Num(n))
    }

    pub fn new_struct(&mut self, f: Symbol, args: Vec<Addr>) -> (a: Addr)
        requires
            old(self).wf(),
        ensures
            final(self).evolves(&*old(self)),
            a == old(self).heap_len(),
            final(self).heap_len() == old(self).heap_len() + 1,
            final(self).solver_vars() == old(self).solver_vars(),
            final(self).cell_at(a as int) == Cell::Struct(f, args),
            final(self).slots().drop_last() == old(self).slots(),
            final(self).slots()[a as int].numvar is None,
            final(self).image() == (Image { heap: final(self).image().heap, ..old(self).image() }),
            final(self).solver() == old(self).solver(),
    {
        self.push_cell(Cell::Struct(f, args))
    }

    // --- inspection --------------------------------------------------------------

    /// The number of cells on the heap.
    pub fn len(&self) -> (n: usize)
        ensures
            n == self.heap_len(),
    {
        self.heap.len()
    }

    /// The number of entries on the trail.
    pub fn trail_size(&self) -> (n: usize)
        ensures
            n == self.trail_len(),
    {
        self.trail.len()
    }

    /// Follow variable bindings and forwarding to the representative cell.
    pub fn deref(&self, a: Addr) -> (r: Addr)
        ensures
            r == deref_chain(self.slots(), a as int, self.heap_len()),
            a < self.heap_len() ==> r < self.heap_len(),
            a >= self.heap_len() ==> r == a,
    {
        if a >= self.heap.len() {
            return a;
        }
        let mut cur = a;
        let mut steps: usize = self.heap.len();
        loop
            invariant
                cur < self.heap@.len(),
                a < self.heap@.len(),
                deref_chain(self.heap@, cur as int, steps as nat) == deref_chain(self.heap@, a as int, self.heap@.len()),
            decreases steps,
        {
            match &self.heap[cur].cell {
                Cell::Var(t) => {
                    if *t != cur && *t < self.heap.len() && steps > 0 {
                        cur = *t;
                        steps = steps - 1;
                    } else {
                        return cur;
                    }
                },
                _ => {
                    return cur;
                },
            }
        }
    }

    /// The cell at `a` (not dereferenced).
    pub fn cell(&self, a: Addr) -> (c: &Cell)
        requires
            a < self.heap_len(),
        ensures
            *c == self.cell_at(a as int),
    {
        &self.heap[a].cell
    }

    pub(crate) fn is_unbound_var(&self, a: Addr) -> (b: bool)
        ensures
            b == (a < self.heap_len() && self.cell_at(a as int) == Cell::Var(a)),
    {
        if a < self.heap.len() {
            match &self.heap[a].cell {
                Cell::Var(t) => *t == a,
                _ => false,
            }
        } else {
            false
        }
    }

    /// The solver variable of a numeric heap variable.
    pub(crate) fn numvar_of(&self, a: Addr) -> (r: Option<SVar>)
        ensures
            r == (if a < self.heap_len() { self.slots()[a as int].numvar } else { None }),
    {
        if a < self.heap.len() {
            self.heap[a].numvar
        } else {
            None
        }
    }

    /// The addresses of the pending tree disequations.
    pub fn pending_difs(&self) -> (r: Vec<(Addr, Addr)>)
        ensures
            r@ == pending_pairs(self.image().difs),
    {
        let mut out: Vec<(Addr, Addr)> = Vec::new();
        let mut i: usize = 0;
        while i < self.difs.len()
            invariant
                i <= self.difs@.len(),
                out@ == pending_pairs(self.difs@.take(i as int)),
            decreases self.difs@.len() - i,
        {
            proof {
                assert(self.difs@.take(i + 1).drop_last() =~= self.difs@.take(i as int));
            }
            if self.difs[i].pending {
                out.push((self.difs[i].a, self.difs[i].b));
            }
            i = i + 1;
        }
        proof {
            assert(self.difs@.take(self.difs@.len() as int) =~= self.difs@);
        }
        out
    }

    // --- primitive mutations (all trailed) -----------------------------------------

    fn copy_slot(&self, a: Addr) -> (s: Slot)
        requires
            a < self.heap_len(),
        ensures
            slot_is(s, self.slots()[a as int].cell, self.slots()[a as int].numvar, self.slots()[a as int].wake@,
                self.slots()[a as int].fired),
    {
        let t = &self.heap[a];
        let cell = match &t.cell {
            Cell::Var(x) => Cell::Var(*x),
            Cell::Const(c) => Cell::Const(*c),
            Cell::Num(n) => Cell::Num(n.copy()),
            Cell::Struct(f, args) => {
                let xs = args.clone();
                assert(xs@ =~= args@);
                Cell::Struct(*f, xs)
            },
        };
        let w = t.wake.clone();
        assert(w@ =~= t.wake@);
        Slot { cell, numvar: t.numvar, wake: w, fired: t.fired }
    }

    fn set(&mut self, a: Addr, new: Cell)
        requires
            old(self).wf(),
        ensures
            final(self).evolves(&*old(self)),
            final(self).heap_len() == old(self).heap_len(),
            heap_slot_changed(final(self).image(), old(self).image(), a as int, |t: Slot| slot_is(t, new,
                old(self).slots()[a as int].numvar, old(self).slots()[a as int].wake@, old(self).slots()[a as int].fired)),
            final(self).solver() == old(self).solver(),
            final(self).woken_spec() == old(self).woken_spec(),
    {
        if a < self.heap.len() {
            let mut slot = self.copy_slot(a);
            slot.cell = new;
            self.put_slot(a, slot, true);
        }
    }

    fn fire(&mut self, v: Addr)
        requires
            old(self).wf(),
        ensures
            final(self).evolves(&*old(self)),
            final(self).heap_len() == old(self).heap_len(),
            final(self).slots() == old(self).slots(),
            final(self).woken_spec() == (if v < old(self).heap_len() {
                old(self).woken_spec() + old(self).slots()[v as int].wake@
            } else {
                old(self).woken_spec()
            }),
            final(self).image() == old(self).image(),
            final(self).solver() == old(self).solver(),
    {
        if v < self.heap.len() {
            let n = self.heap[v].wake.len();
            let mut i: usize = 0;
            while i < n
                invariant
                    self.simplex == old(self).simplex,
                    self.image() == old(self).image(),
                    self.trail@ == old(self).trail@,
                    self.hist@ == old(self).hist@,
                    v < self.heap@.len(),
                    n == self.heap@[v as int].wake@.len(),
                    i <= n,
                    self.woken@ == old(self).woken@ + self.heap@[v as int].wake@.take(i as int),
                decreases n - i,
            {
                self.woken.push(self.heap[v].wake[i]);
                i = i + 1;
                assert(self.heap@[v as int].wake@.take(i as int) =~= self.heap@[v as int].wake@.take(i - 1).push(self.heap@[v as int].wake@[i - 1]));
            }
            assert(self.heap@[v as int].wake@.take(n as int) =~= self.heap@[v as int].wake@);
        }
    }

    fn set_numvar(&mut self, v: Addr, sv: SVar)
        requires
            old(self).wf(),
        ensures
            final(self).evolves(&*old(self)),
            final(self).heap_len() == old(self).heap_len(),
            heap_slot_changed(final(self).image(), old(self).image(), v as int, |t: Slot| slot_is(t,
                old(self).slots()[v as int].cell, Some(sv), old(self).slots()[v as int].wake@, old(self).slots()[v as int].fired)),
            final(self).solver() == old(self).solver(),
    {
        if v < self.heap.len() {
            let mut slot = self.copy_slot(v);
            slot.numvar = Some(sv);
            self.put_slot(v, slot, false);
        }
    }

    fn suspend(&mut self, w: Waker, v: Addr)
        requires
            old(self).wf(),
        ensures
            final(self).evolves(&*old(self)),
            final(self).heap_len() == old(self).heap_len(),
            heap_slot_changed(final(self).image(), old(self).image(), v as int, |t: Slot|
                if old(self).slots()[v as int].wake@.contains(w) {
                    t == old(self).slots()[v as int]
                } else {
                    slot_is(t, old(self).slots()[v as int].cell, old(self).slots()[v as int].numvar,
                        old(self).slots()[v as int].wake@.push(w), old(self).slots()[v as int].fired)
                }),
            final(self).solver() == old(self).solver(),
    {
        if v < self.heap.len() {
            let mut dup = false;
            let n = self.heap[v].wake.len();
            let mut i: usize = 0;
            while i < n
                invariant
                    v < self.heap@.len(),
                    n == self.heap@[v as int].wake@.len(),
                    i <= n,
                    dup == exists|k: int| 0 <= k < i && self.heap@[v as int].wake@[k] == w,
                decreases n - i,
            {
                if self.heap[v].wake[i] == w {
                    dup = true;
                }
                i = i + 1;
            }
            assert(dup == self.heap@[v as int].wake@.contains(w));
            if !dup {
                let mut slot = self.copy_slot(v);
                slot.wake.push(w);
                self.put_slot(v, slot, false);
            }
        }
    }

    fn set_def(&mut self, s: SVar, e: LinExpr)
        requires
            old(self).wf(),
        ensures
            final(self).evolves(&*old(self)),
            final(self).heap_len() == old(self).heap_len(),
            final(self).defs_spec().len() == (if s.0 < old(self).defs_spec().len() { old(self).defs_spec().len() as int } else { s.0 + 1 }),
            final(self).defs_spec()[s.0 as int] == Some(e),
            forall|i: int| 0 <= i < final(self).defs_spec().len() && i != s.0 ==> #[trigger] final(self).defs_spec()[i]
                == (if i < old(self).defs_spec().len() { old(self).defs_spec()[i] } else { None }),
            final(self).image() == old(self).image(),
            final(self).solver() == old(self).solver(),
    {
        while self.defs.len() <= s.0
            invariant
                self.simplex == old(self).simplex,
                self.image() == old(self).image(),
                self.trail@ == old(self).trail@,
                self.hist@ == old(self).hist@,
                self.defs@.len() >= old(self).defs@.len(),
                self.defs@.len() <= old(self).defs@.len() || self.defs@.len() <= s.0 + 1,
                forall|i: int| 0 <= i < self.defs@.len() ==> #[trigger] self.defs@[i]
                    == (if i < old(self).defs@.len() { old(self).defs@[i] } else { None }),
            decreases s.0 + 1 - self.defs@.len(),
        {
            self.defs.push(None);
        }
        self.defs.set(s.0, Some(e));
    }

    /// The definition of a defined solver variable, if it has one.
    pub(crate) fn def_of(&self, s: SVar) -> (r: Option<&LinExpr>)
        ensures
            r matches Some(e) ==> s.0 < self.defs_spec().len() && self.defs_spec()[s.0 as int] == Some(*e),
            r is None ==> !(s.0 < self.defs_spec().len() && self.defs_spec()[s.0 as int] is Some),
    {
        if s.0 < self.defs.len() {
            match &self.defs[s.0] {
                Some(e) => Some(e),
                None => None,
            }
        } else {
            None
        }
    }

    /// The alias link of `s`, if any.
    fn alias_of(&self, s: SVar) -> (r: Option<SVar>)
        ensures
            r == alias_link(self.image().aliases, s.0),
    {
        if s.0 < self.aliases.len() {
            self.aliases[s.0]
        } else {
            None
        }
    }

    fn set_alias(&mut self, child: SVar, parent: SVar)
        requires
            old(self).wf(),
        ensures
            final(self).evolves(&*old(self)),
            final(self).heap_len() == old(self).heap_len(),
            final(self).image() == (Image { aliases: old(self).image().aliases.insert(child.0, parent), ..old(self).image() }),
            final(self).solver() == old(self).solver(),
    {
        let ghost before = self.image();
        let prev = self.alias_of(child);
        relink_table(&mut self.aliases, child.0, Some(parent));
        proof {
            lemma_image_refl(before);
            reveal(undo_image);
            assert(relink(relink(before.aliases, child.0, Some(parent)), child.0, prev) =~= before.aliases);
        }
        self.record(Undo::Alias(child, prev), Ghost(before));
    }

    /// How many alias links the table can hold.
    pub closed spec fn alias_len(&self) -> nat {
        self.aliases@.len()
    }

    /// Representative of a solver variable's alias class.
    pub(crate) fn root(&self, sv: SVar) -> (r: SVar)
        ensures
            r == alias_root(self.image().aliases, sv, self.alias_len()),
    {
        let mut cur = sv;
        let mut steps: usize = self.aliases.len();
        while steps > 0
            invariant
                alias_root(self.image().aliases, sv, self.alias_len()) == alias_root(self.image().aliases, cur, steps as nat),
            decreases steps,
        {
            match self.alias_of(cur) {
                Some(p) => {
                    cur = p;
                    steps = steps - 1;
                },
                None => {
                    assert(alias_root(self.image().aliases, cur, steps as nat) == cur);
                    return cur;
                },
            }
        }
        cur
    }

    /// Mark the start of a query: what exists now is the world.
    pub(crate) fn set_baseline(&mut self)
        requires
            old(self).wf(),
        ensures
            final(self).evolves(&*old(self)),
            final(self).baselines() == (old(self).image().attrs.len(), old(self).image().numdifs.len()),
            final(self).image() == old(self).image(),
            final(self).solver() == old(self).solver(),
    {
        self.baseline_attrs = self.attrs.len();
        self.baseline_numdifs = self.numdifs.len();
    }

    // --- numeric inspection ------------------------------------------------------

    /// The number of solver variables.
    pub(crate) fn num_solver_vars(&self) -> (n: usize)
        requires
            self.wf(),
        ensures
            n == self.solver_vars(),
    {
        self.simplex.num_vars()
    }

    /// The lower bound of a solver variable, if any.
    pub(crate) fn lower_bound(&self, v: SVar) -> (r: Option<&Delta>)
        requires
            self.wf(),
        ensures
            r is Some == (v.0 < self.solver_vars() && self.solver().bounds()[v.0 as int].0 is Some),
            r matches Some(d) ==> self.solver().bounds()[v.0 as int].0 == Some(d@),
    {
        if v.0 < self.simplex.num_vars() {
            self.simplex.lower(v)
        } else {
            None
        }
    }

    /// The upper bound of a solver variable, if any.
    pub(crate) fn upper_bound(&self, v: SVar) -> (r: Option<&Delta>)
        requires
            self.wf(),
        ensures
            r is Some == (v.0 < self.solver_vars() && self.solver().bounds()[v.0 as int].1 is Some),
            r matches Some(d) ==> self.solver().bounds()[v.0 as int].1 == Some(d@),
    {
        if v.0 < self.simplex.num_vars() {
            self.simplex.upper(v)
        } else {
            None
        }
    }

    /// A value the solver already exhibits as fixed without probing:
    /// coinciding exact bounds, or a basic row whose variables all have such
    /// values.
    pub(crate) fn cheap_value(&self, sv: SVar) -> (r: Option<Number>)
        requires
            self.wf(),
        ensures
            r matches Some(n) ==> exhibited(self.solver(), sv.0) == Some(n@),
            r is None ==> exhibited(self.solver(), sv.0) is None,
    {
        if sv.0 >= self.simplex.num_vars() {
            return None;
        }
        match (self.simplex.lower(sv), self.simplex.upper(sv)) {
            (Some(l), Some(u)) => {
                if l.equals(u) && l.is_exact() {
                    return Some(l.c.copy());
                }
            },
            _ => {},
        }
        let row = match self.simplex.row(sv) {
            Some(r) => r,
            None => {
                return None;
            },
        };
        let mut acc = row.constant_part().copy();
        let ghost e = row@;
        proof {
            self.simplex.lemma_bounds_len();
        }
        let mut j: usize = 0;
        while j < row.num_terms()
            invariant
                self.wf(),
                j <= row@.0.len(),
                e == row@,
                pinned_sum(self.solver().bounds(), e.0, j as int, e.1) == Some(acc@),
                exhibited(self.solver(), sv.0) == pinned_sum(self.solver().bounds(), e.0, e.0.len() as int, e.1),
            decreases row@.0.len() - j,
        {
            let (v, a) = row.term(j);
            if v.0 >= self.simplex.num_vars() {
                proof {
                    self.simplex.lemma_bounds_len();
                    lemma_pinned_none(self.solver().bounds(), e.0, j + 1, e.0.len() as int, e.1);
                }
                return None;
            }
            match (self.simplex.lower(v), self.simplex.upper(v)) {
                (Some(l), Some(u)) => {
                    if !l.equals(u) || !l.is_exact() {
                        proof {
                            lemma_pinned_none(self.solver().bounds(), e.0, j + 1, e.0.len() as int, e.1);
                        }
                        return None;
                    }
                    proof {
                        self.simplex.lemma_bounds_len();
                        assert(pinned(self.solver().bounds()[v.0 as int]) == Some(l.c@));
                    }
                    acc = acc.plus(&l.c.times(a));
                },
                _ => {
                    proof {
                        lemma_pinned_none(self.solver().bounds(), e.0, j + 1, e.0.len() as int, e.1);
                    }
                    return None;
                },
            }
            j = j + 1;
        }
        Some(acc)
    }

    /// The fixed value of an alias class, if the solver exhibits one.
    pub(crate) fn class_value(&self, sv: SVar) -> (c: Option<Number>)
        requires
            self.wf(),
        ensures
            c matches Some(x) ==> class_value_from(self.solver(), self.image().aliases, self.alias_len(),
                alias_root(self.image().aliases, sv, self.alias_len()), 0, self.solver_vars()) == Some(x@),
            c is None ==> class_value_from(self.solver(), self.image().aliases, self.alias_len(),
                alias_root(self.image().aliases, sv, self.alias_len()), 0, self.solver_vars()) is None,
    {
        let r = self.root(sv);
        let n = self.simplex.num_vars();
        let ghost m = self.image().aliases;
        let ghost st = self.alias_len();
        let mut v: usize = 0;
        while v < n
            invariant
                self.wf(),
                n == self.solver_vars(),
                m == self.image().aliases,
                st == self.alias_len(),
                r == alias_root(m, sv, st),
                class_value_from(self.solver(), m, st, r, 0, n as nat) == class_value_from(self.solver(), m, st, r, v as nat, n as nat),
            decreases n - v,
        {
            if self.root(SVar(v)) == r {
                if let Some(c) = self.cheap_value(SVar(v)) {
                    return Some(c);
                }
            }
            v = v + 1;
        }
        None
    }

    /// Combined bounds of an alias class (tightest of its members).
    pub(crate) fn class_bounds(&self, sv: SVar) -> (b: (Option<Delta>, Option<Delta>))
        requires
            self.wf(),
        ensures
            solver::simplex::opt_view(b.0) == tightest_lower(self.solver(), self.image().aliases, self.alias_len(),
                alias_root(self.image().aliases, sv, self.alias_len()), self.solver_vars()),
            solver::simplex::opt_view(b.1) == tightest_upper(self.solver(), self.image().aliases, self.alias_len(),
                alias_root(self.image().aliases, sv, self.alias_len()), self.solver_vars()),
    {
        let r = self.root(sv);
        let ghost m = self.image().aliases;
        let ghost st = self.alias_len();
        let mut lower: Option<Delta> = None;
        let mut upper: Option<Delta> = None;
        let n = self.simplex.num_vars();
        let mut v: usize = 0;
        proof {
            self.simplex.lemma_bounds_len();
        }
        while v < n
            invariant
                self.wf(),
                n == self.simplex.num_vars_spec(),
                n == self.solver().bounds().len(),
                v <= n,
                m == self.image().aliases,
                st == self.alias_len(),
                r == alias_root(m, sv, st),
                solver::simplex::opt_view(lower) == tightest_lower(self.solver(), m, st, r, v as nat),
                solver::simplex::opt_view(upper) == tightest_upper(self.solver(), m, st, r, v as nat),
            decreases n - v,
        {
            if self.root(SVar(v)) == r {
                if let Some(l) = self.simplex.lower(SVar(v)) {
                    let tighter = match &lower {
                        None => true,
                        Some(cur) => cur.less_than(l),
                    };
                    if tighter {
                        lower = Some(l.copy());
                    }
                }
                if let Some(u) = self.simplex.upper(SVar(v)) {
                    let tighter = match &upper {
                        None => true,
                        Some(cur) => u.less_than(cur),
                    };
                    if tighter {
                        upper = Some(u.copy());
                    }
                }
            }
            v = v + 1;
        }
        (lower, upper)
    }

    /// A row defining some member of `sv`'s alias class, if any is basic.
    pub(crate) fn class_row(&self, sv: SVar) -> (e: Option<&LinExpr>)
        requires
            self.wf(),
        ensures
            e matches Some(x) ==> class_row_from(self.solver(), self.image().aliases, self.alias_len(),
                alias_root(self.image().aliases, sv, self.alias_len()), 0, self.solver_vars()) == Some(x@),
            e is None ==> class_row_from(self.solver(), self.image().aliases, self.alias_len(),
                alias_root(self.image().aliases, sv, self.alias_len()), 0, self.solver_vars()) is None,
    {
        let r = self.root(sv);
        let ghost m = self.image().aliases;
        let ghost st = self.alias_len();
        let n = self.simplex.num_vars();
        let mut v: usize = 0;
        while v < n
            invariant
                self.wf(),
                n == self.simplex.num_vars_spec(),
                n == self.solver_vars(),
                m == self.image().aliases,
                st == self.alias_len(),
                r == alias_root(m, sv, st),
                class_row_from(self.solver(), m, st, r, 0, n as nat) == class_row_from(self.solver(), m, st, r, v as nat, n as nat),
            decreases n - v,
        {
            if self.root(SVar(v)) == r {
                if let Some(row) = self.simplex.row(SVar(v)) {
                    return Some(row);
                }
            }
            v = v + 1;
        }
        None
    }

    // --- solver plumbing -----------------------------------------------------------

    fn fresh_svar(&mut self) -> (v: SVar)
        requires
            old(self).wf(),
        ensures
            final(self).evolves(&*old(self)),
            final(self).heap_len() == old(self).heap_len(),
            v.0 == old(self).solver_vars(),
            final(self).solver_vars() == old(self).solver_vars() + 1,
            final(self).solver().bounds() == old(self).solver().bounds().push((None, None)),
            final(self).image() == old(self).image(),
    {
        self.simplex.new_var()
    }

    /// Pin a solver variable to a value. False if inconsistent.
    fn fix(&mut self, sv: SVar, c: Number) -> (ok: bool)
        requires
            old(self).wf(),
        ensures
            final(self).evolves(&*old(self)),
            final(self).heap_len() == old(self).heap_len(),
            final(self).image() == old(self).image(),
            sv.0 >= old(self).solver_vars() ==> !ok && *final(self) == *old(self),
            ok ==> (final(self).solver().bounds()[sv.0 as int].0 matches Some(l) && delta_le((c@, (0int, 1int)), l)),
            ok ==> (final(self).solver().bounds()[sv.0 as int].1 matches Some(u) && delta_le(u, (c@, (0int, 1int)))),
            sv.0 < old(self).solver_vars() && (old(self).solver().bounds()[sv.0 as int].1 matches Some(u)
                && delta_lt(u, (c@, (0int, 1int)))) ==> !ok,
            sv.0 < old(self).solver_vars() && (old(self).solver().bounds()[sv.0 as int].0 matches Some(l)
                && delta_lt((c@, (0int, 1int)), l)) ==> !ok,
            sv.0 < old(self).solver_vars() && old(self).solver().bounds()[sv.0 as int]
                == (Some((c@, (0int, 1int))), Some((c@, (0int, 1int)))) ==> ok && final(self).solver().bounds() == old(self).solver().bounds(),
    {
        if sv.0 >= self.simplex.num_vars() {
            return false;
        }
        self.simplex.fix(sv, c)
    }

    /// Exact determination by probing the solver.
    fn determined(&mut self, sv: SVar) -> (r: Option<Number>)
        requires
            old(self).wf(),
        ensures
            final(self).evolves(&*old(self)),
            final(self).heap_len() == old(self).heap_len(),
            final(self).image() == old(self).image(),
            final(self).solver().bounds() == old(self).solver().bounds(),
            sv.0 >= old(self).solver_vars() ==> r is None,
            sv.0 < old(self).solver_vars() && old(self).solver().satisfied() && old(self).solver().bounds()[sv.0 as int].0 is Some
                && old(self).solver().bounds()[sv.0 as int].0 == old(self).solver().bounds()[sv.0 as int].1 ==> {
                let d = old(self).solver().bounds()[sv.0 as int].0->0;
                &&& d.1.0 == 0 ==> (r matches Some(x) && x@ == d.0)
                &&& d.1.0 != 0 ==> r is None
            },
    {
        if sv.0 >= self.simplex.num_vars() {
            return None;
        }
        self.simplex.is_determined(sv)
    }

    /// Assert `e op 0` directly in the solver.
    fn assert_raw(&mut self, e: &LinExpr, op: solver::RelOp) -> (ok: bool)
        requires
            old(self).wf(),
        ensures
            final(self).evolves(&*old(self)),
            final(self).heap_len() == old(self).heap_len(),
            final(self).image() == old(self).image(),
            !in_range(*e, old(self).solver_vars()) ==> !ok && *final(self) == *old(self),
            e@.0.len() == 0 ==> *final(self) == *old(self),
            e@.0.len() == 0 ==> final(self).solver().bounds() == old(self).solver().bounds() && ok == (match op {
                solver::RelOp::Lt => rat_lt((0int, 1int), rat_neg(e@.1)),
                solver::RelOp::Le => rat_le((0int, 1int), rat_neg(e@.1)),
                solver::RelOp::Eq => (0int, 1int) == rat_neg(e@.1),
                solver::RelOp::Ge => rat_le(rat_neg(e@.1), (0int, 1int)),
                solver::RelOp::Gt => rat_lt(rat_neg(e@.1), (0int, 1int)),
            }),
    {
        if !fits(e, self.simplex.num_vars()) {
            return false;
        }
        self.simplex.assert_constraint(e, op)
    }

    /// A fresh slack variable standing for `e`, its definition recorded.
    fn slack_for(&mut self, e: LinExpr) -> (r: Option<SVar>)
        requires
            old(self).wf(),
        ensures
            final(self).evolves(&*old(self)),
            final(self).heap_len() == old(self).heap_len(),
            final(self).image() == old(self).image(),
            r is Some == in_range(e, old(self).solver_vars()),
            r is None ==> *final(self) == *old(self),
            r matches Some(s) ==> s.0 == old(self).solver_vars() && final(self).solver_vars() == old(self).solver_vars() + 1
                && final(self).solver().bounds() == old(self).solver().bounds().push((None, None))
                && final(self).defs_spec()[s.0 as int] == Some(e),
    {
        if !fits(&e, self.simplex.num_vars()) {
            return None;
        }
        let s = self.simplex.slack(&e);
        self.set_def(s, e);
        Some(s)
    }

    /// A solver variable standing for a linear expression (itself if it is a
    /// bare variable, else a defined slack).
    fn linear_var(&mut self, e: LinExpr) -> (r: Option<SVar>)
        requires
            old(self).wf(),
        ensures
            final(self).evolves(&*old(self)),
            final(self).heap_len() == old(self).heap_len(),
            final(self).image() == old(self).image(),
            e@.0.len() == 1 && e@.0[0].1 == (1int, 1int) && e@.1.0 == 0 ==> r == Some(SVar(e@.0[0].0)) && *final(self) == *old(self),
            !(e@.0.len() == 1 && e@.0[0].1 == (1int, 1int) && e@.1.0 == 0) ==> {
                &&& r is Some == in_range(e, old(self).solver_vars())
                &&& r matches Some(s) ==> s.0 == old(self).solver_vars() && final(self).defs_spec()[s.0 as int] == Some(e)
            },
    {
        if let Some(v) = e.as_var() {
            return Some(v);
        }
        self.slack_for(e)
    }

    /// A fresh numeric heap variable defined as `e`.
    fn define_fresh(&mut self, e: LinExpr) -> (r: Option<Addr>)
        requires
            old(self).wf(),
        ensures
            final(self).evolves(&*old(self)),
            final(self).heap_len() >= old(self).heap_len(),
            r is Some == in_range(e, old(self).solver_vars()),
            r is None ==> *final(self) == *old(self),
            r matches Some(a) ==> {
                &&& a == old(self).heap_len()
                &&& final(self).heap_len() == old(self).heap_len() + 1
                &&& cell_alike(final(self).cell_at(a as int), Cell::Var(a))
                &&& final(self).slots()[a as int].numvar == Some(SVar(old(self).solver_vars() as usize))
                &&& final(self).solver_vars() == old(self).solver_vars() + 1
                &&& final(self).defs_spec()[old(self).solver_vars() as int] == Some(e)
            },
    {
        let before = self.simplex.num_vars();
        if !fits(&e, before) {
            return None;
        }
        let n_addr = self.new_var();
        let ghost st1: Store = *self;
        let ghost s1 = self.simplex;
        let n = self.simplex.new_var();
        proof {
            lemma_in_range_mono(e, before as nat, self.simplex.num_vars_spec());
            assert(e.coeff_spec(n.0).0 == 0);
            s1.lemma_bounds_len();
            assert(n.0 == s1.bounds().len());
            assert(self.simplex.bounds()[n.0 as int] == s1.bounds().push((None, None))[n.0 as int]);
        }
        let ghost s2 = self.simplex;
        self.simplex.define(n, &e);
        proof {
            assert forall|m: Mark| old(self).valid_mark(m) implies self.valid_mark(m) by {
                assert(st1.valid_mark(m));
                assert(s1.valid_mark(m.simplex));
                assert(s2.valid_mark(m.simplex));
            }
        }
        self.set_numvar(n_addr, n);
        self.set_def(n, e);
        Some(n_addr)
    }

    /// Assert `e op 0`, through a defined slack when `e` has several terms.
    fn assert_lin(&mut self, e: LinExpr, op: solver::RelOp) -> (ok: bool)
        requires
            old(self).wf(),
        ensures
            final(self).image() == old(self).image(),
            e@.0.len() == 0 ==> *final(self) == *old(self) && ok == (match op {
                solver::RelOp::Lt => rat_lt((0int, 1int), rat_neg(e@.1)),
                solver::RelOp::Le => rat_le((0int, 1int), rat_neg(e@.1)),
                solver::RelOp::Eq => (0int, 1int) == rat_neg(e@.1),
                solver::RelOp::Ge => rat_le(rat_neg(e@.1), (0int, 1int)),
                solver::RelOp::Gt => rat_lt(rat_neg(e@.1), (0int, 1int)),
            }),
            final(self).evolves(&*old(self)),
            final(self).heap_len() == old(self).heap_len(),
    {
        if e.num_terms() <= 1 {
            return self.assert_raw(&e, op);
        }
        let rhs = e.constant_part().negate();
        let mut lhs = e;
        lhs.set_constant(Number::zero());
        let s = match self.slack_for(lhs) {
            Some(s) => s,
            None => {
                return false;
            },
        };
        let mut bound = LinExpr::var(s);
        bound.set_constant(rhs.negate());
        self.assert_raw(&bound, op)
    }

    /// Merge two solver variables' alias classes by an equation.
    fn equate(&mut self, a: SVar, b: SVar) -> (ok: bool)
        requires
            old(self).wf(),
        ensures
            final(self).evolves(&*old(self)),
            final(self).heap_len() == old(self).heap_len(),
            alias_root(old(self).image().aliases, a, old(self).alias_len()) == alias_root(old(self).image().aliases, b, old(self).alias_len())
                ==> ok && *final(self) == *old(self),
            ok && alias_root(old(self).image().aliases, a, old(self).alias_len()) != alias_root(old(self).image().aliases, b, old(self).alias_len())
                ==> final(self).image() == (Image {
                    aliases: old(self).image().aliases.insert(
                        alias_root(old(self).image().aliases, b, old(self).alias_len()).0,
                        alias_root(old(self).image().aliases, a, old(self).alias_len())),
                    ..old(self).image()
                }),
            !ok ==> final(self).image() == old(self).image(),
    {
        let ra = self.root(a);
        let rb = self.root(b);
        if ra == rb {
            return true;
        }
        let mut e = LinExpr::var(a);
        e.sub(&LinExpr::var(b));
        if !self.assert_lin(e, solver::RelOp::Eq) {
            return false;
        }
        self.set_alias(rb, ra);
        true
    }

    // --- attribute terms ---------------------------------------------------------

    /// Structural key of the term at `a` modulo bindings; `None` if cyclic.
    fn attr_key(&self, a: Addr) -> (r: Option<Vec<KeyElem>>)
        requires
            self.wf(),
        ensures
            deref_chain(self.slots(), a as int, self.heap_len()) >= self.heap_len() ==> r is None,
            deref_chain(self.slots(), a as int, self.heap_len()) < self.heap_len()
                ==> (self.cell_at(deref_chain(self.slots(), a as int, self.heap_len())) matches Cell::Const(c)
                    ==> (r matches Some(k) && k@.len() == 1 && elem_same(k@[0], KeyElem::Sym(c, 0)))),
            deref_chain(self.slots(), a as int, self.heap_len()) < self.heap_len()
                ==> (self.cell_at(deref_chain(self.slots(), a as int, self.heap_len())) matches Cell::Num(n)
                    ==> (r matches Some(k) && k@.len() == 1 && k@[0] is Num && k@[0]->Num_0@ == n@)),
            deref_chain(self.slots(), a as int, self.heap_len()) < self.heap_len()
                && self.cell_at(deref_chain(self.slots(), a as int, self.heap_len())) is Var
                && self.slots()[deref_chain(self.slots(), a as int, self.heap_len())].numvar is None
                ==> (r matches Some(k) && k@.len() == 1
                    && k@[0] == KeyElem::Var(deref_chain(self.slots(), a as int, self.heap_len()) as usize)),
    {
        let mut key: Vec<KeyElem> = Vec::new();
        let mut path: Vec<Addr> = Vec::new();
        // A stack of steps: `(true, x)` enters `x`, `(false, _)` leaves the
        // innermost compound.
        let mut stack: Vec<(bool, Addr)> = Vec::new();
        stack.push((true, a));
        let ghost d0 = deref_chain(self.slots(), a as int, self.heap_len());
        let ghost atomic = d0 >= self.heap_len() || !(self.cell_at(d0) is Struct);
        let mut fuel: u64 = u64::MAX;
        let mut first = true;
        while stack.len() > 0
            invariant
                self.wf(),
                d0 == deref_chain(self.slots(), a as int, self.heap_len()),
                atomic == (d0 >= self.heap_len() || !(self.cell_at(d0) is Struct)),
                first ==> stack@ == seq![(true, a)] && key@.len() == 0 && fuel == u64::MAX,
                !first && atomic ==> stack@.len() == 0 && d0 < self.heap_len() && key@.len() == 1 && {
                    &&& (self.cell_at(d0) matches Cell::Const(c) ==> elem_same(key@[0], KeyElem::Sym(c, 0)))
                    &&& (self.cell_at(d0) matches Cell::Num(n) ==> key@[0] is Num && key@[0]->Num_0@ == n@)
                    &&& (self.cell_at(d0) is Var && self.slots()[d0].numvar is None ==> key@[0] == KeyElem::Var(d0 as usize))
                },
            decreases fuel,
        {
            if fuel == 0 {
                return None;
            }
            fuel = fuel - 1;
            let (enter, x) = stack.pop().unwrap();
            if !enter {
                path.pop();
                continue;
            }
            let d = self.deref(x);
            first = false;
            if d >= self.heap.len() {
                return None;
            }
            match &self.heap[d].cell {
                Cell::Var(_) => {
                    // A determined numeric variable keys by its value.
                    let val = match self.numvar_of(d) {
                        Some(sv) => self.cheap_value(sv),
                        None => None,
                    };
                    match val {
                        Some(c) => key.push(KeyElem::Num(c)),
                        None => key.push(KeyElem::Var(d)),
                    }
                },
                Cell::Num(c) => key.push(KeyElem::Num(c.copy())),
                Cell::Const(s) => key.push(KeyElem::Sym(*s, 0)),
                Cell::Struct(f, args) => {
                    assert(!atomic);
                    let mut k: usize = 0;
                    while k < path.len()
                        invariant
                            k <= path@.len(),
                            !atomic,
                            d0 == deref_chain(self.slots(), a as int, self.heap_len()),
                            atomic == (d0 >= self.heap_len() || !(self.cell_at(d0) is Struct)),
                        decreases path@.len() - k,
                    {
                        if path[k] == d {
                            return None;
                        }
                        k = k + 1;
                    }
                    key.push(KeyElem::Sym(*f, args.len()));
                    path.push(d);
                    stack.push((false, 0));
                    let mut j = args.len();
                    while j > 0
                        invariant
                            j <= args@.len(),
                        decreases j,
                    {
                        j = j - 1;
                        stack.push((true, args[j]));
                    }
                },
            }
        }
        Some(key)
    }

    /// Minimal rendering for error messages (symbols by number), to a depth.
    fn debug_term(&self, a: Addr, depth: usize) -> (s: Vec<char>)
        ensures
            ({
                let d = deref_chain(self.slots(), a as int, self.heap_len());
                &&& d >= self.heap_len() || depth == 0 ==> s@ == seq!['.', '.', '.']
                &&& d < self.heap_len() && depth > 0 ==> match self.cell_at(d) {
                    Cell::Var(_) => s@ == seq!['_'] + nat_decimal(d as nat),
                    Cell::Num(n) => s@ == rat_text(n@),
                    Cell::Const(c) => s@ == seq!['S', 'y', 'm', 'b', 'o', 'l', '('] + nat_decimal(c.0 as nat) + seq![')'],
                    Cell::Struct(f, _) => s@.len() > 0 && s@.last() == ')'
                        && (seq!['S', 'y', 'm', 'b', 'o', 'l', '('] + nat_decimal(f.0 as nat) + seq![')', '(']).is_prefix_of(s@),
                }
            }),
        decreases depth,
    {
        proof {
            reveal_strlit("...");
            reveal_strlit("Symbol(");
            reveal_strlit(")(");
            reveal_strlit(", ");
        }
        let mut out: Vec<char> = Vec::new();
        let d = self.deref(a);
        if d >= self.heap.len() || depth == 0 {
            push_str(&mut out, "...");
            return out;
        }
        match &self.heap[d].cell {
            Cell::Var(_) => {
                out.push('_');
                push_usize(&mut out, d);
            },
            Cell::Num(n) => {
                let t = n.to_text();
                crate::text::push_all(&mut out, &t);
            },
            Cell::Const(s) => {
                push_str(&mut out, "Symbol(");
                push_usize(&mut out, s.0);
                out.push(')');
            },
            Cell::Struct(f, args) => {
                push_str(&mut out, "Symbol(");
                push_usize(&mut out, f.0);
                push_str(&mut out, ")(");
                let ghost pre = out@;
                assert(pre == seq!['S', 'y', 'm', 'b', 'o', 'l', '('] + nat_decimal(f.0 as nat) + seq![')', '(']);
                let mut i: usize = 0;
                while i < args.len()
                    invariant
                        i <= args@.len(),
                        depth > 0,
                        pre.is_prefix_of(out@),
                    decreases args@.len() - i,
                {
                    if i > 0 {
                        push_str(&mut out, ", ");
                    }
                    let t = self.debug_term(args[i], depth - 1);
                    crate::text::push_all(&mut out, &t);
                    i = i + 1;
                }
                out.push(')');
            },
        }
        out
    }

    fn cyclic_error(&mut self, d: Addr)
        requires
            old(self).wf(),
        ensures
            final(self).evolves(&*old(self)),
            final(self).heap_len() == old(self).heap_len(),
            final(self).error_spec() is Some && final(self).error_spec()->0 is CyclicAttributeTerm,
            final(self).image() == old(self).image(),
            final(self).solver() == old(self).solver(),
    {
        let t = self.debug_term(d, 64);
        self.error = Some(EvalError::CyclicAttributeTerm { term: string_from_chars(&t) });
    }

    fn index_lookup(&self, key: &Vec<KeyElem>) -> (r: Option<SVar>)
        ensures
            r == key_lookup(self.image().index, key@, 0),
    {
        let mut i: usize = 0;
        while i < self.attr_index.len()
            invariant
                i <= self.attr_index@.len(),
                key_lookup(self.image().index, key@, 0) == key_lookup(self.image().index, key@, i as int),
            decreases self.attr_index@.len() - i,
        {
            if key_eq(&self.attr_index[i].0, key) {
                return Some(self.attr_index[i].1);
            }
            i = i + 1;
        }
        None
    }

    fn index_insert(&mut self, key: Vec<KeyElem>, sv: SVar)
        requires
            old(self).wf(),
        ensures
            final(self).evolves(&*old(self)),
            final(self).heap_len() == old(self).heap_len(),
            final(self).image() == (Image { index: old(self).image().index.push((key, sv)), ..old(self).image() }),
            final(self).solver() == old(self).solver(),
    {
        let ghost before = self.image();
        self.attr_index.push((key, sv));
        proof {
            lemma_image_refl(before);
            reveal(undo_image);
            assert(self.attr_index@.drop_last() =~= before.index);
        }
        self.record(Undo::AttrIndex, Ghost(before));
    }

    fn suspend_on_key(&mut self, id: usize, key: &Vec<KeyElem>)
        requires
            old(self).wf(),
        ensures
            final(self).evolves(&*old(self)),
            final(self).heap_len() == old(self).heap_len(),
            only_wakers_changed(final(self).image(), old(self).image()),
            final(self).solver() == old(self).solver(),
            forall|i: int| 0 <= i < key@.len() && key@[i] is Var && (key@[i]->Var_0 as int) < old(self).heap_len()
                ==> (#[trigger] final(self).slots()[key@[i]->Var_0 as int]).wake@.contains(Waker::Attr(id)),
    {
        let mut i: usize = 0;
        while i < key.len()
            invariant
                self.evolves(&*old(self)),
                self.heap_len() == old(self).heap_len(),
                i <= key@.len(),
                only_wakers_changed(self.image(), old(self).image()),
                self.solver() == old(self).solver(),
                forall|k: int| 0 <= k < i && key@[k] is Var && (key@[k]->Var_0 as int) < old(self).heap_len()
                    ==> (#[trigger] self.slots()[key@[k]->Var_0 as int]).wake@.contains(Waker::Attr(id)),
            decreases key@.len() - i,
        {
            let ghost before = *self;
            if let KeyElem::Var(v) = &key[i] {
                self.suspend(Waker::Attr(id), *v);
                proof {
                    if (*v as int) < before.heap_len() {
                        let w = before.slots()[*v as int].wake@;
                        if !w.contains(Waker::Attr(id)) {
                            assert(w.push(Waker::Attr(id))[w.len() as int] == Waker::Attr(id));
                        }
                    }
                    assert forall|k: int| 0 <= k < i && key@[k] is Var && (key@[k]->Var_0 as int) < old(self).heap_len()
                        implies (#[trigger] self.slots()[key@[k]->Var_0 as int]).wake@.contains(Waker::Attr(id)) by {
                        let b = key@[k]->Var_0 as int;
                        assert(before.slots()[b].wake@.contains(Waker::Attr(id)));
                        if b == *v as int {
                            let w = before.slots()[b].wake@;
                            let j = choose|j: int| 0 <= j < w.len() && w[j] == Waker::Attr(id);
                            assert(w.push(Waker::Attr(id))[j] == Waker::Attr(id));
                        }
                    }
                }
            }
            i = i + 1;
        }
    }

    /// The unknown denoted by the attribute term at `a`, registering it (and
    /// suspending on its variables) if new. `None`, with the error set, if
    /// the term is cyclic.
    fn attribute(&mut self, a: Addr) -> (r: Option<SVar>)
        requires
            old(self).wf(),
        ensures
            r is None ==> final(self).error_spec() is Some && final(self).error_spec()->0 is CyclicAttributeTerm
                && final(self).image() == old(self).image(),
            r matches Some(sv) ==> (*final(self) == *old(self) && exists|k: Seq<KeyElem>| key_lookup(old(self).image().index, k, 0) == Some(sv))
                || (sv.0 == old(self).solver_vars() && final(self).solver_vars() == old(self).solver_vars() + 1
                    && final(self).image().attrs.len() == old(self).image().attrs.len() + 1
                    && final(self).image().attrs.drop_last() == old(self).image().attrs
                    && final(self).image().attrs.last().term == deref_chain(old(self).slots(), a as int, old(self).heap_len())
                    && final(self).image().attrs.last().svar == sv
                    && final(self).image().index.len() == old(self).image().index.len() + 1
                    && final(self).image().index.last().1 == sv),
            final(self).evolves(&*old(self)),
            final(self).heap_len() == old(self).heap_len(),
    {
        let d = self.deref(a);
        let key = match self.attr_key(d) {
            Some(k) => k,
            None => {
                self.cyclic_error(d);
                return None;
            },
        };
        if let Some(sv) = self.index_lookup(&key) {
            return Some(sv);
        }
        let sv = self.fresh_svar();
        self.index_insert(key.clone(), sv);
        let id = self.attrs.len();
        self.suspend_on_key(id, &key);
        self.push_attr(AttrEntry { term: d, key, svar: sv });
        Some(sv)
    }

    /// A variable inside an attribute term was bound or determined:
    /// recompute its key and merge with any term that is now equal
    /// (congruence).
    fn recanonicalize(&mut self, id: usize) -> (ok: bool)
        requires
            old(self).wf(),
        ensures
            id >= old(self).image().attrs.len() ==> ok && *final(self) == *old(self),
            !ok ==> final(self).error_spec() is Some && final(self).error_spec()->0 is CyclicAttributeTerm
                || final(self).image() == (Image { attrs: final(self).image().attrs, ..old(self).image() }),
            id < old(self).image().attrs.len() ==> final(self).image().attrs.len() == old(self).image().attrs.len(),
            final(self).evolves(&*old(self)),
            final(self).heap_len() == old(self).heap_len(),
    {
        if id >= self.attrs.len() {
            return true;
        }
        let term = self.attrs[id].term;
        let sv = self.attrs[id].svar;
        let key = match self.attr_key(term) {
            Some(k) => k,
            None => {
                self.cyclic_error(term);
                return false;
            },
        };
        if key_eq(&key, &self.attrs[id].key) {
            return true;
        }
        self.set_attr_key(id, key.clone());
        match self.index_lookup(&key) {
            Some(other) => {
                if !self.equate(sv, other) {
                    return false;
                }
            },
            None => {
                self.index_insert(key.clone(), sv);
            },
        }
        self.suspend_on_key(id, &key);
        true
    }

    // --- unification ---------------------------------------------------------------

    /// Bind the unbound variable `v` to `t`, waking suspended wakers and
    /// propagating numeric typing. False if the numeric store becomes
    /// unsatisfiable (the caller undoes).
    fn bind(&mut self, v: Addr, t: Addr) -> (ok: bool)
        requires
            old(self).wf(),
        ensures
            v < old(self).heap_len() && old(self).slots()[v as int].numvar is None ==> ok
                && heap_slot_changed(final(self).image(), old(self).image(), v as int, |s: Slot| slot_is(s, Cell::Var(t),
                    None, old(self).slots()[v as int].wake@, old(self).slots()[v as int].fired))
                && final(self).solver() == old(self).solver()
                && final(self).woken_spec() == old(self).woken_spec() + old(self).slots()[v as int].wake@,
            final(self).evolves(&*old(self)),
            final(self).heap_len() == old(self).heap_len(),
    {
        let sv = match self.numvar_of(v) {
            None => {
                let ghost before = *self;
                self.set(v, Cell::Var(t));
                proof {
                    if v < before.heap_len() {
                        let p = |s: Slot| slot_is(s, Cell::Var(t), before.slots()[v as int].numvar,
                            before.slots()[v as int].wake@, before.slots()[v as int].fired);
                        assert(p(self.image().heap[v as int]));
                        assert(self.slots()[v as int].wake@ == before.slots()[v as int].wake@);
                    }
                }
                self.fire(v);
                proof {
                    if v < before.heap_len() {
                        assert(self.image() == (Image { heap: self.image().heap, ..before.image() }));
                        assert(self.woken_spec() == before.woken_spec() + before.slots()[v as int].wake@);
                        assert(slot_is(self.image().heap[v as int], Cell::Var(t), None, before.slots()[v as int].wake@,
                            before.slots()[v as int].fired));
                    }
                }
                return true;
            },
            Some(sv) => sv,
        };
        // A numeric variable stays a variable of the solver: meeting a
        // number is an equation (no heap binding), meeting a variable merges,
        // meeting a compound or constant makes that term an attribute term.
        // A determined numeric variable meeting a number or another
        // determined variable just compares values.
        let d = self.deref(t);
        if d >= self.heap.len() {
            return false;
        }
        let fixed = self.class_value(sv);
        match self.heap[d].cell.clone() {
            Cell::Num(c) => {
                if let Some(f) = fixed {
                    return f.equals(&c);
                }
                self.touched.push(v);
                self.fix(sv, c)
            },
            Cell::Var(_) => {
                if let (Some(f), Some(other)) = (&fixed, self.numvar_of(d)) {
                    if let Some(g) = self.class_value(other) {
                        return f.equals(&g);
                    }
                }
                self.touched.push(v);
                self.set(v, Cell::Var(t));
                self.fire(v);
                match self.numvar_of(d) {
                    Some(other) => self.equate(sv, other),
                    None => {
                        self.set_numvar(d, sv);
                        true
                    },
                }
            },
            Cell::Const(_) | Cell::Struct(..) => {
                self.touched.push(v);
                self.set(v, Cell::Var(t));
                self.fire(v);
                match self.attribute(d) {
                    Some(other) => self.equate(sv, other),
                    None => false,
                }
            },
        }
    }

    /// One step of unification: the pair `(a, b)` after dereferencing.
    /// Pushes argument pairs of matching compounds (after forwarding one to
    /// the other). False on a clash.
    fn unify_step(&mut self, a: Addr, b: Addr, stack: &mut Vec<(Addr, Addr)>) -> (ok: bool)
        requires
            old(self).wf(),
        ensures
            final(self).evolves(&*old(self)),
            final(self).heap_len() == old(self).heap_len(),
            deref_chain(old(self).slots(), a as int, old(self).heap_len()) == deref_chain(old(self).slots(), b as int, old(self).heap_len())
                ==> ok && *final(self) == *old(self) && final(stack)@ == old(stack)@,
            forall|x: Symbol, y: Symbol| old(self).const_at(a, x) && old(self).const_at(b, y) && x != y
                ==> !ok && *final(self) == *old(self),
            old(self).plain_var_at(a) && old(self).nonvar_at(b) ==> ok && final(stack)@ == old(stack)@
                && heap_slot_changed(final(self).image(), old(self).image(), old(self).resolved_at(a), |s: Slot| slot_is(s,
                    Cell::Var(old(self).resolved_at(b) as usize), None, old(self).slots()[old(self).resolved_at(a)].wake@,
                    old(self).slots()[old(self).resolved_at(a)].fired))
                && final(self).solver() == old(self).solver()
                && final(self).woken_spec() == old(self).woken_spec() + old(self).slots()[old(self).resolved_at(a)].wake@,
    {
        let a = self.deref(a);
        let b = self.deref(b);
        if a == b {
            return true;
        }
        if a >= self.heap.len() || b >= self.heap.len() {
            return false;
        }
        if let (Cell::Const(x), Cell::Const(y)) = (&self.heap[a].cell, &self.heap[b].cell) {
            return *x == *y;
        }
        if matches!(self.heap[a].cell, Cell::Var(_)) && !matches!(self.heap[b].cell, Cell::Var(_)) {
            return self.bind(a, b);
        }
        match (self.heap[a].cell.clone(), self.heap[b].cell.clone()) {
            // Two variables: keep a numeric one as the representative.
            (Cell::Var(_), Cell::Var(_)) => {
                if self.numvar_of(a).is_some() && self.numvar_of(b).is_none() {
                    self.bind(b, a)
                } else {
                    self.bind(a, b)
                }
            },
            (Cell::Var(_), _) => self.bind(a, b),
            (_, Cell::Var(_)) => self.bind(b, a),
            (Cell::Const(x), Cell::Const(y)) => x == y,
            (Cell::Num(x), Cell::Num(y)) => x.equals(&y),
            (Cell::Struct(f, xs), Cell::Struct(g, ys)) => {
                if f != g || xs.len() != ys.len() {
                    false
                } else {
                    // Bind before descend: forward `a` to `b` so that a
                    // revisit of this pair terminates on cyclic terms.
                    self.set(a, Cell::Var(b));
                    let mut j = xs.len();
                    while j > 0
                        invariant
                            j <= xs@.len(),
                            xs@.len() == ys@.len(),
                        decreases j,
                    {
                        j = j - 1;
                        stack.push((xs[j], ys[j]));
                    }
                    true
                }
            },
            _ => false,
        }
    }

    /// Unify `a` and `b` over rational trees (no occurs check). On failure
    /// the store is returned to where it was. Does not settle woken wakers.
    fn unify(&mut self, a: Addr, b: Addr) -> (ok: bool)
        requires
            old(self).wf(),
        ensures
            final(self).evolves(&*old(self)),
            deref_chain(old(self).slots(), a as int, old(self).heap_len()) == deref_chain(old(self).slots(), b as int, old(self).heap_len())
                ==> ok && *final(self) == *old(self),
            forall|x: Symbol, y: Symbol| old(self).const_at(a, x) && old(self).const_at(b, y) && x != y
                ==> !ok && final(self).image() == old(self).image() && Store::same_numeric_state(&*final(self), &*old(self))
                    && final(self).woken_len() == 0,
            old(self).plain_var_at(a) && old(self).nonvar_at(b) ==> ok && heap_slot_changed(final(self).image(), old(self).image(), old(self).resolved_at(a), |s: Slot| slot_is(s,
                    Cell::Var(old(self).resolved_at(b) as usize), None, old(self).slots()[old(self).resolved_at(a)].wake@,
                    old(self).slots()[old(self).resolved_at(a)].fired))
                && final(self).solver() == old(self).solver()
                && final(self).woken_spec() == old(self).woken_spec() + old(self).slots()[old(self).resolved_at(a)].wake@,
    {
        let ghost pv = old(self).plain_var_at(a) && old(self).nonvar_at(b);
        let ghost same = deref_chain(old(self).slots(), a as int, old(self).heap_len()) == deref_chain(old(self).slots(), b as int, old(self).heap_len());
        let ghost consts = exists|x: Symbol, y: Symbol| old(self).const_at(a, x) && old(self).const_at(b, y) && x != y;
        let mark = self.mark();
        let mut stack: Vec<(Addr, Addr)> = Vec::new();
        stack.push((a, b));
        let mut fuel: u64 = u64::MAX;
        while stack.len() > 0
            invariant
                same == (deref_chain(old(self).slots(), a as int, old(self).heap_len()) == deref_chain(old(self).slots(), b as int, old(self).heap_len())),
                same ==> *self == *old(self) && (stack@.len() == 0 || (stack@ == seq![(a, b)] && fuel == u64::MAX)),
                consts == exists|x: Symbol, y: Symbol| old(self).const_at(a, x) && old(self).const_at(b, y) && x != y,
                consts ==> *self == *old(self) && stack@ == seq![(a, b)] && fuel == u64::MAX,
                pv == (old(self).plain_var_at(a) && old(self).nonvar_at(b)),
                pv ==> (*self == *old(self) && stack@ == seq![(a, b)] && fuel == u64::MAX) || (stack@.len() == 0 && {
                    let final_self = *self;
                    &&& heap_slot_changed(final_self.image(), old(self).image(), old(self).resolved_at(a), |s: Slot| slot_is(s,
                        Cell::Var(old(self).resolved_at(b) as usize), None, old(self).slots()[old(self).resolved_at(a)].wake@,
                        old(self).slots()[old(self).resolved_at(a)].fired))
                    &&& final_self.solver() == old(self).solver()
                    &&& final_self.woken_spec() == old(self).woken_spec() + old(self).slots()[old(self).resolved_at(a)].wake@
                }),
                mark.solver_mark().snapshot() == old(self).solver().bounds(),
                self.evolves(&*old(self)),
                self.valid_mark(mark),
                old(self).all_within(mark.position()),
                mark.snapshot() == old(self).image(),
                mark.trail_len() == old(self).trail_len(),
            decreases fuel,
        {
            let (x, y) = stack.pop().unwrap();
            let ghost before = *self;
            let ok = fuel > 0 && self.unify_step(x, y, &mut stack);
            if !ok {
                self.undo_to(&mark);
                proof {
                    if consts {
                        old(self).solver().lemma_bounds_len();
                        self.solver().lemma_bounds_len();
                        assert(self.solver_vars() == old(self).solver_vars());
                        assert forall|v: int| 0 <= v < self.solver().bounds().len()
                            implies self.solver().bounds()[v] == old(self).solver().bounds()[v] by {
                            assert(self.solver().bounds()[v] == solver::simplex::ext(mark.solver_mark().snapshot(), v));
                        }
                        assert(self.solver().bounds() =~= old(self).solver().bounds());
                    }
                }
                return false;
            }
            fuel = fuel - 1;
        }
        true
    }

    /// Post the equation `a = b` as tree unification, then settle. On
    /// failure the store is returned to where it was.
    pub fn post_eq(&mut self, a: Addr, b: Addr) -> (ok: bool)
        requires
            old(self).wf(),
        ensures
            forall|x: Symbol, y: Symbol| old(self).const_at(a, x) && old(self).const_at(b, y) && x != y ==> !ok,
            deref_chain(old(self).slots(), a as int, old(self).heap_len()) == deref_chain(old(self).slots(), b as int, old(self).heap_len())
                && old(self).quiescent() ==> ok && final(self).image() == old(self).image() && final(self).solver() == old(self).solver(),
            final(self).evolves(&*old(self)),
            !ok ==> final(self).image() == old(self).image() && final(self).trail_len() == old(self).trail_len(),
            ok ==> final(self).quiescent(),
            !ok ==> final(self).bounds_kept(&*old(self)),
            old(self).quiescent() && old(self).plain_var_at(a) && old(self).nonvar_at(b)
                && old(self).slots()[old(self).resolved_at(a)].wake@.len() == 0
                ==> ok && final(self).cell_at(old(self).resolved_at(a)) == Cell::Var(old(self).resolved_at(b) as usize)
                    && heap_slot_changed(final(self).image(), old(self).image(), old(self).resolved_at(a), |s: Slot|
                        s.cell == Cell::Var(old(self).resolved_at(b) as usize))
                    && final(self).solver() == old(self).solver(),
    {
        let mark = self.mark();
        let ghost simple = old(self).quiescent() && old(self).plain_var_at(a) && old(self).nonvar_at(b)
            && old(self).slots()[old(self).resolved_at(a)].wake@.len() == 0;
        let unified = self.unify(a, b);
        proof {
            if simple {
                let da = old(self).resolved_at(a);
                let db = old(self).resolved_at(b);
                let p = |s: Slot| slot_is(s, Cell::Var(db as usize), None, old(self).slots()[da].wake@, old(self).slots()[da].fired);
                assert(p(self.image().heap[da]));
                assert(self.slots()[da].cell == Cell::Var(db as usize));
                assert(da != db);
                assert(self.woken_spec() =~= old(self).woken_spec());
                assert(self.woken_len() == 0);
                assert forall|x: int| 0 <= x < self.heap_len() && !(#[trigger] self.slots()[x]).fired
                    && self.slots()[x].cell == Cell::Var(x as usize) && self.slots()[x].numvar is Some
                    implies exhibited(self.solver(), self.slots()[x].numvar.unwrap().0) is None by {
                    if x != da {
                        assert(self.slots()[x] == old(self).slots()[x]);
                    }
                }
                assert(self.quiescent());
            }
        }
        if unified && self.settle() {
            proof {
                if simple {
                    let da = old(self).resolved_at(a);
                    let db = old(self).resolved_at(b);
                    assert(self.slots()[da].cell == Cell::Var(db as usize));
                }
            }
            true
        } else {
            self.undo_to(&mark);
            proof {
                old(self).solver().lemma_bounds_len();
            }
            false
        }
    }

    /// A goal operand is numeric if it is itself a number (a literal or an
    /// arithmetic result) or an unbound numeric variable.
    /// A number, or a variable bound to a solver variable once followed
    /// through its bindings.
    pub open spec fn numericish(&self, a: Addr) -> bool {
        let d = deref_chain(self.slots(), a as int, self.heap_len());
        &&& a < self.heap_len()
        &&& (self.cell_at(a as int) is Num || (self.cell_at(d) is Var && self.slots()[d].numvar is Some))
    }

    fn is_numericish(&self, a: Addr) -> (b: bool)
        ensures
            b == self.numericish(a),
    {
        if a >= self.heap.len() {
            return false;
        }
        if let Cell::Num(_) = &self.heap[a].cell {
            return true;
        }
        let d = self.deref(a);
        if d >= self.heap.len() {
            return false;
        }
        match &self.heap[d].cell {
            Cell::Var(_) => self.numvar_of(d).is_some(),
            _ => false,
        }
    }

    /// The `=` of a constraint goal: a numeric equation if either side is
    /// numeric, else unification.
    pub fn post_eq_goal(&mut self, a: Addr, b: Addr) -> (ok: bool)
        requires
            old(self).wf(),
        ensures
            !old(self).numericish(a) && !old(self).numericish(b)
                && deref_chain(old(self).slots(), a as int, old(self).heap_len()) == deref_chain(old(self).slots(), b as int, old(self).heap_len())
                && old(self).quiescent() ==> ok && final(self).image() == old(self).image() && final(self).solver() == old(self).solver(),
            final(self).evolves(&*old(self)),
            !ok ==> final(self).image() == old(self).image() && final(self).trail_len() == old(self).trail_len(),
            ok ==> final(self).quiescent(),
            !ok ==> final(self).bounds_kept(&*old(self)),
    {
        if self.is_numericish(a) || self.is_numericish(b) {
            self.post_rel(crate::ast::RelOp::Eq, a, b)
        } else {
            self.post_eq(a, b)
        }
    }

    /// The `!=` of a constraint goal: a numeric disequation or `dif`.
    pub fn post_dif_goal(&mut self, a: Addr, b: Addr) -> (ok: bool)
        requires
            old(self).wf(),
        ensures
            !old(self).numericish(a) && !old(self).numericish(b)
                && deref_chain(old(self).slots(), a as int, old(self).heap_len()) == deref_chain(old(self).slots(), b as int, old(self).heap_len())
                ==> !ok,
            a < old(self).heap_len() && old(self).cell_at(a as int) is Num && old(self).num_pair(a, b) is Some
                ==> ok == ((old(self).num_pair(a, b)->0).0 != 0) && final(self).image() == old(self).image(),
            final(self).evolves(&*old(self)),
            !ok ==> final(self).image() == old(self).image() && final(self).trail_len() == old(self).trail_len(),
            !ok ==> final(self).bounds_kept(&*old(self)),
            old(self).quiescent() && (exists|x: Symbol, y: Symbol| old(self).const_at(a, x) && old(self).const_at(b, y) && x != y)
                ==> ok && final(self).quiescent(),
    {
        if self.is_numericish(a) || self.is_numericish(b) {
            self.post_numdif(a, b)
        } else {
            self.post_dif(a, b)
        }
    }

    // --- tree disequations -----------------------------------------------------------

    /// Post the disequation `a != b`. On failure the store is returned to
    /// where it was.
    pub fn post_dif(&mut self, a: Addr, b: Addr) -> (ok: bool)
        requires
            old(self).wf(),
        ensures
            old(self).quiescent() && (exists|x: Symbol, y: Symbol| old(self).const_at(a, x) && old(self).const_at(b, y) && x != y)
                ==> ok && final(self).image() == (Image {
                    difs: old(self).image().difs.push(Dif { a, b, pending: false }),
                    ..old(self).image()
                }),
            deref_chain(old(self).slots(), a as int, old(self).heap_len()) == deref_chain(old(self).slots(), b as int, old(self).heap_len())
                ==> !ok,
            final(self).evolves(&*old(self)),
            !ok ==> final(self).image() == old(self).image() && final(self).trail_len() == old(self).trail_len(),
            ok ==> final(self).quiescent(),
            !ok ==> final(self).bounds_kept(&*old(self)),
    {
        let mark = self.mark();
        let id = self.difs.len();
        self.push_dif(Dif { a, b, pending: true });
        let ghost consts = exists|x: Symbol, y: Symbol| old(self).const_at(a, x) && old(self).const_at(b, y) && x != y;
        let ghost pushed = *self;
        proof {
            if consts {
                let (x, y) = choose|x: Symbol, y: Symbol| old(self).const_at(a, x) && old(self).const_at(b, y) && x != y;
                assert(self.const_at(a, x) && self.const_at(b, y));
                assert(self.image().difs[id as int] == Dif { a, b, pending: true });
            }
        }
        let checked = self.check_dif(id);
        proof {
            if consts && old(self).quiescent() {
                assert(checked);
                assert(self.image().difs =~= old(self).image().difs.push(Dif { a, b, pending: false }));
                assert forall|v: usize| #[trigger] exhibited(self.solver(), v) == exhibited(old(self).solver(), v) by {
                    assert(self.solver().row_spec(v) == old(self).solver().row_spec(v));
                }
                assert(self.quiescent());
            }
        }
        if checked && self.settle() {
            true
        } else {
            self.undo_to(&mark);
            proof {
                old(self).solver().lemma_bounds_len();
            }
            false
        }
    }

    /// Re-check a disequation by trial unification: if unifying the sides
    /// fails, the disequation holds and is dropped; if it succeeds without
    /// binding any variable (and without changing the numeric store), the
    /// sides are already equal and the store is unsatisfiable; otherwise the
    /// trial is undone and the disequation suspended on the variables that
    /// would have been bound (or numerically touched).
    fn check_dif(&mut self, id: usize) -> (ok: bool)
        requires
            old(self).wf(),
        ensures
            final(self).evolves(&*old(self)),
            id >= old(self).image().difs.len() || !old(self).image().difs[id as int].pending ==> ok && *final(self) == *old(self),
            id < old(self).image().difs.len() && old(self).image().difs[id as int].pending
                && deref_chain(old(self).slots(), old(self).image().difs[id as int].a as int, old(self).heap_len())
                    == deref_chain(old(self).slots(), old(self).image().difs[id as int].b as int, old(self).heap_len())
                ==> !ok,
            id < old(self).image().difs.len() && old(self).image().difs[id as int].pending
                && (exists|x: Symbol, y: Symbol| old(self).const_at(old(self).image().difs[id as int].a, x)
                    && old(self).const_at(old(self).image().difs[id as int].b, y) && x != y)
                ==> ok && final(self).image() == (Image {
                    difs: old(self).image().difs.update(id as int, (Dif {
                        a: old(self).image().difs[id as int].a,
                        b: old(self).image().difs[id as int].b,
                        pending: false,
                    })),
                    ..old(self).image()
                }) && Store::same_numeric_state(&*final(self), &*old(self)) && final(self).woken_len() == 0,
    {
        if id >= self.difs.len() {
            return true;
        }
        let a = self.difs[id].a;
        let b = self.difs[id].b;
        if !self.difs[id].pending {
            return true;
        }
        let mark = self.mark();
        self.touched.clear();
        let ghost same = deref_chain(self.slots(), a as int, self.heap_len()) == deref_chain(self.slots(), b as int, self.heap_len());
        let ghost before = *self;
        let ghost consts = exists|x: Symbol, y: Symbol| old(self).const_at(a, x) && old(self).const_at(b, y) && x != y;
        proof {
            if consts {
                let (x, y) = choose|x: Symbol, y: Symbol| old(self).const_at(a, x) && old(self).const_at(b, y) && x != y;
                assert(self.const_at(a, x) && self.const_at(b, y));
            }
        }
        if !self.unify(a, b) {
            let ghost mid = *self;
            self.retire_dif(id);
            proof {
                if consts {
                    assert(mid.image() == old(self).image());
                    assert(Store::same_numeric_state(&mid, &before));
                }
            }
            return true;
        }
        assert(!consts);
        let mut would_bind: Vec<Addr> = Vec::new();
        let mut i = mark.trail;
        while i < self.trail.len()
            invariant
                same ==> *self == before && i >= self.trail@.len() && would_bind@.len() == 0,
            decreases self.trail@.len() - i,
        {
            match &self.trail[i] {
                Undo::Slot(addr, old, true) => {
                    if let Cell::Var(x) = &old.cell {
                        if *x == *addr {
                            would_bind.push(*addr);
                        }
                    }
                },
                _ => {},
            }
            i = i + 1;
        }
        let numeric_change = self.simplex.changed_since(mark.simplex);
        let mut k: usize = 0;
        while k < self.touched.len()
            invariant
                same ==> *self == before && self.touched@.len() == 0 && would_bind@.len() == 0 && !numeric_change,
            decreases self.touched@.len() - k,
        {
            would_bind.push(self.touched[k]);
            k = k + 1;
        }
        self.undo_to(&mark);
        if would_bind.len() == 0 && !numeric_change {
            return false;
        }
        let mut j: usize = 0;
        while j < would_bind.len()
            invariant
                self.evolves(&*old(self)),
            decreases would_bind@.len() - j,
        {
            self.suspend(Waker::Dif(id), would_bind[j]);
            j = j + 1;
        }
        true
    }

    // --- settle: wakers, determinations, products ------------------------------------

    fn run_wakers(&mut self) -> (ok: bool)
        requires
            old(self).wf(),
        ensures
            final(self).evolves(&*old(self)),
            old(self).woken_len() == 0 ==> ok && final(self).image() == old(self).image()
                && final(self).solver() == old(self).solver() && final(self).woken_len() == 0,
    {
        let mut woken: Vec<Waker> = Vec::new();
        std::mem::swap(&mut woken, &mut self.woken);
        let mut i: usize = 0;
        while i < woken.len()
            invariant
                self.evolves(&*old(self)),
                woken@.len() == old(self).woken_len(),
                woken@.len() == 0 ==> self.image() == old(self).image() && self.solver() == old(self).solver()
                    && self.woken@.len() == 0,
            decreases woken@.len() - i,
        {
            let ok = match woken[i] {
                Waker::Dif(id) => {
                    if id < self.difs.len() && self.difs[id].pending {
                        self.check_dif(id)
                    } else {
                        true
                    }
                },
                Waker::Attr(id) => self.recanonicalize(id),
            };
            if !ok {
                return false;
            }
            i = i + 1;
        }
        true
    }

    /// Process everything woken since the last settle, then numeric
    /// consequences, until quiescent. Restores nothing on failure — callers
    /// hold a mark.
    fn settle(&mut self) -> (ok: bool)
        requires
            old(self).wf(),
        ensures
            final(self).evolves(&*old(self)),
            ok ==> final(self).quiescent(),
            old(self).quiescent() ==> ok && final(self).image() == old(self).image() && final(self).solver() == old(self).solver(),
    {
        let mut fuel: u64 = u64::MAX;
        while fuel > 0
            invariant
                self.evolves(&*old(self)),
                old(self).quiescent() ==> fuel == u64::MAX && *self == *old(self),
            decreases fuel,
        {
            fuel = fuel - 1;
            if !self.run_wakers() {
                return false;
            }
            if !self.numeric_consequences(false) {
                return false;
            }
            if self.woken.len() == 0 {
                return true;
            }
        }
        false
    }

    fn value_of(&mut self, sv: SVar, exact: bool) -> (r: Option<Number>)
        requires
            old(self).wf(),
        ensures
            final(self).evolves(&*old(self)),
            final(self).heap_len() == old(self).heap_len(),
            !exact ==> *final(self) == *old(self),
            !exact ==> (r matches Some(n) ==> exhibited(old(self).solver(), sv.0) == Some(n@)),
            !exact ==> (r is None ==> exhibited(old(self).solver(), sv.0) is None),
    {
        if exact {
            self.determined(sv)
        } else {
            self.cheap_value(sv)
        }
    }

    fn mark_fired(&mut self, a: Addr)
        requires
            old(self).wf(),
        ensures
            final(self).evolves(&*old(self)),
            final(self).heap_len() == old(self).heap_len(),
            heap_slot_changed(final(self).image(), old(self).image(), a as int, |t: Slot| slot_is(t,
                old(self).slots()[a as int].cell, old(self).slots()[a as int].numvar, old(self).slots()[a as int].wake@, true)),
            final(self).solver() == old(self).solver(),
    {
        if a < self.heap.len() {
            let mut slot = self.copy_slot(a);
            slot.fired = true;
            self.put_slot(a, slot, false);
        }
    }

    /// Newly determined numeric heap variables are pinned and fire their
    /// wakers. Returns `(consistent, progress)`.
    fn determine_vars(&mut self, exact: bool) -> (r: (bool, bool))
        requires
            old(self).wf(),
        ensures
            final(self).evolves(&*old(self)),
            !exact && r.0 && !r.1 ==> *final(self) == *old(self) && final(self).vars_quiet(),
            !exact && old(self).vars_quiet() ==> r == (true, false) && *final(self) == *old(self),
            (forall|b: int| 0 <= b < old(self).heap_len() ==> (#[trigger] old(self).slots()[b]).numvar is None)
                ==> r == (true, false) && *final(self) == *old(self),
    {
        let mut progress = false;
        let n = self.heap.len();
        let mut a: usize = 0;
        while a < n
            invariant
                self.evolves(&*old(self)),
                a <= n,
                n == old(self).heap_len(),
                !exact && !progress ==> *self == *old(self),
                !exact && old(self).vars_quiet() ==> !progress,
                (forall|b: int| 0 <= b < old(self).heap_len() ==> (#[trigger] old(self).slots()[b]).numvar is None)
                    ==> !progress && *self == *old(self),
                !exact && !progress ==> forall|b: int|
                    0 <= b < a && !(#[trigger] self.slots()[b]).fired && self.slots()[b].cell == Cell::Var(b as usize)
                        && self.slots()[b].numvar is Some
                        ==> exhibited(self.solver(), self.slots()[b].numvar.unwrap().0) is None,
            decreases n - a,
        {
            let candidate = a < self.heap.len() && !self.heap[a].fired && self.is_unbound_var(a);
            if candidate {
                if let Some(sv) = self.numvar_of(a) {
                    proof {
                        if !exact && old(self).vars_quiet() {
                            assert(!self.slots()[a as int].fired);
                        }
                    }
                    if let Some(c) = self.value_of(sv, exact) {
                        if !self.fix(sv, c) {
                            return (false, progress);
                        }
                        self.mark_fired(a);
                        self.fire(a);
                        progress = true;
                    }
                }
            }
            a = a + 1;
        }
        (true, progress)
    }

    /// Pin attribute unknowns the solver determines (for tight bounds).
    fn determine_attrs(&mut self) -> (ok: bool)
        requires
            old(self).wf(),
        ensures
            final(self).evolves(&*old(self)),
            old(self).image().attrs.len() == 0 ==> ok && *final(self) == *old(self),
            final(self).image() == old(self).image(),
    {
        let n = self.attrs.len();
        let mut i: usize = 0;
        while i < n
            invariant
                self.evolves(&*old(self)),
                self.image() == old(self).image(),
                n == old(self).image().attrs.len(),
                n == 0 ==> *self == *old(self),
            decreases n - i,
        {
            if i >= self.attrs.len() {
                return true;
            }
            let sv = self.attrs[i].svar;
            if let Some(c) = self.determined(sv) {
                if !self.fix(sv, c) {
                    return false;
                }
            }
            i = i + 1;
        }
        true
    }

    /// Decide numeric disequations whose difference is determined.
    fn decide_numdifs(&mut self, exact: bool) -> (r: (bool, bool))
        requires
            old(self).wf(),
        ensures
            final(self).evolves(&*old(self)),
            !exact && r.0 && !r.1 ==> *final(self) == *old(self) && final(self).numdifs_quiet(),
            !exact && old(self).numdifs_quiet() ==> r == (true, false) && *final(self) == *old(self),
            (forall|i: int| 0 <= i < old(self).image().numdifs.len() ==> !(#[trigger] old(self).image().numdifs[i]).pending)
                ==> r == (true, false) && *final(self) == *old(self),
    {
        let mut progress = false;
        let n = self.numdifs.len();
        let mut id: usize = 0;
        while id < n
            invariant
                self.evolves(&*old(self)),
                id <= n,
                n == old(self).image().numdifs.len(),
                !exact && !progress ==> *self == *old(self),
                !exact && old(self).numdifs_quiet() ==> !progress,
                (forall|i: int| 0 <= i < old(self).image().numdifs.len() ==> !(#[trigger] old(self).image().numdifs[i]).pending)
                    ==> !progress && *self == *old(self),
                !exact && !progress ==> forall|i: int|
                    0 <= i < id && (#[trigger] self.image().numdifs[i]).pending
                        ==> exhibited(self.solver(), self.image().numdifs[i].d.0) is None,
            decreases n - id,
        {
            if id < self.numdifs.len() && self.numdifs[id].pending {
                let d = self.numdifs[id].d;
                if let Some(c) = self.value_of(d, exact) {
                    if c.is_zero() {
                        return (false, progress);
                    }
                    self.retire_numdif(id);
                    progress = true;
                }
            }
            id = id + 1;
        }
        (true, progress)
    }

    /// Linearise delayed products one of whose factors is determined.
    fn linearise_products(&mut self, exact: bool) -> (r: (bool, bool))
        requires
            old(self).wf(),
        ensures
            final(self).evolves(&*old(self)),
            !exact && r.0 && !r.1 ==> *final(self) == *old(self) && final(self).products_quiet(),
            !exact && old(self).products_quiet() ==> r == (true, false) && *final(self) == *old(self),
            old(self).products_linear() ==> r == (true, false) && *final(self) == *old(self),
    {
        let mut progress = false;
        let n = self.products.len();
        let mut id: usize = 0;
        while id < n
            invariant
                self.evolves(&*old(self)),
                id <= n,
                n == old(self).image().products.len(),
                !exact && !progress ==> *self == *old(self),
                !exact && old(self).products_quiet() ==> !progress,
                old(self).products_linear() ==> !progress && *self == *old(self),
                !exact && !progress ==> forall|i: int|
                    0 <= i < id && (#[trigger] self.image().products[i]).pending
                        ==> exhibited(self.solver(), self.image().products[i].b.0) is None
                        && (self.image().products[i].kind == ProductKind::Mul
                            ==> exhibited(self.solver(), self.image().products[i].a.0) is None),
            decreases n - id,
        {
            if id < self.products.len() && self.products[id].pending {
                let p = Product {
                    n: self.products[id].n,
                    kind: self.products[id].kind,
                    a: self.products[id].a,
                    b: self.products[id].b,
                    a_addr: self.products[id].a_addr,
                    b_addr: self.products[id].b_addr,
                    pending: true,
                };
                let av = self.value_of(p.a, exact);
                let bv = self.value_of(p.b, exact);
                let linear: Option<LinExpr> = match p.kind {
                    ProductKind::Mul => match (av, bv) {
                        (Some(c), _) => {
                            let mut e = LinExpr::var(p.b);
                            e.scale(&c);
                            Some(e)
                        },
                        (_, Some(c)) => {
                            let mut e = LinExpr::var(p.a);
                            e.scale(&c);
                            Some(e)
                        },
                        _ => None,
                    },
                    ProductKind::Div => match bv {
                        Some(c) => {
                            match c.recip() {
                                Some(inv) => {
                                    let mut e = LinExpr::var(p.a);
                                    e.scale(&inv);
                                    Some(e)
                                },
                                // Division by zero.
                                None => {
                                    return (false, progress);
                                },
                            }
                        },
                        None => None,
                    },
                };
                if let Some(e) = linear {
                    let mut eq = LinExpr::var(p.n);
                    eq.sub(&e);
                    if !self.assert_raw(&eq, solver::RelOp::Eq) {
                        return (false, progress);
                    }
                    self.retire_product(id);
                    progress = true;
                }
            }
            id = id + 1;
        }
        (true, progress)
    }

    /// Detection of determined numeric variables (cheap, or with `exact`
    /// probe-based), decision of numeric disequations, and linearisation of
    /// delayed products, to quiescence. False on inconsistency.
    fn numeric_consequences(&mut self, exact: bool) -> (ok: bool)
        requires
            old(self).wf(),
        ensures
            final(self).evolves(&*old(self)),
            !exact && ok ==> final(self).vars_quiet() && final(self).numdifs_quiet() && final(self).products_quiet(),
            !exact && old(self).vars_quiet() && old(self).numdifs_quiet() && old(self).products_quiet()
                ==> ok && *final(self) == *old(self),
            old(self).nothing_open() ==> ok && *final(self) == *old(self),
    {
        let mut fuel: u64 = u64::MAX;
        while fuel > 0
            invariant
                self.evolves(&*old(self)),
                !exact && old(self).vars_quiet() && old(self).numdifs_quiet() && old(self).products_quiet()
                    ==> fuel == u64::MAX && *self == *old(self),
                old(self).nothing_open() ==> fuel == u64::MAX && *self == *old(self),
            decreases fuel,
        {
            fuel = fuel - 1;
            let (ok1, p1) = self.determine_vars(exact);
            if !ok1 {
                return false;
            }
            if exact && !self.determine_attrs() {
                return false;
            }
            let (ok2, p2) = self.decide_numdifs(exact);
            if !ok2 {
                return false;
            }
            let (ok3, p3) = self.linearise_products(exact);
            if !ok3 {
                return false;
            }
            if !(p1 || p2 || p3) {
                return true;
            }
            // Determinations can cascade through woken wakers.
            if !self.run_wakers() {
                return false;
            }
        }
        false
    }

    /// Answer time: exact determination of every numeric variable and
    /// disequation, `dif` re-checks, and the non-linear residue check. False
    /// if the store turns out unsatisfiable, or on a store error.
    pub fn finalize(&mut self) -> (ok: bool)
        requires
            old(self).wf(),
        ensures
            final(self).evolves(&*old(self)),
            ok ==> final(self).products_linear(),
            ok ==> final(self).quiescent(),
            old(self).nothing_open() ==> ok,
    {
        if !self.numeric_consequences(true) {
            return false;
        }
        let n = self.difs.len();
        let mut id: usize = 0;
        while id < n
            invariant
                self.evolves(&*old(self)),
                old(self).nothing_open() ==> *self == *old(self),
            decreases n - id,
        {
            if id < self.difs.len() && self.difs[id].pending && !self.check_dif(id) {
                return false;
            }
            id = id + 1;
        }
        proof {
            if old(self).nothing_open() {
                assert(self.quiescent());
            }
        }
        if !self.settle() {
            return false;
        }
        let mut i: usize = 0;
        while i < self.products.len()
            invariant
                self.evolves(&*old(self)),
                self.quiescent(),
                old(self).nothing_open() ==> self.products_linear(),
                forall|k: int| 0 <= k < i ==> !(#[trigger] self.products@[k]).pending,
            decreases self.products@.len() - i,
        {
            if self.products[i].pending {
                let op = match self.products[i].kind {
                    ProductKind::Mul => '*',
                    ProductKind::Div => '/',
                };
                self.nonlinear = Some((self.products[i].a_addr, self.products[i].b_addr, op));
                return false;
            }
            i = i + 1;
        }
        true
    }

    // --- numeric constraints ------------------------------------------------------------

    /// The solver's view of a term in numeric position: a constant, a numeric
    /// variable's solver variable, or an attribute term's unknown.
    fn unknown_of(&mut self, a: Addr) -> (r: Option<LinExpr>)
        requires
            old(self).wf(),
        ensures
            a < old(self).heap_len() && old(self).cell_at(deref_chain(old(self).slots(), a as int, old(self).heap_len())) is Num
                ==> *final(self) == *old(self) && (r matches Some(e) && e@ == (Seq::<(usize, (int, int))>::empty(),
                    old(self).cell_at(deref_chain(old(self).slots(), a as int, old(self).heap_len()))->Num_0@)),
            a >= old(self).heap_len() ==> r is None && *final(self) == *old(self),
            final(self).evolves(&*old(self)),
            final(self).heap_len() == old(self).heap_len(),
    {
        let d = self.deref(a);
        if d >= self.heap.len() {
            return None;
        }
        let is_var = match &self.heap[d].cell {
            Cell::Num(c) => {
                return Some(LinExpr::constant(c.copy()));
            },
            Cell::Var(_) => true,
            Cell::Const(_) | Cell::Struct(..) => false,
        };
        if is_var {
            let sv = match self.numvar_of(d) {
                Some(sv) => sv,
                None => {
                    let sv = self.fresh_svar();
                    self.set_numvar(d, sv);
                    sv
                },
            };
            Some(LinExpr::var(sv))
        } else {
            match self.attribute(d) {
                Some(sv) => Some(LinExpr::var(sv)),
                None => None,
            }
        }
    }

    fn post_rel_inner(&mut self, op: crate::ast::RelOp, a: Addr, b: Addr) -> (ok: bool)
        requires
            old(self).wf(),
        ensures
            old(self).quiescent() && old(self).num_pair(a, b) is Some
                ==> ok == rel_zero(op, old(self).num_pair(a, b)->0) && (ok ==> final(self).image() == old(self).image()),
            final(self).evolves(&*old(self)),
            ok ==> final(self).quiescent(),
    {
        let mut e = match self.unknown_of(a) {
            Some(e) => e,
            None => {
                return false;
            },
        };
        let rb = match self.unknown_of(b) {
            Some(e) => e,
            None => {
                return false;
            },
        };
        let ghost e0 = e;
        e.sub(&rb);
        e.lemma_wf();
        proof {
            if old(self).num_pair(a, b) is Some {
                assert(e0@.0.len() == 0 && rb@.0.len() == 0);
                if e@.0.len() > 0 {
                    let u = e@.0[0].0;
                    lemma_coeff_in(e@.0, u);
                    assert(rb.coeff_spec(u) == (0int, 1int));
                    assert(e0.coeff_spec(u) == (0int, 1int));
                    assert(e.coeff_spec(u).0 == 0);
                }
            }
        }
        let sop = match op {
            crate::ast::RelOp::Eq => solver::RelOp::Eq,
            crate::ast::RelOp::Lt => solver::RelOp::Lt,
            crate::ast::RelOp::Gt => solver::RelOp::Gt,
            crate::ast::RelOp::Le => solver::RelOp::Le,
            crate::ast::RelOp::Ge => solver::RelOp::Ge,
            // `!=` goes through `post_numdif`.
            crate::ast::RelOp::Neq => {
                return false;
            },
        };
        self.assert_lin(e, sop) && self.settle()
    }

    /// Post `a op b` for a numeric relation. On failure the store is
    /// returned to where it was.
    pub fn post_rel(&mut self, op: crate::ast::RelOp, a: Addr, b: Addr) -> (ok: bool)
        requires
            old(self).wf(),
        ensures
            old(self).quiescent() && old(self).num_pair(a, b) is Some ==> ok == rel_zero(op, old(self).num_pair(a, b)->0)
                && final(self).image() == old(self).image(),
            final(self).evolves(&*old(self)),
            !ok ==> final(self).image() == old(self).image() && final(self).trail_len() == old(self).trail_len(),
            ok ==> final(self).quiescent(),
            !ok ==> final(self).bounds_kept(&*old(self)),
    {
        let mark = self.mark();
        let ok = self.post_rel_inner(op, a, b);
        if !ok {
            self.undo_to(&mark);
            proof {
                old(self).solver().lemma_bounds_len();
            }
        }
        ok
    }

    fn post_numdif_inner(&mut self, a: Addr, b: Addr) -> (ok: bool)
        requires
            old(self).wf(),
        ensures
            old(self).num_pair(a, b) is Some
                ==> ok == ((old(self).num_pair(a, b)->0).0 != 0) && *final(self) == *old(self),
            final(self).evolves(&*old(self)),
    {
        let mut e = match self.unknown_of(a) {
            Some(e) => e,
            None => {
                return false;
            },
        };
        let rb = match self.unknown_of(b) {
            Some(e) => e,
            None => {
                return false;
            },
        };
        let ghost e0 = e;
        e.sub(&rb);
        e.lemma_wf();
        proof {
            if old(self).num_pair(a, b) is Some {
                if e@.0.len() > 0 {
                    let u = e@.0[0].0;
                    lemma_coeff_in(e@.0, u);
                    assert(rb.coeff_spec(u) == (0int, 1int));
                    assert(e0.coeff_spec(u) == (0int, 1int));
                    assert(e.coeff_spec(u).0 == 0);
                }
            }
        }
        if let Some(c) = e.as_constant() {
            return !c.is_zero();
        }
        let d = match self.slack_for(e) {
            Some(d) => d,
            None => {
                return false;
            },
        };
        let id = self.numdifs.len();
        self.push_numdif(NumDif { d, a, b, pending: true });
        match self.determined(d) {
            Some(c) => {
                if c.is_zero() {
                    false
                } else {
                    self.retire_numdif(id);
                    true
                }
            },
            None => true,
        }
    }

    /// Post the numeric disequation `a != b`. On failure the store is
    /// returned to where it was.
    pub fn post_numdif(&mut self, a: Addr, b: Addr) -> (ok: bool)
        requires
            old(self).wf(),
        ensures
            old(self).num_pair(a, b) is Some
                ==> ok == ((old(self).num_pair(a, b)->0).0 != 0) && final(self).image() == old(self).image(),
            final(self).evolves(&*old(self)),
            !ok ==> final(self).image() == old(self).image() && final(self).trail_len() == old(self).trail_len(),
            !ok ==> final(self).bounds_kept(&*old(self)),
    {
        let mark = self.mark();
        let ok = self.post_numdif_inner(a, b);
        if !ok {
            self.undo_to(&mark);
            proof {
                old(self).solver().lemma_bounds_len();
            }
        }
        ok
    }

    /// A fresh numeric heap variable `n` with `n = -a` posted. `None` on
    /// failure, with the store returned to where it was.
    pub fn post_neg(&mut self, a: Addr) -> (r: Option<Addr>)
        requires
            old(self).wf(),
        ensures
            old(self).num_at(a) is Some ==> r == Some(old(self).heap_len() as usize),
            final(self).evolves(&*old(self)),
            r is None ==> final(self).image() == old(self).image() && final(self).trail_len() == old(self).trail_len(),
            r is None ==> final(self).bounds_kept(&*old(self)),
    {
        let mark = self.mark();
        let r = match self.unknown_of(a) {
            Some(e) => {
                let mut e = e;
                e.negate();
                self.define_fresh(e)
            },
            None => None,
        };
        if r.is_none() {
            self.undo_to(&mark);
            proof {
                old(self).solver().lemma_bounds_len();
            }
        }
        r
    }

    fn delay_product(&mut self, kind: ProductKind, a: SVar, b: SVar, a_addr: Addr, b_addr: Addr) -> (r: Option<Addr>)
        requires
            old(self).wf(),
        ensures
            r matches Some(n) ==> n == old(self).heap_len() && final(self).quiescent(),
            final(self).evolves(&*old(self)),
    {
        let n_addr = self.new_var();
        let n = self.fresh_svar();
        self.set_numvar(n_addr, n);
        self.push_product(Product { n, kind, a, b, a_addr, b_addr, pending: true });
        // Maybe already linear (a factor determined): settle decides.
        if self.settle() {
            Some(n_addr)
        } else {
            None
        }
    }

    fn post_arith_inner(&mut self, op: ArithOp, a: Addr, b: Addr) -> (r: Option<Addr>)
        requires
            old(self).wf(),
        ensures
            old(self).num_at(a) is Some && old(self).num_at(b) is Some ==> (r is Some <==> !(op is Div
                && (old(self).num_at(b)->0).0 == 0)),
            old(self).num_at(a) is Some && old(self).num_at(b) is Some && r is Some ==> r == Some(old(self).heap_len() as usize),
            final(self).evolves(&*old(self)),
    {
        let la = match self.unknown_of(a) {
            Some(e) => e,
            None => {
                return None;
            },
        };
        let lb = match self.unknown_of(b) {
            Some(e) => e,
            None => {
                return None;
            },
        };
        match op {
            ArithOp::Add => {
                let mut e = la;
                e.add(&lb);
                self.define_fresh(e)
            },
            ArithOp::Sub => {
                let mut e = la;
                e.sub(&lb);
                self.define_fresh(e)
            },
            ArithOp::Mul => {
                if let Some(c) = la.as_constant() {
                    let mut e = lb.copy();
                    e.scale(c);
                    return self.define_fresh(e);
                }
                if let Some(c) = lb.as_constant() {
                    let mut e = la.copy();
                    e.scale(c);
                    return self.define_fresh(e);
                }
                let av = match self.linear_var(la) {
                    Some(v) => v,
                    None => {
                        return None;
                    },
                };
                let bv = match self.linear_var(lb) {
                    Some(v) => v,
                    None => {
                        return None;
                    },
                };
                self.delay_product(ProductKind::Mul, av, bv, a, b)
            },
            ArithOp::Div => {
                if let Some(c) = lb.as_constant() {
                    // Division by zero fails.
                    let inv = match c.recip() {
                        Some(inv) => inv,
                        None => {
                            return None;
                        },
                    };
                    let mut e = la.copy();
                    e.scale(&inv);
                    return self.define_fresh(e);
                }
                let av = match self.linear_var(la) {
                    Some(v) => v,
                    None => {
                        return None;
                    },
                };
                let bv = match self.linear_var(lb) {
                    Some(v) => v,
                    None => {
                        return None;
                    },
                };
                self.delay_product(ProductKind::Div, av, bv, a, b)
            },
        }
    }

    /// A fresh numeric heap variable `n` with `n = a op b` posted (or delayed
    /// when non-linear). `None` on failure, with the store returned to where
    /// it was.
    pub fn post_arith(&mut self, op: ArithOp, a: Addr, b: Addr) -> (r: Option<Addr>)
        requires
            old(self).wf(),
        ensures
            old(self).num_at(a) is Some && old(self).num_at(b) is Some ==> (r is Some <==> !(op is Div
                && (old(self).num_at(b)->0).0 == 0)),
            old(self).num_at(a) is Some && old(self).num_at(b) is Some && r is Some ==> r == Some(old(self).heap_len() as usize),
            final(self).evolves(&*old(self)),
            r is None ==> final(self).image() == old(self).image() && final(self).trail_len() == old(self).trail_len(),
            r is None ==> final(self).bounds_kept(&*old(self)),
    {
        let mark = self.mark();
        let r = self.post_arith_inner(op, a, b);
        if r.is_none() {
            self.undo_to(&mark);
            proof {
                old(self).solver().lemma_bounds_len();
            }
        }
        r
    }

    /// Where the world ends: attribute terms and numeric disequations
    /// registered before the current query.
    pub closed spec fn baselines(&self) -> (nat, nat) {
        (self.baseline_attrs as nat, self.baseline_numdifs as nat)
    }

    /// The definitions of defined solver variables, by variable.
    pub closed spec fn defs_spec(&self) -> Seq<Option<LinExpr>> {
        self.defs@
    }

    /// The pending non-linear residue.
    pub closed spec fn nonlinear_spec(&self) -> Option<(Addr, Addr, char)> {
        self.nonlinear
    }

    /// The sticky error.
    pub closed spec fn error_spec(&self) -> Option<EvalError> {
        self.error
    }

    /// The number of attribute terms registered.
    pub(crate) fn attr_count(&self) -> (n: usize)
        ensures
            n == self.image().attrs.len(),
    {
        self.attrs.len()
    }

    /// The `i`-th attribute term and its unknown.
    pub(crate) fn attr(&self, i: usize) -> (r: Option<(Addr, SVar)>)
        ensures
            r == (if i < self.image().attrs.len() {
                Some((self.image().attrs[i as int].term, self.image().attrs[i as int].svar))
            } else {
                None
            }),
    {
        if i < self.attrs.len() {
            Some((self.attrs[i].term, self.attrs[i].svar))
        } else {
            None
        }
    }

    /// Attribute terms before this index belong to the world.
    pub(crate) fn baseline_attrs(&self) -> (n: usize)
        ensures
            n == self.baselines().0,
    {
        self.baseline_attrs
    }

    /// Numeric disequations before this index belong to the world.
    pub(crate) fn baseline_numdifs(&self) -> (n: usize)
        ensures
            n == self.baselines().1,
    {
        self.baseline_numdifs
    }

    /// The number of numeric disequations posted.
    pub(crate) fn numdif_count(&self) -> (n: usize)
        ensures
            n == self.image().numdifs.len(),
    {
        self.numdifs.len()
    }

    /// The `i`-th numeric disequation: pending, and its two sides.
    pub(crate) fn numdif(&self, i: usize) -> (r: Option<(bool, Addr, Addr)>)
        ensures
            r == (if i < self.image().numdifs.len() {
                Some((self.image().numdifs[i as int].pending, self.image().numdifs[i as int].a, self.image().numdifs[i as int].b))
            } else {
                None
            }),
    {
        if i < self.numdifs.len() {
            Some((self.numdifs[i].pending, self.numdifs[i].a, self.numdifs[i].b))
        } else {
            None
        }
    }

    /// One more than the largest solver variable with a definition.
    pub(crate) fn def_count(&self) -> (n: usize)
        ensures
            n == self.defs_spec().len(),
    {
        self.defs.len()
    }

    /// Take the pending non-linear residue, if any.
    pub(crate) fn take_nonlinear(&mut self) -> (r: Option<(Addr, Addr, char)>)
        requires
            old(self).wf(),
        ensures
            final(self).evolves(&*old(self)),
            r == old(self).nonlinear_spec(),
            final(self).nonlinear_spec() is None,
            final(self).image() == old(self).image(),
            final(self).error_spec() == old(self).error_spec(),
    {
        let mut r: Option<(Addr, Addr, char)> = None;
        std::mem::swap(&mut r, &mut self.nonlinear);
        r
    }

    /// True if a non-linear residue stopped the search.
    pub(crate) fn has_nonlinear(&self) -> (b: bool)
        ensures
            b == self.nonlinear_spec() is Some,
    {
        self.nonlinear.is_some()
    }

    /// Take the sticky error, if any.
    pub(crate) fn take_error(&mut self) -> (e: Option<EvalError>)
        requires
            old(self).wf(),
        ensures
            final(self).evolves(&*old(self)),
            e == old(self).error_spec(),
            final(self).error_spec() is None,
            final(self).image() == old(self).image(),
            final(self).nonlinear_spec() == old(self).nonlinear_spec(),
    {
        let mut e: Option<EvalError> = None;
        std::mem::swap(&mut e, &mut self.error);
        e
    }

    /// True if a sticky error is set.
    pub(crate) fn has_error(&self) -> (b: bool)
        ensures
            b == self.error_spec() is Some,
    {
        self.error.is_some()
    }
}

} // verus!
