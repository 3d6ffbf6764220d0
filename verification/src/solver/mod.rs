//! The linear constraint solver over exact rationals: a general simplex in
//! the style of Dutertre & de Moura (*A Fast Linear-Arithmetic Solver for
//! DPLL(T)*, CAV 2006) — a tableau of linear rows, per-variable bounds,
//! Bland's rule, incremental bound assertion with backtracking by restoring
//! bounds. Strict bounds use δ-rationals. All arithmetic is exact.

pub mod delta;
pub mod linexpr;
pub mod simplex;

pub use delta::Delta;
pub use linexpr::LinExpr;
pub use simplex::{Bound, Mark, RelOp, SVar, Simplex, fits, in_range, lemma_in_range_mono};
