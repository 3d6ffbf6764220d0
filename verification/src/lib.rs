//! Claimr — a constraint logic programming language inspired by Prolog III.
//!
//! The library holds the whole language: exact rational numbers, the parser,
//! the linear constraint solver, the constraint store and the resolution
//! machine, and answer rendering.

pub mod number;
pub mod text;
pub mod solver;
pub mod ast;
pub mod parser;
pub mod eval;
pub mod json_out;
pub mod highlight;
pub mod cli;
pub mod session;

pub use number::{Number, ParseNumberError};
pub use ast::{Atom, ArithOp, Clause, Constraint, ConstraintExpr, Expr, Goal, RelOp, display_name, name_is_plain};
pub use eval::{Answer, EvalError, Program, Query, Solutions, Step};
pub use parser::{Completeness, ParseError, Span, all_consuming_parse_clause, completeness, parse_program, parse_program_spanned};
