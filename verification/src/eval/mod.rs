//! The evaluator: rational-tree unification, `dif` by trial unification,
//! the linear numeric store, compilation from the syntax tree, the SLD
//! machine with its trail, and answers in solved form.

pub mod symbol;
pub mod error;
pub mod store;
pub mod compile;
pub mod answer;
pub mod machine;
pub mod project;

pub use answer::Answer;
pub use compile::{Program, Query, VarMap};
pub use error::EvalError;
pub use machine::{Solutions, Step};
pub use store::Mark;
pub use symbol::{Symbol, Symbols};
