//! Errors raised while compiling or running a program.

use vstd::prelude::*;
use crate::parser::Span;
use crate::number::nat_decimal;
use crate::text::push_usize;
use crate::text::{push_str, string_from_chars};

verus! {

/// An error compiling, loading or running a program.
#[derive(Debug, Clone, PartialEq, Eq)]
pub enum EvalError {
    /// A construct the evaluator does not support. `clause` is the 1-based
    /// index of the offending clause, `span` where it starts (when known),
    /// `text` renders it.
    Unsupported { clause: usize, span: Option<Span>, text: String, what: String },
    /// The program's constraint facts are jointly unsatisfiable: it has no
    /// models, so no query could ever succeed.
    InitialStoreUnsatisfiable,
    /// A non-linear product is still undetermined when an answer is due;
    /// Claimr never approximates.
    NonLinear { constraint: String },
    /// An attribute term (a term in numeric position) is a cyclic tree.
    CyclicAttributeTerm { term: String },
}

/// The message of an error.
pub open spec fn error_text(e: EvalError) -> Seq<char> {
    match e {
        EvalError::Unsupported { clause, span, text, what } => {
            let at = match span {
                Some(sp) => nat_decimal(sp.line as nat) + ":"@ + nat_decimal(sp.column as nat) + ": "@,
                None => Seq::empty(),
            };
            at + "clause "@ + nat_decimal(clause as nat) + " `"@ + text@ + "`: "@ + what@
        },
        EvalError::InitialStoreUnsatisfiable => "the program's constraint facts are unsatisfiable (no models)"@,
        EvalError::NonLinear { constraint } => "non-linear constraint `"@ + constraint@
            + "` is still undetermined; claimr does not approximate (evaluator stage 3 supports linear constraints only)"@,
        EvalError::CyclicAttributeTerm { term } => "attribute term `"@ + term@
            + "` is cyclic; a term in numeric position must be a finite tree"@,
    }
}

impl EvalError {
    /// The source position this error points at, if known.
    pub fn span(&self) -> (r: Option<Span>)
        ensures
            r == (match *self {
                EvalError::Unsupported { span, .. } => span,
                _ => None,
            }),
    {
        match self {
            EvalError::Unsupported { span, .. } => *span,
            _ => None,
        }
    }

    /// The message, as a line of text.
    pub fn to_string(&self) -> (s: String)
        ensures
            s@ == error_text(*self),
    {
        let mut out: Vec<char> = Vec::new();
        match self {
            EvalError::Unsupported { clause, span, text, what } => {
                if let Some(sp) = span {
                    push_usize(&mut out, sp.line);
                    push_str(&mut out, ":");
                    push_usize(&mut out, sp.column);
                    push_str(&mut out, ": ");
                }
                let ghost at = match *span {
                    Some(sp) => nat_decimal(sp.line as nat) + ":"@ + nat_decimal(sp.column as nat) + ": "@,
                    None => Seq::<char>::empty(),
                };
                proof {
                    assert(out@ =~= at);
                }
                push_str(&mut out, "clause ");
                push_usize(&mut out, *clause);
                push_str(&mut out, " `");
                push_str(&mut out, text.as_str());
                push_str(&mut out, "`: ");
                push_str(&mut out, what.as_str());
                proof {
                    assert(out@ =~= error_text(*self));
                }
            },
            EvalError::InitialStoreUnsatisfiable => {
                return "the program's constraint facts are unsatisfiable (no models)".to_string();
            },
            EvalError::NonLinear { constraint } => {
                push_str(&mut out, "non-linear constraint `");
                push_str(&mut out, constraint.as_str());
                push_str(
                    &mut out,
                    "` is still undetermined; claimr does not approximate (evaluator stage 3 supports linear constraints only)",
                );
                proof {
                    assert(out@ =~= error_text(*self));
                }
            },
            EvalError::CyclicAttributeTerm { term } => {
                push_str(&mut out, "attribute term `");
                push_str(&mut out, term.as_str());
                push_str(&mut out, "` is cyclic; a term in numeric position must be a finite tree");
                proof {
                    assert(out@ =~= error_text(*self));
                }
            },
        }
        string_from_chars(&out)
    }
}

} // verus!
