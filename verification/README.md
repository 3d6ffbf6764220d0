# claimr

A constraint logic programming language in the style of Prolog III, written
in Verus: facts, rules, queries and first-class constraints over exact
rational numbers, answered by SLD resolution over rational trees with a
linear constraint store.

## Layout

- `src/` — the library, verified by Verus.
  - `number.rs` exact rationals (arbitrary precision through `num-rational`),
    `text.rs` character and string helpers.
  - `ast.rs` the syntax tree and its surface text; `parser.rs` the tokenizer
    and parser, with positioned errors; `highlight.rs` a line lexer for
    editors.
  - `solver/` δ-rationals, linear expressions and the simplex with
    backtracking.
  - `eval/` the term store with its trail, compilation of clauses, the
    resolution machine, answers in solved form, and the elimination of
    internal variables (`project.rs`).
  - `json_out.rs` the JSON documents of `--json`; `cli.rs` the command line;
    `session.rs` the interactive session and the decisions of the loop.
- `app/` — the `claimr` program: reading files and lines, printing, the line
  editor and Ctrl-C.
- `tests/` — tests of the library.

## What is proved

Besides memory safety, termination and the absence of overflow, the
contracts state, among others: exact rational arithmetic; that a program
reads as its grammar says (the tokens of the source, then the clauses the
recursive-descent grammar gives, or the offset and message where it stops);
that compilation turns each clause into the template of its predicate, in
program order, and each query and constraint fact into its goals; that the
simplex reports a feasible store only with an assignment inside every bound,
and that a bound it accepts holds afterwards; that returning to a mark
restores everything the trail records (heap slots, disequations, attribute
entries and index, numeric disequations, delayed products, alias links) and
the solver's bounds; that a failed constraint restores the trailed tables
and the bounds of every solver variable that existed before it, and a
successful one leaves the store quiescent (nothing woken, no cheap numeric
consequence left to draw); that a finished search stays finished, that after
an answer with no alternative left the next request reports the end, and
that answers come only when no non-linear product is pending; how many
disequations an answer shows, and that its numeric disequations close its
constraints; the leading equations of an answer, one per query variable that
is bound, aliases an earlier one or has a fixed value, in query-variable
order (exact text for aliases, numbers, constants and fixed values; `X = …`
for structures); that the constraints of an answer hold the bound lines of
the class of every visible numeric variable without a fixed value, with its
tightest bounds in their direction; that constraint facts made only of
disequations between different constants always compile; how the parts of an
answer are joined into its text, and the exact text of errors and JSON
documents; that Gaussian substitution leaves no equality over an internal
variable and keeps every inequality and disequation, in order, and that
Fourier–Motzkin leaves no internal variable but its survivors and keeps the
disequations as they were; the tokens an editor line lexes to; and how the
command line and the lines typed at the prompt are read.

Not proved: which answers a query has and in what order, what a successful
unification or disequation means, that a failing simplex check means the
constraints are infeasible, that compilation fails only on unsatisfiable
constraint facts, the text of a structure's rendering and of the solved-form
equations among the constraint lines, and that answers are projected onto
the query variables (the projection steps are proved on their own but not
applied to answers).
