# fagra

Factor graphs over Lie-group variables: typed storage behind generational handles,
Gauss-Newton and Levenberg-Marquardt over replaceable linear backends, square-root
marginalization, and joint covariance of selected variables. The library is verified with
Verus.

## Layout

- `src/` is the verified library.
  - Storage: `key`, `dense`, `storage`, `index`, `states`, `families`, `access`,
    `factor_store`, `pair`.
  - What users implement: `variable`, `factors`, `reading`; what they emit: `linearization`,
    checked by `sink`.
  - Linear backends: `backend`, `normal`, `linear_model`, `information`, `block_factors`,
    `lsmr`, `schur`.
  - Nonlinear methods: `optimization`, `gauss_newton`, `levenberg_marquardt`, and in
    `accounting` what the diagnostics of the latter account for.
  - Marginalization: `gather`, `front`, `elimination`, `priors`, `marginalization`.
  - Graphs: `layout`, `problem`, `solver`, `covariance`, `journal`.
  - Property checks of user types: `testing`.
  - `laws` states what holds across several operations; every other law stands with the
    functions it is about.
- `app/` adds what only a running program has: native floating-point scalars, kernels from
  faer, process-wide identities, observers, standard errors, schema macros, and random
  testing with proptest.
- `tests/` runs the library on concrete graphs, with faer underneath.

## What is proved, and of what

Scalars are values of a type with operations that are functions (`scalar::Real`); nothing is
said of rounding. Where the library itself computes a number, the contract gives it as an
expression in these operations, down to the order of summation. A numerical kernel
(`kernels`, `elimination::PivotedQr`) is some function of what it reads of its arguments, and
nothing more is known of it: what it returns is checked before it is used, so indices stay in
range, failures are reported, and a failed operation leaves the accepted estimates as they
were whatever a kernel computes. What an optimization does with the answers of its backend is
stated round by round and attempt by attempt.

Implementing a library trait outside verified code means to write its mathematical
functions as ordinary ones that are never called; `notation` names the types they need. A
variable has its own version of making tangent vectors, retraction and local coordinates, and
`testing` examines what these do; `variable::{copied, right_retraction, right_difference}` are
their plain forms.
