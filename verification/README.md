# polar_core: simplification of partial constraints

A verified library that simplifies the constraints that a policy query leaves
on its variables ("partials") before they are handed back to the host
language.

Layout of `src/`:

- `terms.rs`: symbols, values, terms and operations, their mathematical model
  (`TermModel`, `OpModel`), structural equality, groundness, variables, mirror
  images of comparisons.
- `bindings.rs`: `Bindings`, a map from variable names to terms, viewed as a
  `Map<Name, TermModel>`.
- `partial.rs`: negation of constraints (`invert_operation`).
- `model.rs`: what each step of simplification computes, as spec functions;
  a step that cannot complete is `None`, and the passes of the simplifier
  carry a fuel argument that bounds their depth.
- `cycles.rs`: cycles of variables unified with each other.
- `simplify.rs`: `sub_this`, `Simplifier`, `simplify_partial` and
  `simplify_bindings`, each proved to compute what `model.rs` states.
- `laws.rs`: properties that hold for every input (quiescence, negation does
  not leak bindings, deduplication, which bindings are given back, ...).

Every public function's contract states its result exactly in terms of the
model. `Simplifier::simplify_partial`, `simplify_partial` and
`simplify_bindings` require that their computation completes
(`simplify_runs`, `simplify_partial_ok`, `bindings_ok`, with the fuel that a
64-bit counter holds). Beside each stands a variant that takes the fuel as an
argument, has no precondition, and returns `None` exactly where the model at
that fuel is `None`: `Simplifier::simplify_partial_with_fuel`,
`simplify_partial_with_fuel`, `simplify_bindings_with_fuel`; the one-pass
steps `Simplifier::fold_term` and `Simplifier::fold_operation` work the same
way. More fuel never changes a result that completed (`model.rs`,
`lemma_*_mono`).
