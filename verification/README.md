# lau_calm_noether

Coordination-free (CALM) multi-agent learning rules, permutation symmetry
and conserved (Noether) charges, verified with Verus.

## Layout

- `src/` — the verified library. Worlds of agents are kept in agent order
  (byte order of the identifiers) with that order as a type invariant; the
  states are generic over their value type, and every checker takes the
  functions it compares with (a rule, a charge, a closeness relation) as
  arguments, so that its result is stated exactly in its contract.
  - `order` — the agent order and its laws.
  - `agent` — identifiers, states, worlds, simultaneous updates,
    permutations, partition and merge.
  - `pure` — what the checkers ask of the functions handed to them.
  - `aci`, `calm`, `noether`, `lyapunov`, `conservation`, `generator`,
    `partition`, `plato` — the checks, each with its laws.
  - `text` — the text of results and reports.
- `app/` — the library at `f64`: the learning rules, charges, tolerances and
  drift measures (floating-point arithmetic), serializable copies of the
  types, and random test worlds.
- `tests/` — tests of the library.

## Scope

Identifying the symmetry group of a rule is not part of this crate. So there
is no end-to-end verification of the built-in fleet rules from the rule alone,
and no conserved charge is derived from a symmetry group:
`plato::verification_result` takes the symmetry that was found and the checks'
results as inputs, `noether` checks candidate charges that are handed to it,
and `generate_rule` / `generate_all_rules` in `app/` are built from the
aggregation alone.
