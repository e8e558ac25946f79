# zkpolicy

Zero-knowledge checking of Prolog-style policy proofs: a proof tree produced by
a meta-interpreter is checked against rule templates derived from the policy,
and facts are committed to by salted Poseidon hashes published by an issuer.

## Layout

- `src/` — the verified library (Verus). It holds the data model, the
  Prolog policy grammar (`prolog.rs`), the reading of clauses into rule
  templates, the encoding of goals into field
  elements, the per-goal decisions of the proof-tree checker, and the witness
  values of every circuit check (signature membership, fact lookup, built-in
  arithmetic chains, equality rows, dot products, Poseidon trees), each with a
  contract over a mathematical model. `guard.rs` decides the preconditions
  that unchecked input must meet. Laws spanning several functions stand as
  public proof functions (`law_*`).
- `tests/` — tests of the library on concrete values.
- `app/` — the command-line programs (`tokens`, `issue`, `prove`, `verify`,
  `check`, `batch`, `mock`): file I/O, JSON/YAML forms of the data, and the proof-system
  circuits whose witnesses the library computes.

## Working directory

- `tokens [policy.pl]` reads the Prolog policy (by default
  `prolog/policy.pl`) and writes `input/rules.json`.
- `issue` reads `issue/src/facts.yaml` and writes `input/fact_hashes.json`.
- `prove` reads the facts, `input/rules.json`, `input/proof_tree.json` and
  `input/fact_hashes.json`, and writes `output/unif_proofs.json`.
- `verify` checks `output/unif_proofs.json` against the public hashes.
- `check` checks `proof_tree.json` against `rules_template.json`.
- `batch` proves, in one circuit, that each root goal of
  `input/proof_tree.json` agrees in name and arity with its clause head.
- `mock` runs the unification circuit of each goal in the mock prover.
