# darkreach

The computational core of a distributed prime-hunting platform, written in
Verus. The functions in `src/` carry contracts that the verifier checks; the
calls into `num-bigint`, `serde_json`, `sha2` and std string routines sit in
small trusted wrappers whose contracts restate those crates' documentation.

- `search/` — the block search engine: candidate generation for the twelve
  prime forms (k·b^n ± 1, twin, Sophie Germain, factorial, primorial,
  Cullen/Woodall, Carol/Kynea, generalized Fermat, Wagstaff, repunit,
  palindromic, near-repdigit), Montgomery arithmetic, modular sieves,
  trial division and Miller-Rabin, and the JSON/SHA-256 result framing.
  `search/complete.rs` proves that no prime candidate is missed.
- `bignum.rs` — arbitrary-precision naturals (arithmetic through
  `num-bigint`).
- `ecm.rs`, `batch_gcd.rs`, `gerbicz.rs`, `aurifeuillean.rs`,
  `classify.rs` — composite filters, the Gerbicz error check and prime
  classification.
- `dashboard/`, `agent_daemon.rs`, `ai_engine.rs`, `commands.rs`,
  `log_layer.rs` — the decisions of the coordinator service: request
  classification, contribution checks, health status, periodic jobs,
  agent bookkeeping.

`app/` holds what stays outside the verifier: environment settings, header
plumbing, serde wire types and floating-point cost models. `tests/` runs the
library on concrete values.
