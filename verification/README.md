# scryer_core

An architecture model of intent: nodes, links, groups and the claims they make, the plan
that edits a committed model, and everything that is computed from the two.

- `src/` is the library, verified with Verus. `model` holds the types, `diff` the plan,
  `changes` with `ledger` and `signoff` the named changes of a plan, `commit` the folding
  of the plan into the committed model, `basis` the tokens that tell a reader whether what
  they read has moved. `health`, `completeness`, `build_edges`, `locate`, `drift` and
  `occurrences` read a model; `checked` has the entrances that ask nothing of a caller.
  `ears`, `concerns`, `rules`, `refusals`, `history`, `percent` and `ids` are what the name says.
- What holds of several functions together is stated as public proof functions named
  `law_..`, next to the functions, and in `plan_laws`, `fold_laws`, `revert_laws`,
  `untouched_laws`, `abandon_laws`, `signoff_laws` and `forest_laws`.
- `app/` keeps a project on disk: JSON, files, the walk over a project and its repository.
- `tests/` runs the library on concrete values.

Outside crates are called from `ownership` (glob), `json` and `basis` (serde_json, flate2,
base64); the standard library's letters from `letters`, and its hasher from `ids`. What is
taken on trust of each call stands in the contract above it.
