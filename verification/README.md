# patmat

Space-based exhaustivity and reachability checking for pattern matching,
written in Verus. Pattern matching is modelled as set algebra over spaces of
values; a match is exhaustive when the scrutinee space is covered by the arms,
and an arm is unreachable when the arms before it already cover it.

## Layout

- `src/space.rs`: the interned space context (`SpaceContext`, `Space`,
  `SpaceKind`), with its invariant and the interning laws.
- `src/interner.rs`: `DedupInterner` and `IdentityInterner`.
- `src/operations.rs`: the `SpaceOperations` trait that a host type system
  implements.
- `src/engine.rs`, `src/match_analysis.rs`: the engine (simplification,
  subspace checks, subtraction, intersection, flattening) and the match
  analysis built on it.
- `src/cache.rs`: the engine's memo tables, kept in `hashbrown` maps.
- `src/dsl/`: a small language of algebraic data types and one match block:
  lexer, parser (against a grammar written as spec functions), declaration
  checks, lowering of patterns to spaces, and the analysis report.
- `app/lib.rs`: the browser entry point, which serialises the report.
- `tests/`: the test suite.

## What is proved

Each engine operation states, case by case, how its answer follows from the
answers of the host's `SpaceOperations` and from the engine's other answers:
subtraction, subspace checks, intersection, simplification, flattening and
size estimates. The match analysis states which path of subtractions decides
exhaustivity, and which arms it reports unreachable or null-only.

The engine's recursion goes through the host's decompositions, which need not
bottom out, so every operation runs under a step budget (`u64::MAX` steps on a
fresh engine) that makes it terminate. These statements hold whenever steps
remain after the call; `SpaceEngine::steps_left` reports how many do.
