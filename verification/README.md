# magmahunt

Finite-counterexample search for implications between equational laws over
magmas (sets with one binary operation), verified with Verus.

Given a hypothesis such as `x ◇ y = y ◇ x` and a conclusion such as
`x ◇ (y ◇ z) = (x ◇ y) ◇ z`, the library looks for the smallest magma that
satisfies the first and violates the second. It backtracks over partial
operation tables with watch lists, keeps one table per isomorphism class
(lex-leaders), proves cheap implications syntactically, fills whole
implication matrices, and re-checks every answer with an independent
brute-force checker.

## Layout

- `src/` — the verified library.
  - `law.rs`: terms, laws, the parser and printer, the law generator.
  - `eval.rs`: postfix programs and partial evaluation on partial tables.
  - `search.rs`: the backtracking model search with symmetry breaking.
  - `symmetry.rs`: relabelling, lex-leaders, one leader per isomorphism class.
  - `verify.rs`: the independent checker and its agreement with `eval.rs`.
  - `implication.rs`: syntactic proofs and their transitive closure.
  - `matrix.rs`: implication matrices, CSV and witness listings.
  - `naive.rs`: plain enumeration of all tables.
  - `agreement.rs`, `round_trip.rs`, `canonical.rs`, `generator.rs`: laws
    that relate the search to enumeration, printing to parsing, the
    generator's keys to renaming and swapping sides, and the generated list
    to operation counts.
  - `complete.rs`: the generator misses no law within its operation and
    variable limits.
  - `cli.rs`: command-line options; `text.rs`: string building.
- `app/main.rs` — the command-line program: reads files, prints, times.
- `tests/` — tests on concrete values.

## Usage

```
magmahunt refute '<hypothesis>' '<conclusion>' [--max-size N] [--no-symmetry]
magmahunt matrix <laws.txt> [--max-size N] [--out-dir DIR] [--no-symmetry]
magmahunt count '<law>' --size N [--no-symmetry]
magmahunt laws [--max-ops K] [--limit N]
```
