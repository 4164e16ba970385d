# ArrowRust, verified

A library for ArrowRust, a dialect of Rust with arrow pipelines
(`x -> f -> y;`), and for the standard modules that translated programs link,
written in Verus: every public function in `src/` carries a contract, and
the whole library is proved by Verus (a few small private helpers state no
contract of their own; their bodies are verified all the same).

## Layout

- `src/text.rs`: character-sequence operations (trim, find, split, replace,
  lines, words) with their specifications.
- `src/parser.rs`: the line compiler of the first arrow dialect
  (`compile_arrow_line`).
- `src/transpiler.rs`: the line translator (`transpile_line`, and
  `transpile_text` for a whole file): arrows,
  `pass`, `import std;`, `tuple`, `customtype`, `repeat`, dictionaries,
  `input()`, `.cp->`, comments and the ignore markers.
- `src/macros.rs`: the preprocessor (`//#DEFINE`, `//#ENABLE_MACRO`,
  `//#INCLUDE`, ...) as a state machine, `Dialect`, that asks its caller to
  read included files.
- `src/bigint.rs`, `src/signed.rs`, `src/gcd.rs`, `src/fraction.rs`: 1024-bit
  unsigned and signed integers, greatest common divisors and fractions.
- `src/base.rs`, `src/value.rs`, `src/safe_types.rs`, `src/bits.rs`:
  `OpStatus`, `SafeString`, `Value`, `Dict`, the safe vectors and dictionary,
  and bit access on values.
- `src/terminal.rs`: terminal escape sequences and box drawing, as text.
- `src/random.rs`: random numbers and characters from given entropy.
- `app/`: the command-line translator `arrowc` (files, includes, `rustc`),
  writing to the terminal, gathering entropy, and printing values.
- `tests/`: tests of the library.
