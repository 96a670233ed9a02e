# contest_solvers

Verified solvers for a set of programming puzzles, written in Verus. The
library (`src/`) states in `requires`/`ensures` what each solver computes and
proves it; `app/` is the command-line front end (`contest_solvers <puzzle>`),
which reads standard input and prints answers.

Modules:

- `bigint`, `radix`, `decimal`: arbitrary-precision naturals (add, compare,
  read and print decimal text) with their value model.
- `lexer`, `lambda`: a tokenizer and a small lambda-calculus interpreter with
  big-number builtins, evaluated by an explicit machine.
- `hm`: type inference for the same language by unification.
- `json`, `text`, `utf8_facts`: a reader for a fixed JSON layout of
  `(id, message)` pairs.
- `invasion`: putting HMAC-chained messages back in order (HMAC-SHA256 from
  the `rust-crypto` crate, JSON reading from `serde_json`).
- `boxes`: grouping nearby runs of ones into boxes with a union-find forest.
- `bitwords`, `obsidian`: packed bit grids and a backtracking word placer.
- `darkcells`: the cheapest exact filling with unbounded items, with its
  optimality proved.
- `flips`, `bookreturn`, `mosaic`, `valet`, `fields`: the remaining puzzle
  kernels and the reading of integer lines.

`app/floats.rs` holds the two puzzles computed in floating point, which the
library cannot hold.
