# gorilla_skew

Integer skews (maps of one `i32` vector onto another by added and
multiplied constants and vectors), their refactoring in batches, sequence
encoders, parenthetical notation for ordered choices, factor arithmetic,
bounded arithmetic and small graph structures, with their contracts
proved by Verus.

- `src/` is the verified library, one module per topic (`skew`,
  `btchcorrctrc`, `seq_encoder`, `ohop`, `parentnot`, `fatorx`, `bmeas`,
  `grafini`, ...).
- `tests/` exercises the library on concrete values.
- `app/` is a small program around it: `f32` helpers for bounds, skews and
  frequency classes, the checks that guard calls into the library, a
  memory store, and a demonstration in `main`. It holds only some of the
  floating-point code; the `f32` correctors, reducers and solvers are not
  part of this crate.

## Collections keyed by strings

Maps and sets whose keys are strings are kept as lists without repeats,
each with a view as a `Map` or `Set` of character sequences: `StrMap`
(`ohop`), `StrSet` and the adjacency list of `UndirectedGraph` (`grafini`).
vstd states what `HashMap` and `HashSet` do only for key types that obey its
key model, and `String` is not among the types it lists, so a hash
collection keyed by `String` gives the proofs nothing about its contents.
