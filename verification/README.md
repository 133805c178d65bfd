# zkdtvm STARK verifier

A verified library for the proof system of zkdtvm: every item under `src/` is checked by Verus
against the contract that stands with it.

- `src/field/`: the KoalaBear and BabyBear fields and their extension of degree four.
- `src/bits.rs`: logarithms, powers of two and reversed bits.
- `src/basefold/`: the multilinear commitment scheme. Encoding and folding, the transcript, the
  Merkle commitments, the sum check, and the opening and the verification in both configurations:
  with one sum check over all folding rounds, and with an answer out of the domain between them.
- `src/recursion/`: the recursion machine. Its instructions and programs, the run of a program, the
  events that it leaves, and the tables with their rows and constraints.
- `src/stark/`: the lookup argument, the keys, the proofs and the machine's verification.
- `src/verify.rs`: the verdict on a compressed proof: size limits, the pinned release artifact, and
  the order of the checks.

The proof functions whose names begin with `law_` state what holds of several functions together:
that honest openings are accepted, that folding an encoded polynomial encodes the bound one, that
the rows which the tables are filled with satisfy their constraints.

`tests/` runs the library with the outside crates that it calls. `app/` is the command line
program: arguments, files, the environment, and the calls into the crates of the release.
