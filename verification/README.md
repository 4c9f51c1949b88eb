# zkvm_verifier

Checks whether instructions of a zkVM, written in the language of `.zir` files, are
deterministic: whether two runs with the same inputs always have the same outputs. The
library is written in Rust and verified with Verus.

## How a check goes

1. `loader` says which files to read, and puts the items of a file behind those of its
   imports.
2. `parser` turns a text into tokens and tokens into items; `parser::grammar` is the grammar
   as a mathematical function.
3. `ir` lowers a component to an instruction: inputs, outputs, other variables and
   constraints. `ir::rules` says what lowering yields.
4. The instruction stands twice in a question to a solver, once for each run (`model`). The
   question is put over 32-bit words (`verifier_bv`), over the integers (`verifier_int`), over
   the prime field with 2013265921 elements as a script (`verifier_ff`) or as a system of
   polynomials (`verifier_msolve`). `smt` holds the terms and the steps of the conversation.
5. `cli` reads the command line and writes the reports.

## What is proved beyond the contracts

`laws` holds what relates several functions:

- `determinism` says what it means that an instruction is deterministic; `integers`, `words`,
  `finite` and `polynomials` prove what an answer to each of the questions means, and
  `components` what it means for a component.
- `lowering`, `naming`, `calls` and `depth` hold what every instruction that was lowered has;
  `scope` proves that its variables are declared where every name is bound.
- `steps` follows what lowering adds; from it `guards` has what a branch and a call add: equations
  under the guard of the branch, and no outputs.
- `items` and `abstracts` prove that neither imports, nor the order of definitions, nor names of
  nothing among those that are not expanded matter.
- `places`, `joining`, `lines`, `branches`, `printing`, `reading` and `rewriting` are about texts: a
  phrase means the same wherever it stands, two texts behind each other mean both, the line of a
  token counts the line breaks before it, a mux has a block for each guard, and an expression that
  was read and is written out is read as the same expression, alone and in a component.
- `arithmetic`, `division` and `field` hold the arithmetic of guards, bits, quotients and the
  field, whose number of elements is proved to be prime.
- `loading` proves that the loader loads what a recursive reading would, and no file twice.

What is not proved is declared in two places: `text` for a few functions of `std`, and `smt` for
the terms of the crate `smtlib`, each by the text in which it prints.

## Layout

- `src/` is the library, `tests/` its tests.
- `app/` is the program around it: it reads files, talks to `cvc5` and `msolve`, and prints.
