# EngramDB core

The core of an embedded analytical database in Verus: what it computes is stated
in contracts over mathematical models and proved.

- `src/common`: column data, configuration, errors, the order of values, memory
  pools, and the text codec (pretokenizer, tokenizer, Huffman codes, vocabulary
  file).
- `src/executor`: vectors and batches, the expression evaluator, the operators,
  and the execution of plans.
- `src/storage`: tables, transactions and the database that plans read and
  write.
- `src/datafusion_ext`: the types, arrays and catalog that DataFusion sees.
- `src/float`: doubles and singles by their bits. Arithmetic on them, their text
  and the clock are questions that the caller's environment answers (see
  `src/executor/env.rs`).
- `app`: what runs around the library: the environment, the arena of a query,
  serialized copies of the records, the providers for DataFusion.

A contract speaks of the model of a value: `deep_view` of a vector is a column of
data, of a batch a chunk, of a plan a tree, of a database the tables with their
slots. Laws that relate several functions are public proof functions whose names
begin with `law_`.

RANDOM is the one source of chance. `src/executor/expression/draws.rs` states what
an expression can give with it, and `src/executor/draw_laws.rs` that a plan without
it ends in one way only.

Plans that read are executed batch by batch where that can be done, and else row by
row. `src/executor/agreement.rs` states of which plans both give the same rows.
