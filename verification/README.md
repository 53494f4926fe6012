# cfgzip

Compresses a language model's token vocabulary against a GBNF grammar:
tokens that are valid in exactly the same grammar contexts share a class,
so a constrained decoder can work on classes instead of single tokens.

## Layout

- `src/` — the verified library (Verus).
  - `text.rs`, `gbnf.rs`, `parse.rs`: reading GBNF text into a grammar and
    a table of terminal patterns.
  - `nfa.rs`, `cfg.rs`: terminal patterns to right-linear byte grammars, and
    the grammar with its start rule and preterminal rules.
  - `grammar.rs`, `symmap.rs`, `symbols.rs`, `normalize.rs`: grammars as
    sorted maps, and their normalization (ε-, unit- and unreachable-rule
    removal, conversion towards Greibach normal form).
  - `classes.rs`, `adjacency.rs`, `traverse.rs`, `table.rs`, `bucket.rs`,
    `output.rs`: numbering the grammar, walking every token through it on a
    trie of byte prefixes, and bucketing tokens by the stack pairs they reach.
  - `tokens.rs`, `pickle.rs`, `sorting.rs`: vocabulary decoding,
    end-of-sequence lookup, output encoding, sorting.
  - `pipeline.rs`: the whole path from grammar text and vocabulary to classes.
- `tests/` — tests of the library.
- `app/` — the command-line program: argument handling, tokenizer download
  and file input/output around the library.
