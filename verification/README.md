# veloq-bank

Static reasoning about shared-memory bank conflicts on GPUs and about CuTe-style
XOR swizzles `Swizzle<B, M, S>`, written in Verus and proved against its contracts.

Given a 2-D strided layout, an element type, an optional swizzle, a bank model and
the coordinates that each lane reads, the library traces every access to its
logical offset, physical (swizzled) offset, byte address and bank, and measures
the conflicts: how many distinct addresses each bank receives within a group
(lanes reading one address share a broadcast), how many banks and accesses are in
conflict, and the worst degree. It can rank a list of swizzles by those measures,
search a box of swizzle parameters for the best ones, and explain what a swizzle
does to the bits of an offset.

Layout:

- `src/` — the verified library.
  - `swizzle.rs`: swizzle parameters, application, bit ranges, text form; the
    laws that a valid swizzle is its own inverse, flips exactly the target bits
    by the source bits, and reads back from its text in every accepted form.
  - `layout.rs`, `dtype.rs`, `bank.rs`: layouts and their parsers, element types,
    bank models.
  - `access.rs`: access entries and the inline `lane:row,col[:group]` notation,
    which reads back any non-empty list written in it.
  - `analyze.rs`: tracing, the conflict summary, comparison and search, with the
    laws relating the measures and the ranking.
  - `explain.rs`, `rank.rs`, `output.rs`, `cli.rs`: explanations, the ranking
    order and its sort, tables of text for output, the search-range notation.
  - `text.rs`: trimming, splitting and decimal numbers, specified character by
    character.
  - `error.rs`: the error type, its codes and hints.
- `tests/` — tests on concrete values.
- `app/` — the `bank` command: arguments (clap), access files and JSON output
  (serde), and printing.
