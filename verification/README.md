# parseable

A verified catalog for a log store: which files a stream has, what is known of
their columns, and which of them a query needs to read.

Streams are stored as parquet files. A manifest lists the files together with
statistics and indexes of their columns. A query's filters are held against
those: a file that cannot hold a matching row is left out.

## Layout

- `src/catalog/`: manifests and their entries, statistics, and the indexes over
  exact values and over text, with how they are built from a file's rows.
- `src/query/`: pruning by filters (`pruning.rs`) and why it is sound
  (`soundness.rs`), bounds on time (`time_filter.rs`), the choice and sharing out
  of files (`scan.rs`, `staging.rs`), and the steps of a scan (`planner.rs`).
- `src/expr.rs`, `src/datetime.rs`, `src/float.rs`, `src/numeral.rs`,
  `src/text.rs`, `src/terms.rs`, `src/grams.rs`: the values that these work on.
- `app/`: the server around the library, with parquet files, object stores and
  query plans.
- `tests/`: tests of the library.

Everything in `src/` is verified with Verus. What it takes from `std`, `chrono`
and `num_cpus` without proof stands in functions marked
`#[verifier::external_body]`, each with a comment that says what is claimed.

Floating point numbers are held by their IEEE 754 bit patterns and compared as
integers; reading and writing them as text is left to `app/`.
