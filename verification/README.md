# Karma

An open index format for Apache Iceberg: zone maps and split-block Bloom filters in Puffin
sidecars, and the rules by which an engine skips work with them. The library under `src/` is
written in Rust and verified with Verus; the program under `app/` connects it to DataFusion,
Parquet, object stores and HTTP.

| Part | What is proved |
|---|---|
| `zonemap`, `bloom`, `puffin` | the byte layouts, exactly, and that what is written reads back |
| `prune`, `translate`, `table` | which zones a scan reads, exactly, and that no matching row is lost |
| `sidecar` | an index built from the rows of a file covers them |
| `bench` | the benchmark's data, queries and report |
| `json_path`, `session`, `catalog`, `server` | the rules of the SQL front and the service |

Hashing (XXH64), JSON parsing and object-store paths come from outside crates. The functions that
call them say in their comments what is taken on trust. A date or time finer than the index's
units is rounded, and its bound loosened; the two zeros of a float hash apart, and a filter for one
asks for both. So no matching row is lost by either.
