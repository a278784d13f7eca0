# lognplot

A time series database for live plotting: signals of timestamped values,
texts and profile events, kept per signal in an append-only B-tree that
stores a summary (count, time span, metrics) per chunk, so that a time range
can be queried at the level of detail a plot needs, and summarised quickly.

## Layout

- `src/` — the library, verified with Verus.
  - `time` — timestamps (nanoseconds) and closed time spans.
  - `observations` — observations, metrics and aggregations (summaries).
  - `btree` — the tree: appending, range queries, range summaries.
  - `trace`, `track`, `db` — one signal, a signal of any kind, and the
    database of named signals with backups of overwritten tracks.
  - `notify` — change events and the subscribers that forward them.
  - `query`, `query_result`, `summary`, `track_type` — requests, answers,
    summaries and the decision where new observations go.
  - `binzip` — the rows of the BINZIP data files.
  - `colors`, `session`, `shipper` — curve colors, the dashboard layout, and
    lines of strace output as the log shipper reads them.
  - `layout` — which charts a grid layout shows, and which chart a key
    selects.
- `app/` — plain Rust around the library: scalar samples and their floating
  point statistics, the thread-safe database handle, and reading and writing
  of files (BINZIP archives, JSON sessions).
- `tests/` — tests of the library.
