# crates_dependency_network

Turns the crates.io index into a dependency network and a crates.io
database dump into per-crate labels, with the deciding logic verified by
Verus.

* `src/` — the verified library.
  * `order.rs`, `sort.rs`: the byte order of strings, a merge sort,
    deduplication and binary search over any type with a total order.
  * `index.rs`: index records, which dependencies are kept
    (`filter_deps`), which files and lines of the index count.
  * `release.rs`: the crate an index file stands for: the dependencies of
    all its releases, named by its greatest non-yanked valid SemVer release
    (compared by the `semver` crate; the first of equally great ones).
  * `dump.rs`: the running tally of a scan of the index and when a stored
    dump may be reused.
  * `graph.rs`: in- and out-degrees, ranking, and the core subgraph of the
    most depended-upon crates.
  * `labels.rs`: reading the dump's id/name and relation tables (parsed
    by the `csv` crate), grouping category and keyword labels by crate, and
    the bytes of the label file (written by the `csv` crate).
* `app/` — the command-line program: walking the index directory, reading
  and writing files.
* `tests/` — tests of the library on concrete inputs.
