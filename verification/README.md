# pubgrub_crates_benchmark

Resolves every version of every crate of the crates.io index with PubGrub, and writes
down for each how it went.

- `src/` is the library, in Verus: which packages the resolver is shown for a crate
  (`names`), what they demand (`demands`, `constraints`), which versions they can have
  (`choice`, `version`, `version_set`), the index that answers the resolver (`provider`,
  `index_data`), how deep a selection is and whether it can be built (`walk`, `check`),
  and what is reported (`report`). `laws` states what holds of the whole: a solution of
  the demands passes the check.
- `app/` is the program around it: it reads a clone of the index from `index/`, runs the
  resolver on every version in parallel, and writes `out.csv` and, for resolutions that
  fail or take long, files under `out/` from which they can be run again.
- `tests/` runs the library, also under the resolver.

What the library takes from the `semver` crate (the order of versions, reading versions
and requirements, whether a version meets one) is behind the functions marked
`external_body` in `src/version.rs`.
