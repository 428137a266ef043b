# cherry_harvest

Finds cherry-picks in the histories of git repositories, and samples repositories and their
fork networks from GitHub to search.

- `src/` is the library, verified with Verus: diffs and their parsing, the search methods
  (commit messages, equal diffs, locality-sensitive hashing over MinHash signatures, an index
  of shared changes, comparisons of changes), the construction of fork networks and the
  decisions of the samplers. Calls into `bit-vec` and `rand` stand behind a few trusted
  wrappers in `src/bits.rs` and `src/sampling/fully_random.rs`.
- `app/` is the program around it: loading and cloning repositories with `git2`, requests to
  GitHub with `octocrab`, the nearest-neighbour indexes of `hora` and `hnsw_rs`, the
  similarity thresholds, and YAML output.
- `tests/` runs the library on concrete inputs.
