# truck_facto_rs

Estimates the truck factor of a Git repository (Avelino et al., 2016) and
the Gini coefficient of its authorship, with the logic verified by Verus.

## Layout

- `src/` — the verified library.
  - `git.rs`: commit records, the parsers for what `git log` prints, the
    commit map, and the entry points for rename tracing and alias merging.
  - `rename.rs`: traces each current file back through renames.
  - `alias.rs`, `dsu.rs`: merges author aliases (equal names or e-mails,
    or an edit distance of one) with a union-find.
  - `doa.rs`: per-file authorship records built from the history.
  - `tf.rs`: the greedy truck factor computation.
  - `gini.rs`: the sorted per-author file counts.
  - `file.rs`: the file list and vendored-file marking.
  - `text.rs`, `strmap.rs`: character-level text handling and a sorted map.
- `app/` — the command-line program: runs `git`, computes the
  floating-point scores (degree of authorship, Gini coefficient), prints.
- `tests/` — tests of the library on concrete values.
