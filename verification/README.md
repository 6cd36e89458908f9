# rgit

A small Git-compatible version-control tool whose core is written in Verus
and proved correct against its contracts.

## Layout

- `src/` — the verified library. Every function carries a `requires` /
  `ensures` contract stated over mathematical models (`Seq`, `Map`, spec
  functions), and Verus proves each body against it. Among the modules:
  - `store`, `objects`, `tree`, `commit` — the object formats (loose-object
    framing, tree rows, commit headers) and building trees from the index;
  - `index` — the binary `.git/index` format, read and written;
  - `diff` — the Myers shortest-edit-script algorithm (stated as the exact
    script its search and walk back pick, deletions before insertions) and
    unified-diff output of that script;
  - `merge`, `replay`, `rebase` — three-way tree merges, conflict markers,
    cherry-pick / revert / rebase decisions;
  - `graph`, `bisect`, `rev` — commit-graph walks (reachability, merge base),
    bisect steps and revision lookup;
  - `refs`, `stash`, `status`, `checkout`, `staging`, `rm`, `clean`,
    `gitignore` — the rules behind the porcelain commands;
  - `codec` — the trusted wrappers around SHA-1 (`sha1`), zlib (`flate2`),
    hexadecimal text (`hex`) and std's lossy UTF-8 decoding.
  Public proof functions state the library's laws: what reads back after a
  write (index file through `write_index` and `read_index`, objects, tree
  rows level by level and a whole tree listing exactly the files it was
  built from, refs, stash list, commit headers and messages), merges with an unchanged or a repeated side, a
  revert of the current commit restoring its parent's tree, empty diffs and
  status of identical trees, and that the commit-graph search visits exactly
  the ancestors of its start. The merge base is a best common ancestor, and
  `log` lists every commit reachable from `HEAD` once.
- `tests/` — ordinary Rust tests that run the compiled library.
- `app/` — the command-line program: argument parsing (`clap`), file and
  directory I/O under `.git`, and the command loops that hand plain values
  to the library and act on its answers.
