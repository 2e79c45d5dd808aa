# git5

A small content-addressed version control tool in the style of git, whose
core is verified with Verus. Repositories live in `.git4/`: loose objects
under `objects/`, branches and tags under `refs/`, `HEAD`, the `index` and a
`config` file.

## Layout

- `src/` is the verified library. The formats the tool reads and writes are
  stated as specifications over sequences and maps, and each function is
  proved against its contract. What comes from outside crates (SHA-1, zlib,
  line diffs) is named by trusted items, so the contracts say exactly what
  is computed from those results; only the clock's reading is left open:
  - `object.rs`: object headers, names (SHA-1 of the stored bytes) and the
    zlib-compressed loose-object format;
  - `tree.rs`: tree entries, sorting by name, reading and writing trees;
  - `index.rs`, `config.rs`: the index and configuration texts;
  - `commit.rs`: HEAD and ref files, commit texts, revisions, log entries,
    ancestry steps and merge decisions;
  - `status.rs`, `report.rs`, `diff.rs`: what `status`, `diff-tree`,
    `diff`, `blame` and `rev-list` show;
  - `pack.rs`, `remote.rs`: pack files and the ref advertisement of a server;
  - `strmap.rs`, `text.rs`, `codec.rs`, `error.rs`: the ordered string map,
    text helpers, the byte codecs and the error type.

  Laws that span functions are public proof functions beside them, e.g.
  `lemma_object_roundtrip`, `lemma_tree_roundtrip`, `lemma_index_roundtrip`,
  `lemma_config_roundtrip`, `lemma_ref_file_roundtrip` and
  `lemma_branch_head_roundtrip`.

- `app/` is the command-line program: argument parsing, the file system and
  the network. It hands the library plain values and prints what comes back.

- `tests/` runs the library on concrete values.
