# rsync_archive

Creates non-solid 7z, seekable tar.zst / tar.lz4 and seekable-zstd archives
from files chosen with rsync-style filter rules. The selection and archive
logic is a Verus library; its contracts and laws are checked by Verus.

Layout:

- `src/` — the verified library.
  - `select/` — filter rules and matching (first match wins, directory
    pruning), path normalization, the selection builder, list files, and
    the restrictions: per-file size and age limits, per-path size lists,
    directory budgets, and the global total-size and file-count caps.
  - `archive/` — 7z headers and per-member compression (at once, or streamed
    for large members), the tar header and
    payload layout, the tar member index, the LZ4 frame writer and frame
    table, the seekable Zstd encoder that tar.zst and seekable-zstd
    payloads go through, and the seekable-zstd member layout and index.
  - `pipeline/` — building rules from the options, restricting and merging
    selections, naming embed members, output paths, and the order in which
    members are encoded and written.
  - `util/` — byte sizes, worker counts, the soft-skip summary, and retrying
    interrupted I/O.
- `app/` — the command-line program: argument parsing, walking the
  filesystem, reading and writing files, worker threads, and printing.
- `tests/` — tests of the library.
