# bnclip

A clipboard history manager for Wayland: `wl-paste --watch bnclip store`
records each copy, `bnclip list` prints the history newest first, and
`decode`, `pin`, `delete` and `wipe` work on single entries or on all of them.

## Layout

- `src/` — the library, verified with Verus:
  - `text.rs`: trimming, line splitting, decimal rendering, UTF-8 boundary;
  - `paths.rs`: lists of file references, their `file://` normal form and
    display paths, and the paths whose state on disk matters;
  - `mime.rs`: the type of an entry;
  - `preview.rs`: the stored preview and its shortening for listings;
  - `ignore.rs`: ignore patterns;
  - `history.rs`: the history, eviction order, pinning, listing;
  - `store.rs`: configuration, content hash, storing a copy, and how the
    table of stored bytes keeps step with the history;
  - `retry.rs`: waiting for a database that another process holds open.
- `app/` — the command: arguments, configuration file, standard input and
  output, the redb database, and the file-system probes that the library's
  path handling takes as input.
- `tests/` — tests of the library on concrete values.
