# jtr

A registry client for reusable `just` and `task` recipes: it installs a
recipe into a `justfile` or `Taskfile.yml` as a sentinel-delimited managed
block, keeps it up to date, and removes it again.

## Layout

- `src/` — the library, verified with Verus. Each module states its functions'
  results over `Seq<char>` models of the texts they read and write:
  - `text` — lines, trimming, joining and searching, as `str` does them;
  - `markers`, `managed` — rendering, parsing, inserting, extracting and
    removing managed blocks;
  - `manifest`, `sources`, `index` — the registry's index and manifests,
    looking recipes up across the curated index and taps, checksums, URLs;
  - `install`, `resolve`, `actions` — `name@version` arguments, dependency
    ordering with cycle detection, and what each command decides;
  - `taps`, `lint`, `scaffold` — tap names, URLs and `tap add`, the checks
    `jtr lint` makes and the checksum fixes it writes, manifest skeletons;
  - `diff` — the unified diff `jtr diff` prints;
  - `properties`, `checksum_fix` (with the laws at the end of `resolve`) —
    the laws that tie these together: rendered blocks parse back, a written
    block reads back, installing twice is installing once, installing and
    removing keep the file's own lines, removing undoes installing (byte for
    byte on a tidy justfile), removing twice is removing once, a removed
    block is gone and the other blocks parse as before, plans put dependencies first, acyclic graphs resolve, and
    a checksum `lint --fix` writes reads back. Each law states the inputs it
    holds on: the install laws want a valid recipe name, one-line
    dependency names, and a version, source, pin and snippet with no
    carriage return and no close-marker line standing on a line of its own
    in the block (a header value may span lines);
    the parse round trip also wants trimmed, comma-free dependencies and
    snippet lines that do not look like header lines; the file laws want no
    line ending in a stray `\r`, and the parse after a removal wants every
    `# >>> jtr:` line to open a block that closes before the next one (and,
    in a justfile, no two blank lines in a row).
- `app/` — the `jtr` command line: argument parsing, files, HTTP, the cache,
  running `just`/`task`, printing.
- `tests/` — tests of the library on concrete values.
