# chiral

A cross-distribution package manager: it installs packages from its own GitHub
repository, from Debian stable or from the Arch Linux repositories into
`/usr/local` (root) or `~/.local`, resolves their dependencies, and keeps a text
database of what it installed.

## Layout

- `src/` — the verified library (Verus).
  - `text.rs` — the string operations everything else is specified with
    (trimming, lines, searching), and verified versions of them.
  - `db.rs` — the database text: listing, lookup, adding and removing package
    blocks, with the laws that relate them.
  - `paths.rs` — the install prefix and database paths, where an archive entry
    is placed (never outside the prefix), the search-path hints.
  - `order.rs`, `graph.rs` — Kahn's algorithm, breaking dependency cycles, and the
    dependency map's install order. The dependency map is a vector of (name,
    dependencies) pairs with distinct names rather than a `HashMap`: vstd specifies
    `HashMap` and `HashSet` only for keys that `obeys_key_model` holds of (integers,
    `bool`), and it cannot be established for `String` keys without an assumption.
    The breadth-first queue is likewise a vector with a head index.
  - `resolve.rs` — dependency resolution as a state machine that asks its
    questions of the caller.
  - `probes.rs` — the checks that tell whether a package is on the host, which
    package manager the host uses, where a package came from, and what version
    the host reports.
  - `remote.rs` — the decoding of the Arch search, package index and release feed
    replies, and what is made of them and of Debian's download page; the order in
    which sources are tried.
  - `commands.rs` — the decisions of install, remove, update and info, the install
    queue and the upgrade steps.
- `tests/` — tests of the library on concrete values.
- `app/` — the command line: processes, files, network and the progress display,
  driving the library.
