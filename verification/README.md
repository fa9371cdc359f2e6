# file_type_groups

A catalogue of the applications installed on a Mac and the file extensions
each can open, with the rules for listing them, for finding which
applications could take over the extensions another one opens by default,
and for reassigning those defaults.

Layout:

- `src/` — the verified library.
  - `model.rs`: the catalogue as three tables (applications, extensions,
    and who-opens-what pairs), the rules they obey, and the meaning of every
    operation and query.
  - `db.rs`: `Database`, the catalogue with each operation proved against
    the model; `tables.rs` and `query.rs` hold the row-level work.
  - `scan.rs` and `plist.rs`: what an application's `Info.plist` declares,
    and how scan results and Launch Services answers enter the catalogue.
  - `text.rs` and `sort.rs`: `LIKE` matching, collation order, decimal
    rendering, and the ordering of results.
  - `laws.rs` and `sums.rs`: properties that span operations, proved over
    the model (`sums.rs` holds the counting arguments over sums).
- `tests/` — tests of the library on concrete catalogues.
- `app/` — the desktop application: the SQLite file the catalogue is kept
  in, the file-system scan and Launch Services calls, and the commands the
  user interface invokes.
