# tager

A file tagging library with its behaviour proved by Verus.

- `src/tm` — the store of files, tags and links (`tm::db`), the manager that
  keeps the store in step with a snapshot of a directory (`tm::manager`,
  `tm::sync`), the order-independent hash of a snapshot (`tm::roothash`), and
  the laws that hold across their operations (`tm::db::laws`, `tm::sync_laws`).
- `src/db`, `src/cli`, `src/tager_manager` — the path-keyed store of the
  command-line tool, its commands and the lines they print, and the scan rules
  of its configuration directory.
- `src/desktop` — what the desktop browser asks of the manager, directory
  listings, and previews of files and images.
- `src/text`, `src/paths`, `src/ranking`, `src/hashing`, `src/times` — strings,
  paths as `std::path` reads them on Unix, sorting, SHA-256 content hashes, and
  points in time.
- `app/` — the program around the library: reading the directory tree, the
  SQLite files that keep the stores between runs, and the command line.
