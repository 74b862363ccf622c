# toolkit

A set of small command-line programs around one verified library.

- `src/` is the library, verified with Verus: the file importer's rules
  (which files are collected and in what order, how JSON, CSV and
  fixed-width text become table rows, the schema script, error texts), the
  HTTP fetcher's header and status checks and its URL building, the MD5
  tool's command line and hexadecimal digest, and the helpers they share.
  Calls into `csv`, `encoding_rs`, `md5`, `regex`, `urlencoding` and the
  header types of `reqwest` stand behind small trusted functions whose
  contracts are stated in their doc comments.
- `app/` is the program: file, network, environment and database work, and
  one subcommand per tool (`readfiletodb`, `fetch`, `md5`, `class`,
  `serch_dir`, `arg_read`, `dotenvy`, `regex`, `sqlite`).
- `tests/` runs the library on concrete inputs.

The importer reads `.env` (`CSV_DIR`, `JSON_DIR`, `TEXT_DIR`, `WRITE_DB`)
and applies the schema script `schema.sql` from the working directory; each
block of that script starts with `-- statement: <name>` on its own line.
