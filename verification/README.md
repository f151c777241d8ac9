# coldrun

A small columnar SQL engine for the ClickBench `hits` table, verified with Verus.

- `src/` is the engine. Every function states its result in a contract that Verus proves.
  - `sql`: queries, read from the syntax tree of the SQL parser.
  - `expr`: the value of an expression on a row.
  - `storage`: columns, their files, tables, zone indexes, loading.
  - `exec`: filters, scans, grouping, and the kernels for particular queries.
  - `protocol`: what is sent and printed.
  - `text`, `error`: characters, numerals, messages.
- `app/` is the program: files, sockets, the command line, parquet files, and what needs
  floating point (averages as they are shown, texts that sort as numbers).
- `tests/` runs the engine on concrete rows.

What the engine has from other crates (SQL parsing, compression, hash tables, sorting,
regular expressions, calendar dates, substring search) stands behind small trusted
functions. Each says in its comment what it claims of the function that it calls.
