# dolog

`dolog` captures SQLite row changes with managed triggers: each managed
trigger copies the old and new row of an `INSERT`, `UPDATE` or `DELETE`
into a log table (`_dolog_changes` by default), and the captured rows can be
inspected and exported as JSON Lines.

The library under `src/` is written in Verus and verified:

- `text` — string building, ASCII case folding, Unicode white space, decimal
  digits and column padding.
- `sql` — quoting of identifiers and literals, the `json_object(..)`
  expression, and the normal form under which two trigger definitions match.
- `names` — operations and managed trigger names, and reading a name back.
- `hash` — the fingerprint of a column list.
- `trigger` — the statements, and the plans that create, refresh and remove
  managed triggers.
- `plan_laws` — what the plans promise across calls, read off the trigger
  rows a database reports.
- `statement_form` — the trigger statement and its one-line form.
- `commands` — table and operation selection, the coverage report, plan text
  and messages.
- `log_export` — the SQL of exports, the export mode, and the pending-rows
  report.
- `schema_source` — schema sources and the order of migration files.

`app/` is the command-line program: argument parsing, SQLite access, files
and JSON.
