# nabu

A small SQL database engine over a B+tree of fixed-size pages, written in
Verus: every function of the library states its behaviour in `requires` /
`ensures` and is proved against it.

## Layout

- `src/lexer.rs`, `src/parser.rs`, `src/ast.rs`: the SQL front end. Lexing
  and parsing are specified by spec functions over character and token
  sequences (`lex_spec`, `p_statement`); the executable code is proved to
  compute exactly them.
- `src/query.rs`, `src/plans.rs`: name resolution against a catalog of
  schemas and the logical plan of a resolved statement.
- `src/value.rs`, `src/field.rs`, `src/record.rs`, `src/node.rs`: the byte
  layout of values, rows and tree nodes, with read-back laws.
- `src/pager.rs`, `src/btree*.rs`, `src/cursor.rs`, `src/table.rs`: pages,
  the B+tree (search, insertion with splits, deletion) and tables over it.
- `src/database.rs`, `src/magic.rs`: the system table, the file header and
  opening a database from its pages.
- `src/maps.rs`: the `indexmap` calls the library makes, each behind a
  contract over the map's entries.
- `app/`: the command-line program (file I/O, printing).
