# csv_pg_schema

Monthly CSVs of account data, one row per account: infer a temporal Postgres
schema from all of them, compare the months, and plan the loading of the
deltas. The library under `src/` is verified with Verus; the program under
`app/` does the file and database work around it.

## Modules

| module     | what it does                                                      |
|------------|-------------------------------------------------------------------|
| `text`     | characters, decimal numbers, padding, lists                       |
| `order`    | the lexical order of texts, and sets and maps kept in it          |
| `number`   | decimal literals and the exact order of their values              |
| `table`    | a CSV text as a table of cells, read by the `csv` crate           |
| `util`     | which cells count as missing                                      |
| `scalar`   | the column types and which values fit them                        |
| `profile`  | what is observed of a column: ranges, lengths, character classes  |
| `ident`    | safe, unique SQL identifiers, and the choice of the account key   |
| `location` | where a listed file stands                                        |
| `manifest` | the list of files and their observation instants                  |
| `infer`    | the schema of all files                                           |
| `months`   | the months as maps from account to cells, and their differences   |
| `report`   | the comparison report                                             |
| `load`     | which rows to store, and the statements that store them           |
| `cli`      | the command line                                                  |
| `error`    | what can go wrong                                                 |

Each type has a view made of sequences, sets and maps, and the contracts speak
of those. What the `csv` crate reads in a text has a name (`csv_headers`,
`csv_records`), and everything computed from it is stated exactly over that
name. Laws that span several functions are public proof functions next to the
definitions they speak of.
