# spec-editor-core

The domain core of a desktop editor for projects of CSV files kept in a
directory tree: each CSV file is a sheet, identified by its path relative to
the project root. The library is written in Verus: its functions carry
`requires`/`ensures` contracts that the verifier proves.

- `src/` — the verified library
  - `sheet` — a sheet's grid, hidden row ids that survive inserts and removals,
    cell edits, and the sidecar style file's row anchors
  - `style` — display attributes per column and per row (`<stem>.style.toml`)
  - `constraints` — header and value constraints (`.constraints.toml`):
    `when` expressions, static checks (contradicting header constraints;
    value constraints on one line with two types, `enum` lists with no common
    value, a `min` above a `max`, or an `enum` list none of whose values meets
    another rule), validation, drop-down options
  - `glob` — glob patterns with whole-pattern alternation (`a|b`)
  - `hooks` — which hook commands run and what their results mean
  - `git` — arguments for `git` and the reading of its output
  - `project` — the project's state and its sheets by id
  - `csv_text`, `regex_match`, `text`, `decimal` — helpers
- `app/` — the I/O shell: files, directory scan, `git` and shell processes,
  TOML through serde, number comparison in floating point, and the commands
  a front end calls
- `tests/` — tests of the library

Number comparisons (`gt`/`lt` in `when`, `min`/`max`) are computed in
floating point by the caller; the library takes the comparison as a function
argument and its contracts hold for any comparison that is a function of its
two texts.
