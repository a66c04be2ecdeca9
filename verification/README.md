# Quadrille

Cells of CSV, XLSX and ODS files: addresses, sparse edits with undo, sorting, searching and
saving, written in Rust and proved with Verus.

- `src/` is the library. Every function states what it returns in `ensures`, and Verus
  checks it. What outside crates compute stands behind a few trusted functions, each with a
  comment that says what is taken on trust.
- `app/` is `qd`, the command line around it: arguments, files and standard output.
- `tests/` runs the library on files in memory.

The modules, from the bottom up:

| Modules | What they hold |
| --- | --- |
| `text`, `a1`, `cells`, `error`, `json` | Text, A1 addresses, text by cell, messages, documents |
| `records`, `index` | CSV records at an offset, and the sparse index over them |
| `sheet`, `find`, `sort`, `sorting`, `save` | An open sheet: edits, undo, search, order, CSV saves |
| `xml`, `tree`, `package` | Parts of a workbook package, and patches that keep every other byte |
| `workbook`, `ods`, `scan`, `sound`, `reader`, `book` | Workbook limits and rules, the cells of a sheet, and opening one |
| `xlsx`, `ods_patch`, `rewrite`, `native` | Native saves |
| `kept`, `split`, `readback` | What native saves keep, where split cells stand, and that written text reads back |
| `ops`, `report`, `cli`, `stamp` | Operations, their JSON, the arguments, source changes |
