# xgrep

An rg-style grep for spreadsheets: it searches the cells of `.xlsx`, `.csv`
and `.tsv` files (display values, cached formula results, formula text and
cell comments) and reports matches by file, sheet and A1 cell address.

The search core is a Verus library whose functions carry `requires` /
`ensures` contracts proved by Verus; the command-line program around it is
ordinary Rust.

## Layout

- `src/` — the verified library.
  - `cell.rs`: A1 addresses (`to_a1`, `row_from_a1`) and decimal text.
  - `config.rs`: layers (`Layer`, `LayerSet`), output modes, color choice.
  - `matcher.rs`: `Pattern` (smart case, fixed strings, word boundaries)
    over the `regex` crate.
  - `lib.rs`: match events, character offsets of submatches, context
    windows (`emit_with_context`) and `search_file`, with the laws that
    relate them.
  - `printer.rs`: rendering a file's block as styled segments for pretty,
    count and files-with-matches output.
  - `cli.rs`: the decisions behind the command-line flags.
  - `error.rs`: search errors, their messages and exit codes.
  - `reader/`: the xlsx byte scanner (`xml_scan`), shared strings and the
    hit set (`sst`), the sheet screen (`fast_path`), hidden rows and
    columns, the workbook's sheet list, comments, sheet parsing and CSV.
- `app/` — the program: argument parsing, directory walking, zip and
  calamine I/O, parallel search, colored and JSON output.
- `tests/` — tests of the library, run against the real outside crates.
