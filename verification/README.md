# shelve

Pretty-print CSV data grouped by one column.

`src/` is the library, written in Verus and verified:

- `column.rs`: `ColumnNumber`, the 1-based grouping column (never zero), and
  its parser.
- `delimiter.rs`: `parse_delimiter`, which accepts a single character that does
  not collide with CSV syntax.
- `records.rs`: the calls into the `csv` crate, behind trusted wrappers.
- `groups.rs`: `GroupedData`, which files records under the value of their
  grouping column, keeps the groups sorted by the UTF-8 bytes of their names,
  and renders them; the laws of grouping are proved here.
- `order.rs`: the byte order on group names and its comparison.
- `layout.rs`: the text of the grouped layout, as bytes.
- `report.rs`: `is_broken_pipe`, which decides that a closed downstream pipe is
  no failure.

`app/` is the command-line program around it: argument parsing (clap), reading
files and stdin, printing, and the exit status.
