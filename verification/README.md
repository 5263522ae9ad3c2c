# expense_visualizer

A personal expense visualiser for WeChat Pay bill exports, in two parts:

- `src/`: the verified library (Verus).
  - `text.rs`: Unicode whitespace, trimming, splitting on a separator and
    substring search on characters, each proved against its mathematical
    definition.
  - `data_io.rs`: reading the transaction list out of the lines of an
    export (skip metadata up to the delimiter line, skip the header, keep
    every line with at least eight columns and a time, direction and
    amount), with the laws that describe what an export yields.
  - `manual_entry.rs`: the window state (category totals, bill file, form),
    judging a record typed into the form, adding an accepted record to the
    category totals and taking in the outcome of loading a bill, with the
    laws that keep category names distinct and never lower a total.
  - `models.rs`: the record types.
- `app/`: the window (eframe/egui), file reading, the file dialog and the
  pie charts, which compute in floating point.
- `tests/`: tests of the library on concrete inputs, several of them against
  the standard library's own `trim`, `split`, `contains` and
  `char::is_whitespace`.
