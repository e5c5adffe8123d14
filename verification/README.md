# pivot_wasm

A pivot table of competition finals. Rows are maps from column names to text;
the engine groups them by `competition` (in order of first appearance), orders
each group by `season` (by value when both seasons are integers, as text
otherwise), and offers two collapsible column groups, `winner` and
`runner_up`, whose members are the distinct team names in the data.

- `src/` is the verified library: `text` (comparison, integer parsing),
  `row` (a data row), `grouping` (groups, season order, team lists), `layout`
  (column list, visible columns, cell texts) and `engine` (the engine and its
  laws).
- `app/` is the browser front end: it deserialises rows from JavaScript, keeps
  the pixel geometry (column widths, scroll offsets, viewport) in floating
  point and draws on a canvas.
- `tests/` runs the library on concrete tables.
