# monitorando

A terminal process monitor. The library (`src/`) holds its logic, verified with
Verus; the program around it (`app/`) samples the system, draws the screen and
reads the keyboard.

## Library modules

- `order`: sorting processes by a column (stably), and reordering them after a
  frozen pid order.
- `text`: lower-casing (through `str::to_lowercase`), substring search and name
  comparison.
- `tree`: parent links (cycles cut), sibling order, filter visibility, folding,
  the rows of the tree and flat views, and recording a frozen tree order.
- `forest`: walks up the parent links; the cut links form a forest.
- `listing`: the tree view lists every process it should, exactly once.
- `freeze`: a recorded tree order reproduces the view while measurements change.
- `frame`: one frame of the monitor (order, rows, freezing, selection) and the
  status line after a kill.
- `app`: the interactive state and how a key press changes it.
- `process`: process records, system information and the usage history.
- `config`: the settings kept between runs.
- `display`: column headers.

Measurements enter the library as order keys (integers that compare as the
measured values do); the program turns them back into values for drawing.

## Program

`app/` samples processes with `sysinfo`, draws with `ratatui` on a `crossterm`
terminal, and stores the settings as TOML (`serde`, `toml`) in the directory
`dirs` reports.
