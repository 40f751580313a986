# sfinder_gui_lib

The logic of a desktop front end for the Tetris solver *sfinder*, verified
with Verus.

- `src/` — the verified library:
  - `geometry`, `cell_set`, `color_split`: splitting a drawn field into
    pieces, identifying each piece and its rotation, and ordering the pieces
    so that each can be placed in turn;
  - `recognition`: reading a board from a picture by matching cell colours
    against a game client's palette (integer colour arithmetic that decides
    each threshold as double precision does), the board region, decoding,
    cropping, and the monitor previews;
  - `kick_table`: the standard kick table and the reader of kick table files;
  - `sfinder`: the solver's command line, the tables it writes (coverage of
    each solution, the greedy minimal set of solutions, cover results) and
    the handling of a run's events;
  - `commands`: the data exchanged with the interface, the Java version
    check and the span of the monitors;
  - `text`: characters, trimming, splitting and decimal numbers.
- `tests/` — tests of the library.
- `app/` — the desktop application around it (windows, processes, files,
  screen capture, and the choice of skin and the sampling grid, which use
  floating point).
