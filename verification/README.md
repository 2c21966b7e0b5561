# lumiterm

A small terminal emulator whose core is verified with Verus.

- `src/` — the verified library:
  - `term.rs`: the screen model (grid, cursor, pen, scrollback, selection,
    bracketed-paste mode) and the actions of the escape-sequence parser
    (print, C0 controls, CSI and ESC sequences, SGR colours). Every method
    is specified against the ghost model `TermView`.
  - `config.rs`: the configuration language (sections, keys, strings,
    numbers, bare values, comments), hex colours and the colour table with
    its defaults.
  - `raster.rs`: pixel packing, filling and the cursor outline.
  - `input.rs`: mouse positions to grid cells, window size to grid size,
    keys and pastes to the bytes sent to the shell, keyboard shortcuts.
  - `text.rs`: white space, trimming and string building.
- `tests/` — tests run against the compiled library.
- `app/` — the program around it: the window, font rasterisation, the
  pseudo-terminal, the clipboard and the event loop.
