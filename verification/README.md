# bread

A status bar for Wayland that reads what to show from stdin, one line at a
time. Each line mixes text with attributes: `%{l}`, `%{c}`, `%{r}` choose the
section, `%{F:[AA]RRGGBB}` and `%{B:[AA]RRGGBB}` set the colors,
`%{U:WxH}` and `%{O:WxH}` are read as an underline and an overline, which are
not drawn yet. Ramps, boxes of a given width and height on the bottom edge,
are part of the drawing model (`%{R:WxH}`) but not yet of what lines can say.

Layout:

- `src/` is the library, verified with Verus: reading input lines
  (`input`, `parser`, `number`), the shared-memory pixel buffer and what is
  painted into it (`pixels`, `draw_state`, `state`), the split of a line into
  sections (`bar`, `token`) and the options (`config`).
- `app/` is the program around it: the Wayland connection and its events,
  polling stdin, fonts and glyph outlines, and the command line.
- `tests/` exercises the library.
