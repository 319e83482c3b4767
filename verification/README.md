# pack

Packs the sections of a markdown document onto a fixed-width character
board and exports the board as a PDF.

A document is split into sections at headings of a chosen level. Each
section is rendered into a *piece*: word-wrapped lines with bullets,
indents, tables and code kept apart. Every piece gets an *outline*: its
lines are split into contiguous groups, each padded to the widest of its
lines, chosen to minimise the padded area plus one step row per change of
width. In the terminal the user moves each piece over the board and places
it or skips it; the placed board is then laid out on US Letter pages.

## Layout

- `src/` — the library, verified with Verus:
  - `parse/` — markdown (through comrak) to sections, and sections to pieces;
  - `piece/` — rendering, outlines and shapes of pieces;
  - `extract/` — the same extraction with text outlines of pieces;
  - `board/` — the board and placing pieces on it;
  - `tui/` — the placement session as a state machine, and what the screen
    shows;
  - `export/` — what every page of the export shows;
  - `text.rs` — character and string helpers.
- `tests/` — tests of the library.
- `app/` — the program: command line, terminal drawing and PDF output.
