# chessview

A PGN viewer for the terminal, with its core verified by Verus.

The library (`src/`) reads PGN text, replays each game on a board, and keeps
the navigation state of the viewer. Every function in it carries a contract
that Verus proves, except the few trusted items that call code Verus does
not read (listed below):

- `parser`: PGN text to games of SAN moves, with each game's display name
  built from its tag pairs. Its contract is a specification of the grammar
  (`parse_pgn`), so every accepted and every rejected text is accounted for.
- `action`: squares and SAN moves, and their SAN text.
- `game`: the board and whose turn it is; moves are resolved to the piece
  that plays them (geometry, hints, and pins) and applied. Boards are read
  from and written to ascii, and reading back what was written gives the same
  board (`lemma_ascii_round_trip`).
- `viewer`: the menu of games, the board cursor, keys and clicks. Every key
  and click keeps the state well formed (`lemma_key_keeps_ok`,
  `lemma_click_keeps_ok`).
- `display`: the text the viewer draws: fitted labels, board characters,
  glyphs and half-block piece silhouettes.
- `board_grid`: the tudi grid the board lives in, seen through the few grid
  operations the game performs.
- `text`: character-level helpers shared by the others.

The trusted items, whose contracts are assumed rather than proved, are the
tudi wrappers in `board_grid` (`new_grid`, `grid_element`, `grid_store`,
`grid_remove`, the type declarations of `Grid` and `GridError`, and the names
`grid_pieces`, `grid_extent` and `unoccupied_text`), and in `text` the calls
to std's `String::push` (`push_char`) and to the `Debug` form of a character
(`debug_char`, named `char_debug`).

`app/` is the terminal front end: it draws with ratatui, reads keys and
mouse clicks, loads the PGN file given on the command line (or the single
file in the OS data directory), and reports errors with miette.

Pieces are drawn as half-block silhouettes, or as chess glyphs on small
squares. There is no rendering of pieces as images: the piece artwork such a
mode needs is not part of this project.
