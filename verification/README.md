# engine

Rules, board geometry and computer player for a two-player hexagonal
stacking game, verified with Verus.

Players place stacks on the cells of a hexagonal board. A stack's height is
the number of the player's pieces that see the cell along the six straight
lines through it; a stack can be placed where a player sees the cell more
often than the stack there is high. The game ends after two passes in a row.

## Layout

- `src/` — the verified library:
  - `hex` — axial and cube coordinates, directions, rings and ranges, the
    text notation of cells;
  - `mesh` — sets of board-table cells;
  - `board` — the hexagonal board, distances to its border, the text form
    of a position (reading and writing);
  - `unit` — teams, stacks, cells, walks along a direction, the score, the
    end of the game, what a player sees;
  - `moves`, `spoke_laws` — for every cell, the first piece seen in each
    direction, updated incrementally when a stack is placed or taken back,
    and the proofs that the updates are exact;
  - `move_build` — playing and taking back moves, and the moves a player may
    play;
  - `zobrist` — position hashes, updated incrementally;
  - `ai` — the static evaluation, move generation for the search, and the
    alpha-beta search with its transposition table, killer moves,
    null-move pruning and quiescence search;
  - `history`, `share` — the record of a game and shared game logs;
  - `main_logic`, `display` — the decisions of the interactive game loop
    and the data handed to the display.
- `tests/` — tests of the library.
- `app/` — a program that lets the computer play the puzzle positions
  against itself, the interactive game loop over channels, reading and
  writing shared logs with postcard, and the floating-point conversion
  between screen positions and cells.
