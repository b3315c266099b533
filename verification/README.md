# game_2048

The rules of the 2048 sliding-tile game, verified with Verus.

- `src/board.rs`: the game state (`CellValueSave`), the outcome and direction
  enums, the board's shape, and the arrow-key choice of a direction.
- `src/line.rs`: one line of cells and what a move does to it: pack the tiles
  toward the front, merge equal neighbours once, score the merged tiles.
- `src/moves.rs`: the four moves on the board, an overflow check, and the laws
  of a move (sum of the tiles kept, powers of two kept, no score without a
  change, a second move after a settled one changes nothing, mirror and
  transpose symmetry).
- `src/rules.rs`: the verdict (win, go on, lose), the empty-cell test, and the
  laws that the game is lost exactly when no move changes the board and that
  a move that changes the board leaves an empty cell.
- `src/spawn.rs`: dealing the starting board and the new tile after a move,
  with the random draws taken from `rand`.
- `app/`: the window, drawing and keyboard handling with `bevy`.
