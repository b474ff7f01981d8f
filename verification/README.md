# minesweeper

Classic Minesweeper with an automatic player, as a Verus library whose
behaviour is stated in contracts and proved.

## Layout

- `src/` — the verified library
  - `cell.rs`, `grid.rs`, `count.rs`: cells, positions and neighbours, and
    the counting the rules rely on
  - `board.rs`: the board, its invariant (`Board::wf`), flags and cursor
  - `mines.rs`: laying the mines on the first uncovering, away from the
    first cell and its neighbours, and computing every cell's number
  - `opening.rs`: uncovering a cell, the flood fill over empty cells, losing
    and winning
  - `solver.rs`: the automatic player's move (a corner while nothing is
    uncovered, then single-cell deductions, pairs of constraints, the global
    mine count, then the layouts consistent with the board)
  - `layouts.rs`: the layouts of the mines consistent with the numbers, the
    flags and the mine count, found by a pruned search: a cell every layout
    agrees on is played for certain, else the cell least likely to hold a
    mine is uncovered
  - `big.rs`: numbers of any size (sum, comparison) and binomial
    coefficients, for counting placements exactly
  - `deduction.rs`: proof that the deductions are sound
  - `autoplay.rs`: applying the player's moves and playing a game out, with
    a ghost trace of every board and move
  - `settings.rs`, `input.rs`, `render.rs`: presets, key bindings, the menu
    and what each cell looks like
  - `random.rs`: the calls into `rand`, with what is assumed of them
- `app/` — the terminal program (`crossterm`) and the browser bindings
  (`wasm-bindgen`)
- `tests/` — tests of the library

## The program

`app/main.rs` plays in the terminal; `--zen` lets the automatic player play
expert games, `--bench N` plays N of them and prints the win rate.
`app/web.rs` holds the bindings the browser version calls.
