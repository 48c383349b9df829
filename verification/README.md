# blind_n_scared

Map generation, movement and the player's view for a terminal horror game.

- `src/wfc.rs` — a tile grid filled by constraint propagation: cells hold a bit
  mask of candidate tiles (void, floor, wall, altar); the cell with the fewest
  candidates is fixed at random and its neighbours are narrowed to the tiles
  allowed next to it. The contracts state that fixed cells never change,
  candidates only shrink, a cell that gets fixed holds one of its candidates,
  the list of unfixed cells stays exact, that a propagation is a run of single
  narrowings reached from its centre which fixes a cell only when one
  candidate is left, that a full run is a chain of such steps, and that it
  leaves every cell fixed to a tile or without candidates.
- `src/dungeon.rs` — a character-grid building: a random footprint (core and
  wings) drawn from random numbers, rooms cut from it, walls, doors between
  neighbouring rooms, one outer entrance, a hub mark and two exits outside the
  building.
- `src/player.rs` — spawning and grid movement.
- `src/render.rs`, `src/input.rs` — what the terminal shows for a tile (the
  player in the middle of the screen, blackness beyond the clear zone), where
  each tile goes on the terminal and which fall off it, and what a key press
  does.
- `src/random.rs` — the calls into `rand`, with what the crate promises of them.
- `app/` — the terminal program (raw mode, key reading and drawing, through
  `crossterm`).

`tests/` runs the library on concrete grids.
