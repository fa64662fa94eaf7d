# minesweeper

A terminal minesweeper ("Buscaminas") whose game rules are verified with Verus.

- `src/` is the verified library.
  - `cell.rs`, `config.rs`, `controls.rs`: cells, difficulties and settings, keys.
  - `board.rs`: the board as a mathematical object (neighbours, mine counts, the region
    a reveal uncovers) and its lemmas.
  - `rules.rs`: the model of a game (`GameView`) and what each operation does to it.
  - `uncover.rs`: what one reveal does, and the proof that the recursive reveal does it.
  - `game.rs`: the game itself, each operation with its contract.
  - `laws.rs`: properties across operations (a flag toggled twice, a cell revealed twice,
    the mines laid by the first reveal, the flag counter).
  - `shuffle.rs`, `clock.rs`: the calls into `rand` and `std::time`.
- `app/` draws the game with `ratatui`, reads keys with `crossterm`, and keeps the
  settings in a JSON file with `serde_json`.
- `tests/` runs the library on concrete games.
