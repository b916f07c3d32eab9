# match3

The board logic of a match-3 game, verified with Verus.

- `src/board.rs`: the grid of gem kinds and entity handles, run and match
  detection, the search for a valid move, and gravity.
- `src/runs.rs`: runs of equal gems along one row or column.
- `src/gems.rs`: gem kinds, random gems and the random initial layout.
- `src/game_logic.rs`: scoring, swap resolution and cascade steps.
- `src/audio.rs`: sound cues and their asset paths.
- `src/laws.rs`: properties that span several operations.
- `app/`: the Bevy game around the library (windows, entities, animation,
  audio, menus).
