# gambit

The logic of a chess platform, written in Verus and proved against its
contracts.

- `src/` is the verified library: the analysis move tree (playing, deleting,
  promoting, flattening for display), PGN movetext written and read back,
  clock stamps, engine output, matchmaking buckets, the message vocabulary,
  the opening catalogue, and the decisions behind the screens: the board
  (clicks, drags, premoves, arrows), the live game (server events, draw and
  rematch buttons, clocks), the analysis board, the move list, the
  quick-match hub, the watch page, friends, user search and settings.
  Chess rules come from the `shakmaty` crate through a small set of
  wrappers in `src/position.rs`, whose contracts name their results.
- `tests/` exercises the library on concrete values.
- `app/` is the plain Rust around it: the JSON forms of the messages, the
  conversions to `shakmaty`'s colours, and the floating-point drawing and
  score arithmetic.
