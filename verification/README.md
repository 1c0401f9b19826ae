# tiny_games

Engine-agnostic rules for a handful of small games, written in Verus with
their behaviour stated as contracts and proved.

## Layout

- `src/` — the verified library.
  - `snake`, `board`, `rng`, `game` — Snake: directions, the board, the
    seeded food generator, and `SnakeGame` with one `step` per tick.
  - `ticker` — whole-microsecond accumulation of frame time into steps.
  - `text` — trimming, splitting, and decimal parsing and printing.
  - `replay` — recording turns and playing them back; `replay::format` is
    the text format, `replay::fidelity` proves a replay reproduces the game
    it recorded.
  - `lockstep` — two-player Snake over lockstep networking: inputs,
    FNV-1a checksums, desync detection, and an in-process link;
    `lockstep::rounds` plays rounds between two peers in one process and
    proves they stay identical for a whole match.
  - `breakout` — Breakout's plain values and integer rules (scoring, lives,
    winning, which sound a step makes, the heads-up line).
  - `cards`, `crafting`, `combo`, `achievements`, `terrain`, `behavior`,
    `npc` — the rules of the small tech demos: a shuffled deck, recipes over
    an inventory and the crafting HUD, combo buffers, achievement unlocks,
    destructible tiles and walking between them, a
    guard's behaviour tree, and NPCs wandering an occupancy grid.
  - `frontend` — what the game front ends decide from plain input: held
    keys to a direction or paddle input, and Snake's status line.
- `tests/` — the test suites, run against the compiled library.
- `app/` — command-line demos (a lockstep match, the NPC simulation, a
  self-playing Breakout) and the floating-point code the library leaves to
  its users: Breakout's continuous physics, seconds-to-microseconds for the
  ticker, and the distance checks behind the guard's senses.
