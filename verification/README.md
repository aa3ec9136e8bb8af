# maze

Generating, rendering and solving grid mazes, with a small terminal game —
written in Verus, with the behaviour of each function stated in its contract
and proved. What is left to chance is stated as far as it can be: `Maze::new`
draws its walls at random, and its contract says what holds of every draw (the
size, closed boundaries, every cell reachable); the repair that follows the
draw is stated exactly, up to which reachable neighbour each round picks.

## Layout

- `src/topology.rs` — the model of a maze (`MazeModel`: size and open walls),
  moves, walks, reachability, and their laws.
- `src/maze.rs` — the `Maze` type, its invariant and its view; moves between
  cells.
  - `maze/topology_input.rs` — `Maze::from_topology`, which checks its input
    and answers exactly as `topology_verdict` says.
  - `maze/connectivity.rs` — the flood fill that finds the reachable cells.
  - `maze/generate.rs` — `Maze::new`: random walls, then repair rounds, each
    opening the wall from the first unreachable cell next to a reachable one
    toward a reachable neighbour, until every cell is reachable.
  - `maze/solve.rs` — `Maze::solve`: the first route a depth-first search
    meets, or `None` exactly when the finish is unreachable.
  - `maze/render.rs` — the drawing with box-drawing characters, character by
    character, with a route or the game screen drawn over it.
  - `maze/markers.rs` — where `S`, `F` and `@` end up in those drawings.
- `src/game.rs` — the game state: moves, the trail, the blocked-move error,
  keyboard events, and one turn of the game loop (`game_step`).
- `src/cli.rs` — reading the answers typed at the program's prompts.
- `src/text.rs`, `src/grid_count.rs`, `src/random.rs` — text output,
  counting lemmas used as termination measures, and the calls into `rand`.
- `app/main.rs` — the program: prompts, terminal I/O with `crossterm`, the
  game loop.
- `tests/` — scenarios on concrete mazes.

Times in the game are milliseconds since an origin that the caller chooses.
