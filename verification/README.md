# vera20k

Verified simulation core of an isometric real-time strategy engine, written
in Verus: every function in `src/` carries a contract that Verus proves.

## Layout

- `src/pathfinding/` — the heart of the library:
  - `passability.rs`: the movement-zone × land-type passability matrix;
  - `path_grid.rs`, `foundation.rs`: walkability grids (ground and bridge
    layers), building footprints, nearest walkable cell;
  - `terrain_cost.rs`, `terrain_speed.rs`: per-cell costs and the runtime
    speed modifier (terrain, slope, crowding) in fixed point;
  - `open_set.rs`, `astar.rs`: the A* search with bridge heights, cliff
    costs, entity blocks and path truncation;
  - `zone_map.rs`, `zone_build.rs`, `zone_hierarchy.rs`,
    `zone_incremental.rs`, `zone_search.rs`: connectivity zones, their
    adjacency, union-find super zones, incremental updates and zone-guided
    search;
  - `path_smooth.rs`: zigzag smoothing and drift correction;
  - `cell_entry.rs`: what a unit meets when it steps into a cell.
- `src/power_system.rs`: per-player power output and drain, low power,
  blackouts and degradation damage.
- `src/bridge_state.rs`: bridge decks and their destruction.
- `src/fixed_math.rs`: deterministic fixed-point numbers.
- `src/production/`: build queues (progress, completion, cancelling with
  refunds), sell refunds and survivors, factory exits, build limits and
  build-time estimates.
- `src/superweapon/`: superweapon charging and the lightning storm.
- `src/radar.rs`, `src/slave_miner.rs`: radar availability and ping
  colours; the slave harvester's state machine.
- `src/map.rs`, `src/rules.rs`, `src/movement.rs`: shared data types.
- `tests/`: executable tests of the library.
- `app/`: serialisable mirrors of save-game types (serde lives here, not in
  the verified library).

Laws of the library are public proof functions named `law_*` (and a few
`lemma_*`) next to the code they speak about.
