# xengine

The core of XEngine, a data-oriented game engine, written in Verus: every
operation of the library carries a `requires`/`ensures` contract that Verus
proves. Two kinds of calls are trusted rather than proved: the calls of the
user's system and deferred-command closures (boxed as `dyn FnMut`/`dyn
FnOnce`, which Verus cannot see through; each closure is required, when it is
boxed, to keep a consistent world consistent), and the `std::any` type
identities and downcasts in `erased`.

## Layout

- `src/` — the verified library.
  - `entity`, `registry`, `archetype`, `storage`, `store`, `world` — the ECS:
    generational entity handles, the component registry, archetype storage
    and the world built on it (lifecycle, queries, resources, hook events).
    The world is modelled as a map from live entities to their components.
    The joins keyed by type identity (`query2_ids`, `query3_ids`,
    `iterate_ids`) state each call of their closure; the typed joins state which
    entities were visited. Hook events are recorded while
    a hook context is bound and handed out by `take_hook_events`; the world
    does not run hooks itself.
  - `command` — deferred world mutations, applied in order on flush.
  - `system`, `schedule` — systems with access metadata and the per-stage
    stable topological schedule with conflict detection.
  - `frame`, `render` — the fixed-step frame loop and the render snapshot.
  - `go` — the game-object layer: scenes, hierarchy edges and their
    maintenance, cascading destroy, validated handles, dirty marking.
  - `math` — integer vectors, boxes, matrices and quaternions.
  - `erased` — type identities and type-erased values (the trusted edge).
- `tests/` — tests of the library on concrete values.
- `app/` — the engine binary and what the library does not hold: floating
  point transforms and their propagation arithmetic, frame-time resolution.

