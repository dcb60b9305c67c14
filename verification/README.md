# just

The core of the `just` game engine, written in Verus and proved against its
contracts.

- `src/hierarchy.rs`: the world of game objects, the parent/child hierarchy
  and the cached local and global matrices, with the rules that mark caches to
  be computed again and compute them on demand.
- `src/assets.rs`: the resource files grouped by extension, and the storage
  of loaded assets reachable by name through handles.
- `src/scene.rs`: making the objects of a scene tree, parent before children.
- `src/input.rs`: mouse button state across frames.
- `src/events.rs`: the frame loop's step from one window event to the next
  state and action.
- `src/scripting.rs`: the queue of script creation requests, the script
  engine settings and the scripting error kinds.
- `src/resources.rs`, `src/game.rs`: resource lookup and the player's
  movement controls.
- `tests/`: tests of the library.
- `app/`: a headless runner that reads the resource directory and a scene
  file, and does the floating-point transform arithmetic around the verified
  hierarchy.
