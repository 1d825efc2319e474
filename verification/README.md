# ecs

An entity-component-system core whose behaviour is stated in contracts and proved.

- `src/entity.rs` — generational entity handles (`Entity`, `Entities`).
- `src/component/` — component kinds (`ComponentRegistry`), per-kind storages (`Storage`,
  `VecStorage`, occupancy kept in a `dense_bitset::BitSet`) and the borrow states that queries
  take.
- `src/query.rs` — `Query`: a list of component requests, checked against the borrowing rules.
- `src/world.rs` — `World`: entities, components and resources, with access-checked queries.
- `src/commands/` — deferred commands (`Command`, `CommandBuffer`, `Commands`).
- `src/laws.rs` — properties that relate several operations.
- `src/time.rs` — the simulation clock, stepped ten milliseconds at a time.
- `src/rendering.rs` — the layout of a batch of model files: where each mesh's vertices and
  indices go in the shared buffers and which material it uses.
- `src/window.rs` — small plain types of the engine.
- `app/lib.rs` — typed access: components of any `'static` Rust type, found by their `TypeId`, each
  type numbered with a key of its own.
