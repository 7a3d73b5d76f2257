# rogue

Core data structures and bookkeeping of the rogue voxel engine, written in
Verus: the functions of the library state their behaviour in `requires` /
`ensures` and Verus proves the code against it. The few calls into std's path
functions and the regex crate go through small trusted wrappers whose
contracts are stated, not proved.

## Layout

- `src/common/` — general containers: a bitset, Morton (Z-order) codes, a
  generational free list, type-erased vectors (`DynVec`), archetype storage,
  attribute sets and byte-size units.
- `src/engine/entity/` — the entity-component store: component borrow
  states, component archetypes and the `ECSWorld` (spawn, insert, get,
  despawn), whose invariant every operation keeps.
- `src/engine/event.rs` — double-buffered event banks and readers.
- `src/engine/asset/` — asset paths, asset bookkeeping (loading, saving,
  processing limits) and the plain asset representations, among them the
  "THC " tree model file format, written and read back.
- `src/engine/editor/` — the editor's asset-browser state and labels.
- `tests/` — tests of the library on concrete values.
- `app/` — the parts that need the operating system or floating point:
  file I/O, the asset worker threads, byte formatting, typed wrappers over
  the type-erased storage.
