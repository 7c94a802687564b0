# arachne

The core of a small game engine, written in Verus: each function states
what it does in `requires`/`ensures`, and Verus proves it.

## Layout

- `src/` — the verified library.
  - `ecs/` — generational entity handles, the component registry,
    archetype tables, the entity store (`world`) with its queries (by
    components and by change/added ticks), in-place component access,
    resources and event queues, change ticks, double-buffered events,
    conflict-free system batching, system ordering by `before`/`after`
    constraints, and the per-frame stage schedule.
  - `asset/` — asset bundles (a binary container), handles and their
    reference counts, the LRU asset cache, in-memory asset files, PNG
    images (through the `png` crate), atlas packing, OBJ lines and faces, the
    asset server's bookkeeping, and JSON reading and writing.
  - `audio/` — WAV headers and samples, the mixer's channel table, and
    output backends as state machines.
  - `animation` — property paths.
- `tests/` — tests run against the compiled library.
- `app/` — ordinary Rust around the library: file and thread I/O, loaders
  of type-erased assets, and the parts that compute with floats (mesh
  coordinates, atlas texture coordinates, audio samples and mixing, scene
  transforms).

## Laws proved

Among others: a written bundle parses back to its manifest and data, and
so does any bundle built by `add` alone; a WAV
built from samples parses back to them; JSON written compactly or with
indentation reads back to the same value (ASCII strings, well-formed
number texts; the reader takes each raw byte of a string as one character,
so other text does not come back unchanged); atlas placements never overlap and stay inside the atlas;
cache eviction only drops unreferenced entries and stops once under
budget; every live entity occupies exactly one archetype row and every
row holds a live entity; a query returns each matching live entity exactly
once; a resource reads back what was last written under its key; the
system order respects every constraint, and a blocked set of systems has
no valid order; the startup stage runs in
the first frame only, and the runtime stages run every frame in order.
