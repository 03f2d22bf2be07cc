# simn_sim

The simulation core of a survival shooter: items and inventories, factions and
their relations, NPC characters and planning, ways over the ground, the slow
tier that plays out what nobody watches, and save files.

- `src/` is the library, written in Verus. Each function states what it
  returns, and each module states the laws that hold across its functions as
  proof functions named `law_..`.
- `tests/` runs the library on concrete values.
- `app/` is ordinary Rust around it: files, threads, systems of the entity
  world, and whatever is computed in floating point.

Floating-point values pass through the library as bit patterns (`float_bits`),
which it orders and never adds up. Random integers are drawn in the library
(`rng`), by generators whose seed and draws so far the contracts speak of; where
a character needs a number from zero to one, the library draws a word, and what
makes the number of it is handed in. The searches in `nav_path` and `waypoints`
go through the `pathfinding` crate, and the checksums of save files through
`crc32fast` and `blake3`.
