# plato_engine

The PLATO tile engine: tiles are submitted to rooms through a quality gate,
stored once per content hash, queried by tag, and rooms are connected into a
graph by shared tags and domains, for shortest-path search and depth-first
traversal. The library is written in Verus: the functions in `src/` carry
`requires`/`ensures` contracts that Verus proves, except the small wrappers
around outside calls, whose contracts are trusted (see below).

## Layout

- `src/tile.rs`: tiles, their SHA-256 content hash, validation, the builder.
- `src/gate.rs`: the quality gate's rules (validation, minimum lengths,
  absolute claims outside quotes, duplicates) and its verdict as a spec.
- `src/room.rs`: rooms, with a content-hash index that keeps one tile per
  content.
- `src/engine.rs`: the engine: rooms by id, the quality gate in front of them, and
  submission counters whose totals always agree.
- `src/graph.rs`: the adjacency graph on node indices; breadth-first search
  (shortest, and first in edge order) and depth-first exploration.
- `src/pathfinder.rs`: the graph of an engine's rooms, by room id.
- `src/server.rs`: request and response shapes of the HTTP service, and how a
  submission request is answered.
- `src/text.rs`, `src/ieee.rs`: text helpers and binary64 values held by bit
  pattern.
- `app/`: the HTTP server (axum, tokio), JSON conversions, and what needs
  floating-point arithmetic.
- `tests/`: tests of the library through its public interface.

Calls into outside crates (sha2, hex, uuid, chrono, regex, rayon, dashmap)
go through small trusted wrappers whose contracts state what those crates
document.
