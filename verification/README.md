# ECS core, verified

An entity–component–system core for a game engine, written in Verus: generational
entity ids, chunked archetype tables for components, typed-key resources and event
channels, deferred structural commands, and a stage schedule driven by a fixed-step
application loop. Component, resource and event values are carried as one payload type
`V` chosen by the user, each tagged with the id of its type.

Layout:

- `src/ecs/entity.rs` — the generational allocator and its laws.
- `src/ecs/component.rs` — component ids and the registry that orders them.
- `src/ecs/storage/table/` — columns, chunks, archetypes and the table storage that
  moves rows between archetypes.
- `src/ecs/row_index.rs` — how a world's per-entity row index agrees with its storage.
- `src/ecs/world.rs` — the world, its abstract view (`WorldView`) and every operation's
  contract over that view; `src/ecs/world_laws.rs` states what holds across operations.
- `src/ecs/command.rs`, `src/ecs/bundle.rs`, `src/ecs/resource.rs`, `src/ecs/event.rs`,
  `src/ecs/query.rs` — deferred commands, spawn bundles, resources, events, query items.
- `src/runtime/` — stages, systems, plugins, the fixed-step clock and the application loop.
- `app/` — typed access by Rust types on top of a `Box<dyn Any>` payload, and closures as
  systems.
