# hecs_world

An archetypal entity-component store, verified with Verus.

A `World` holds entities, each with any number of distinctly typed components. The components of
entities that have the same set of component types are stored in contiguous columns, one per type.
An entity is named by a handle, which consists of an ID and a generation; the ID of a despawned
entity is used again under the next generation, so that old handles stay invalid.

The store never looks into a component: it knows the number of its type and carries its value of
type `V`.

## Layout

- `src/model.rs`: what a world holds, as a mathematical value (`WorldModel`), and what each operation
  makes of it. The contract of every operation is an equation between such values.
- `src/layout.rs`: in which row of which archetype each entity is stored, and what each operation
  makes of that.
- `src/laws.rs`, `src/history.rs`, `src/layout.rs`, `src/query.rs`, `src/world/share.rs`,
  `src/world_id.rs`: what holds of worlds, of runs of operations, of rows, of queries, of simultaneous
  queries and of the numbers of worlds as a whole (`law_*`).
- `src/world.rs`, `src/world/`: the world. `storage.rs` gives entities a row and takes it away,
  `change.rs` adds and removes components, `batch.rs` creates many entities at once, `access.rs` and
  `access_mut.rs` read and write components, and `share.rs` lets several queries that read and write
  be active at the same time.
- `src/entities.rs`: allocation of handles.
- `src/archetype.rs`, `src/archetype_set.rs`, `src/graph.rs`: the columns, the archetypes by their
  types, and where an entity moves when its types change.
- `src/bundle.rs`, `src/column_batch.rs`, `src/rows.rs`, `src/types.rs`: components on their way in
  and out.
- `src/query.rs`, `src/fetch.rs`, `src/refs.rs`, `src/entity_ref.rs`, `src/iter.rs`: what to fetch
  from an entity, and how.
- `src/maps.rs`, `src/world_id.rs`: the places where the library relies on `hashbrown` and `spin`.
- `app/`: worlds of statically typed components on top of the store.
