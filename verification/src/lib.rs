//! An archetype-based entity/component storage and query engine with a staged
//! system scheduler.
//!
//! Entities are rows spread across homogeneous columns; all entities with the
//! same set of component kinds share one archetype. A fixed 256-bit set
//! identifies which component kinds an archetype holds, queries match any
//! archetype whose bit set is a superset of the requested one, and changing an
//! entity's component set migrates its row to another archetype.

// The core: bit sets, component registration, archetypes, entities, the world
// and its scheduler, and the side stores that travel with it.
pub mod archetype;
pub mod bitset;
pub mod component;
pub mod entity;
pub mod event_bus;
pub mod singletons;
pub mod stage;
pub mod storage;
pub mod world;

// The game-side data and rules built on the core.
pub mod building_descriptor;
pub mod honeycomb;
pub mod input_plugin;
pub mod level_descriptors;
pub mod level_manager;
pub mod resource_stack;
