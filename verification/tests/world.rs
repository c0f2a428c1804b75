use archetype_ecs::component::Component;
use archetype_ecs::component::ComponentTypeId;
use archetype_ecs::component::ComponentVecOperator;
use archetype_ecs::component::Components;
use archetype_ecs::component::TypeErasedComponentVec;
use archetype_ecs::entity::Entities;
use archetype_ecs::entity::EntityId;
use archetype_ecs::world::World;

#[derive(Clone, Copy, Debug, PartialEq)]
enum Comp {
    Position { x: f32, y: f32 },
    Velocity { x: f32, y: f32 },
    Health(i32),
}

impl Component for Comp {
}

const POSITION_KEY: u64 = 1;
const VELOCITY_KEY: u64 = 2;
const HEALTH_KEY: u64 = 3;

fn position(x: f32, y: f32) -> Comp {
    Comp::Position { x, y }
}

#[test]
fn entity_ids_count_upward() {
    let mut entities = Entities::new();
    assert_eq!(entities.get_new_entity_id(), EntityId::new(0));
    assert_eq!(entities.get_new_entity_id(), EntityId::new(1));
    assert_eq!(entities.get_new_entity_id(), EntityId::new(2));
}

#[test]
fn registry_assigns_stable_ids() {
    let mut components = Components::new();
    let a = components.register_component(10, String::from("alpha"));
    let b = components.register_component(11, String::from("beta"));
    let a_again = components.register_component(10, String::from("other"));
    assert_eq!(a, a_again);
    assert_ne!(a, b);
    assert_eq!(components.get_component_id(10), Some(a));
    assert_eq!(components.get_component_id(11), Some(b));
    assert_eq!(components.get_component_id(12), None);
    assert_eq!(components.get_name(&a), "alpha");
    assert!(components.get_component_vec_operator(&a).is_some());
    assert!(components.get_component_vec_operator(&ComponentTypeId(99)).is_none());
}

#[test]
fn erased_column_push_and_swap_remove() {
    let operator = ComponentVecOperator::new();
    let mut column: TypeErasedComponentVec<u32> = operator.create_column();
    column.push(10);
    column.push(20);
    column.push(30);
    assert_eq!(column.get().len(), 3);
    column.swap_remove(0);
    assert_eq!(column.get().as_slice(), &[30, 20]);
    let mut dest: TypeErasedComponentVec<u32> = TypeErasedComponentVec::new();
    TypeErasedComponentVec::migrate_push(&mut column, &mut dest, 1);
    assert_eq!(column.get().as_slice(), &[30]);
    assert_eq!(dest.get().as_slice(), &[20]);
    column.insert(99, 0);
    assert_eq!(column.get().as_slice(), &[99, 30]);
    column.remove(0);
    assert_eq!(column.get().as_slice(), &[30]);
}

#[test]
fn insert_then_query_round_trip() {
    let mut world: World<Comp> = World::new();
    let pos = world.register_component(POSITION_KEY, String::from("position"));
    let a = world.insert_entity(vec![(pos, position(1.0, 2.0))]);
    let rows = world.query(&vec![pos]);
    assert_eq!(rows.len(), 1);
    assert_eq!(rows[0].0, a);
    assert_eq!(rows[0].1, vec![position(1.0, 2.0)]);
}

#[test]
fn two_entities_one_removed() {
    // Register Position; insert A with (1,2) and B with (3,4); a mutable
    // query yields both pairs; after removing A, a query yields (3,4) alone.
    let mut world: World<Comp> = World::new();
    let pos = world.register_component(POSITION_KEY, String::from("position"));
    let a = world.insert_entity(vec![(pos, position(1.0, 2.0))]);
    let b = world.insert_entity(vec![(pos, position(3.0, 4.0))]);
    assert_ne!(a, b);

    let rows = world.query_mut(&vec![pos]);
    assert_eq!(rows.len(), 2);
    let mut seen: Vec<Comp> = rows.iter().map(|r| r.1[0]).collect();
    seen.sort_by(|x, y| format!("{:?}", x).cmp(&format!("{:?}", y)));
    let mut expected = vec![position(1.0, 2.0), position(3.0, 4.0)];
    expected.sort_by(|x, y| format!("{:?}", x).cmp(&format!("{:?}", y)));
    assert_eq!(seen, expected);

    world.remove_entity(a);
    let rows = world.query(&vec![pos]);
    assert_eq!(rows.len(), 1);
    assert_eq!(rows[0].0, b);
    assert_eq!(rows[0].1, vec![position(3.0, 4.0)]);
}

#[test]
fn remove_component_migrates_the_row() {
    // Register Position and Velocity; insert one entity with both; after
    // detaching Velocity, the pair query is empty but the Position query
    // still finds the earlier value under the same entity id.
    let mut world: World<Comp> = World::new();
    let pos = world.register_component(POSITION_KEY, String::from("position"));
    let vel = world.register_component(VELOCITY_KEY, String::from("velocity"));
    let e = world.insert_entity(vec![
        (pos, position(5.0, 6.0)),
        (vel, Comp::Velocity { x: 0.5, y: 0.25 }),
    ]);

    world.remove_component(e, vel);

    let both = world.query(&vec![pos, vel]);
    assert_eq!(both.len(), 0);
    let only_pos = world.query(&vec![pos]);
    assert_eq!(only_pos.len(), 1);
    assert_eq!(only_pos[0].0, e);
    assert_eq!(only_pos[0].1, vec![position(5.0, 6.0)]);
}

#[test]
fn migration_moves_between_archetypes() {
    // An entity with three kinds keeps the other two values after one kind
    // is detached, and the entity id never changes.
    let mut world: World<Comp> = World::new();
    let pos = world.register_component(POSITION_KEY, String::from("position"));
    let vel = world.register_component(VELOCITY_KEY, String::from("velocity"));
    let hp = world.register_component(HEALTH_KEY, String::from("health"));
    let e = world.insert_entity(vec![
        (pos, position(1.0, 1.0)),
        (vel, Comp::Velocity { x: 2.0, y: 2.0 }),
        (hp, Comp::Health(77)),
    ]);

    world.remove_component(e, vel);

    assert_eq!(*world.get_component(e, pos), position(1.0, 1.0));
    assert_eq!(*world.get_component(e, hp), Comp::Health(77));
    let rows = world.query(&vec![pos, hp]);
    assert_eq!(rows.len(), 1);
    assert_eq!(rows[0].0, e);
}

#[test]
fn queries_match_supersets() {
    // An archetype with extra unrequested kinds still matches; one missing a
    // requested kind never does.
    let mut world: World<Comp> = World::new();
    let pos = world.register_component(POSITION_KEY, String::from("position"));
    let vel = world.register_component(VELOCITY_KEY, String::from("velocity"));
    let rich = world.insert_entity(vec![
        (pos, position(0.0, 0.0)),
        (vel, Comp::Velocity { x: 1.0, y: 0.0 }),
    ]);
    let poor = world.insert_entity(vec![(pos, position(9.0, 9.0))]);

    let rows = world.query(&vec![pos]);
    assert_eq!(rows.len(), 2);
    let rows = world.query(&vec![vel]);
    assert_eq!(rows.len(), 1);
    assert_eq!(rows[0].0, rich);
    let rows = world.query(&vec![pos, vel]);
    assert_eq!(rows.len(), 1);
    assert_eq!(rows[0].0, rich);
    let _ = poor;
}

#[test]
fn set_component_overwrites_one_value() {
    let mut world: World<Comp> = World::new();
    let pos = world.register_component(POSITION_KEY, String::from("position"));
    let hp = world.register_component(HEALTH_KEY, String::from("health"));
    let e = world.insert_entity(vec![(pos, position(1.0, 2.0)), (hp, Comp::Health(3))]);
    world.set_component(e, hp, Comp::Health(42));
    assert_eq!(*world.get_component(e, hp), Comp::Health(42));
    assert_eq!(*world.get_component(e, pos), position(1.0, 2.0));
}

#[test]
fn query_single_returns_a_match() {
    let mut world: World<Comp> = World::new();
    let pos = world.register_component(POSITION_KEY, String::from("position"));
    let e = world.insert_entity(vec![(pos, position(8.0, 8.0))]);
    let row = world.query_single(&vec![pos]);
    assert_eq!(row.0, e);
    assert_eq!(row.1, vec![position(8.0, 8.0)]);
    let row = world.query_mut_single(&vec![pos]);
    assert_eq!(row.0, e);
}

#[test]
fn removing_absent_entity_changes_nothing() {
    let mut world: World<Comp> = World::new();
    let pos = world.register_component(POSITION_KEY, String::from("position"));
    let e = world.insert_entity(vec![(pos, position(1.0, 1.0))]);
    world.remove_entity(EntityId::new(999));
    let rows = world.query(&vec![pos]);
    assert_eq!(rows.len(), 1);
    assert_eq!(rows[0].0, e);
}

#[test]
fn swap_remove_keeps_other_rows_aligned() {
    // Three entities in one archetype; removing the first moves the last
    // into its slot, and every surviving entity still reads its own values.
    let mut world: World<Comp> = World::new();
    let pos = world.register_component(POSITION_KEY, String::from("position"));
    let hp = world.register_component(HEALTH_KEY, String::from("health"));
    let a = world.insert_entity(vec![(pos, position(1.0, 0.0)), (hp, Comp::Health(1))]);
    let b = world.insert_entity(vec![(pos, position(2.0, 0.0)), (hp, Comp::Health(2))]);
    let c = world.insert_entity(vec![(pos, position(3.0, 0.0)), (hp, Comp::Health(3))]);
    world.remove_entity(a);
    assert_eq!(*world.get_component(b, hp), Comp::Health(2));
    assert_eq!(*world.get_component(c, hp), Comp::Health(3));
    assert_eq!(*world.get_component(b, pos), position(2.0, 0.0));
    assert_eq!(*world.get_component(c, pos), position(3.0, 0.0));
}
