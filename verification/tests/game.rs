use archetype_ecs::building_descriptor::BuildingDescriptor;
use archetype_ecs::honeycomb::Hexter;
use archetype_ecs::honeycomb::SpiralLoop;
use archetype_ecs::honeycomb::direction_vector;
use archetype_ecs::input_plugin::ButtonState;
use archetype_ecs::input_plugin::InputEvent;
use archetype_ecs::input_plugin::KeyboardEvent;
use archetype_ecs::input_plugin::KeyCode;
use archetype_ecs::input_plugin::KeyEvent;
use archetype_ecs::input_plugin::MouseButton;
use archetype_ecs::input_plugin::MouseButtonEvent;
use archetype_ecs::input_plugin::MouseEvent;
use archetype_ecs::level_descriptors::get_dummy_level;
use archetype_ecs::level_manager::Action;
use archetype_ecs::level_manager::BuildingInstance;
use archetype_ecs::level_manager::BuildingInstanceId;
use archetype_ecs::level_manager::Buildings;
use archetype_ecs::level_manager::Ground;
use archetype_ecs::level_manager::InventoryManager;
use archetype_ecs::level_manager::LevelManager;
use archetype_ecs::level_manager::Roads;
use archetype_ecs::level_manager::StatsManager;
use archetype_ecs::level_manager::UndoRedo;
use archetype_ecs::resource_stack::GameResource;
use archetype_ecs::resource_stack::ResourceStack;

fn empty_action(score_change: u16) -> Action {
    Action {
        building: None,
        road: None,
        tiles_added: None,
        score_change,
        resource_change: ResourceStack::resource_array(0, 0, 0),
    }
}

fn small_building(id: u32, center: Hexter) -> BuildingInstance {
    BuildingInstance {
        instance_id: BuildingInstanceId(id),
        center,
        rotated_tiles: vec![Hexter::new(0, 0), Hexter::new(1, 0)],
        descriptor: BuildingDescriptor {
            id: 7,
            shape: vec![Hexter::new(0, 0), Hexter::new(1, 0)],
            price: vec![ResourceStack::new(GameResource::Dood, 2)],
            reward: vec![ResourceStack::new(GameResource::Wood, 1)],
            base_score: 5,
        },
    }
}

#[test]
fn hexter_rotate_matches_axial_rule() {
    let h = Hexter::new(1, 0);
    assert_eq!(h.rotate(true), Hexter::new(0, 1));
    assert_eq!(h.rotate(false), Hexter::new(1, -1));
    let h = Hexter::new(2, -1);
    assert_eq!(h.rotate(true), Hexter::new(1, 1));
}

#[test]
fn hexter_add_and_scale() {
    let a = Hexter::new(2, -3);
    let b = Hexter::new(-1, 5);
    assert_eq!(a.add(b), Hexter::new(1, 2));
    assert_eq!(a.scale(3), Hexter::new(6, -9));
}

#[test]
fn spiral_walks_center_then_ring() {
    let center = Hexter::new(0, 0);
    let mut walk = SpiralLoop::new(center, 1);
    let mut seen = Vec::new();
    while let Some(h) = walk.next() {
        seen.push(h);
    }
    assert_eq!(seen.len(), 7);
    assert_eq!(seen[0], center);
    for d in 0..6u32 {
        assert!(seen.contains(&direction_vector(d)));
    }
}

#[test]
fn dummy_level_has_seven_areas() {
    let level = get_dummy_level();
    assert_eq!(level.areas.len(), 7);
    for (i, area) in level.areas.iter().enumerate() {
        assert_eq!(area.unlock_score, (i as u32) * 3);
        assert_eq!(area.reward[0], ResourceStack::new(GameResource::Dood, 3));
        assert_eq!(area.reward[1], ResourceStack::new(GameResource::Wood, 0));
        assert_eq!(area.reward[2], ResourceStack::new(GameResource::Food, 0));
        assert_eq!(area.tiles.len(), 37);
    }
    assert_eq!(level.starting_road, Hexter::new(0, 0));
}

#[test]
fn resource_array_orders_the_kinds() {
    let arr = ResourceStack::resource_array(1, 2, 3);
    assert_eq!(arr[0], ResourceStack::new(GameResource::Dood, 1));
    assert_eq!(arr[1], ResourceStack::new(GameResource::Wood, 2));
    assert_eq!(arr[2], ResourceStack::new(GameResource::Food, 3));
}

#[test]
fn inventory_adds_and_removes_counts() {
    let mut inventory = InventoryManager::new();
    inventory.add_items(&[
        ResourceStack::new(GameResource::Dood, 5),
        ResourceStack::new(GameResource::Food, 2),
    ]);
    assert_eq!(inventory.inventory, vec![5, 0, 2]);
    inventory.remove_items(&[ResourceStack::new(GameResource::Dood, 3)]);
    assert_eq!(inventory.inventory, vec![2, 0, 2]);
}

#[test]
fn availability_rule_compares_count_to_stock() {
    let mut inventory = InventoryManager::new();
    inventory.add_items(&[ResourceStack::new(GameResource::Dood, 5)]);
    // The rule reads: available when the stack's count is at least the
    // stored total.
    assert!(!inventory.is_available(&ResourceStack::new(GameResource::Dood, 3)));
    assert!(inventory.is_available(&ResourceStack::new(GameResource::Dood, 5)));
    assert!(inventory.is_available(&ResourceStack::new(GameResource::Dood, 9)));
}

#[test]
fn stats_start_at_zero() {
    let stats = StatsManager::new();
    assert_eq!(stats.score, 0);
}

#[test]
fn undo_redo_moves_actions_between_stacks() {
    let mut history = UndoRedo::new();
    assert!(history.is_undo_empty());
    assert!(history.is_redo_empty());
    history.add_action(empty_action(1));
    history.add_action(empty_action(2));
    assert!(!history.is_undo_empty());

    let undone = history.get_undo_action();
    assert_eq!(undone.score_change, 2);
    assert!(!history.is_redo_empty());

    let redone = history.get_redo_action();
    assert_eq!(redone.score_change, 2);
    assert!(history.is_redo_empty());

    // A fresh action clears the redo stack.
    let _ = history.get_undo_action();
    history.add_action(empty_action(3));
    assert!(history.is_redo_empty());
    assert_eq!(history.get_undo_action().score_change, 3);
}

#[test]
fn roads_track_membership_and_adjacency() {
    let mut roads = Roads::new();
    roads.add_road(Hexter::new(0, 0));
    roads.add_road(Hexter::new(0, 0));
    assert_eq!(roads.tile_map.len(), 1);
    assert!(!roads.is_empty(&Hexter::new(0, 0)));
    assert!(roads.is_empty(&Hexter::new(5, 5)));
    assert!(roads.is_connected_to_road(&Hexter::new(1, 0)));
    assert!(!roads.is_connected_to_road(&Hexter::new(5, 5)));
    roads.remove_road(Hexter::new(0, 0));
    assert!(roads.is_empty(&Hexter::new(0, 0)));
}

#[test]
fn ground_unlocks_tiles_once() {
    let mut ground = Ground::new();
    ground.add_tiles(&vec![Hexter::new(0, 0), Hexter::new(1, 0), Hexter::new(0, 0)]);
    assert_eq!(ground.tiles.len(), 2);
    assert!(ground.has_tile(&Hexter::new(1, 0)));
    assert!(!ground.has_tile(&Hexter::new(2, 0)));
}

#[test]
fn buildings_cover_their_footprint() {
    let mut buildings = Buildings::new();
    let id = buildings.get_building_instance_id();
    assert_eq!(id, BuildingInstanceId(1));
    let building = BuildingInstance { instance_id: id, ..small_building(1, Hexter::new(2, 2)) };
    buildings.add_building(building);
    assert!(!buildings.is_empty(&Hexter::new(2, 2)));
    assert!(!buildings.is_empty(&Hexter::new(3, 2)));
    assert!(buildings.is_empty(&Hexter::new(4, 2)));

    let removed = buildings.remove_building(id);
    assert_eq!(removed.instance_id, id);
    assert!(buildings.is_empty(&Hexter::new(2, 2)));
    assert!(buildings.is_empty(&Hexter::new(3, 2)));
}

#[test]
fn level_starts_with_first_area() {
    let level = get_dummy_level();
    let manager = LevelManager::new(&level);
    assert_eq!(manager.stats.score, 0);
    assert_eq!(manager.inventory.inventory, vec![3, 0, 0]);
    assert!(manager.is_road(&Hexter::new(0, 0)));
    assert!(!manager.is_road(&Hexter::new(1, 0)));
    assert_eq!(manager.get_tiles().len(), 37);
}

#[test]
fn placing_and_undoing_a_road() {
    let level = get_dummy_level();
    let mut manager = LevelManager::new(&level);
    assert!(manager.can_place_road(&Hexter::new(1, 0)));
    assert!(!manager.can_place_road(&Hexter::new(0, 0)));
    let outcome = manager.place_road(Hexter::new(1, 0));
    assert!(!outcome.tiles_added);
    assert_eq!(outcome.new_score, 0);
    assert!(manager.is_road(&Hexter::new(1, 0)));
    assert!(!manager.undo_redo.is_undo_empty());
    manager.undo();
    assert_eq!(manager.stats.score, 0);
    manager.redo();
    assert_eq!(manager.stats.score, 0);
}

#[test]
fn buying_and_placing_a_building() {
    let level = get_dummy_level();
    let mut manager = LevelManager::new(&level);
    let building = small_building(1, Hexter::new(3, 0));

    // The inventory holds 3 dood; a price of 2 fails the availability
    // rule, a price of 3 passes it.
    let verdict = manager.can_buy_building(&building);
    assert!(!verdict.can_buy);
    assert_eq!(verdict.inefficient_resources.len(), 1);

    let mut affordable = small_building(1, Hexter::new(3, 0));
    affordable.descriptor.price = vec![ResourceStack::new(GameResource::Dood, 3)];
    let verdict = manager.can_buy_building(&affordable);
    assert!(verdict.can_buy);
    assert_eq!(verdict.inefficient_resources.len(), 0);

    let query = manager.can_place_building(small_building(1, Hexter::new(3, 0)));
    assert!(query.can_place);
    assert_eq!(query.score_change, 5);

    manager.place_building(small_building(1, Hexter::new(3, 0)));
    assert!(!manager.undo_redo.is_undo_empty());
    let query = manager.can_place_building(small_building(2, Hexter::new(3, 0)));
    assert!(!query.can_place);
    assert!(query.not_empty_tiles.len() > 0);
}

#[test]
fn input_events_carry_their_payloads() {
    let click = MouseButtonEvent { button: MouseButton::Left, state: ButtonState::Pressed };
    let event = InputEvent::MouseEvent(MouseEvent::MouseButtonEvent(click));
    match event {
        InputEvent::MouseEvent(MouseEvent::MouseButtonEvent(e)) => {
            assert_eq!(e.button, MouseButton::Left);
            assert_eq!(e.state, ButtonState::Pressed);
        },
        _ => panic!("wrong event"),
    }
    let key = KeyEvent { button: KeyCode(17), state: ButtonState::Released };
    let event = InputEvent::KeyboardEvent(KeyboardEvent::KeyEvent(key));
    match event {
        InputEvent::KeyboardEvent(KeyboardEvent::KeyEvent(e)) => {
            assert_eq!(e.button, KeyCode(17));
            assert_eq!(e.state, ButtonState::Released);
        },
        _ => panic!("wrong event"),
    }
    assert_eq!(MouseButton::Other(3), MouseButton::Other(3));
}
