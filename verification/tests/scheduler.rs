use archetype_ecs::component::Component;
use archetype_ecs::event_bus::EventBus;
use archetype_ecs::event_bus::WorldEvent;
use archetype_ecs::singletons::Singletons;
use archetype_ecs::stage::SystemStage;
use archetype_ecs::storage::Storage;
use archetype_ecs::world::Schedular;

#[derive(Clone, Copy, Debug, PartialEq)]
struct Payload(u32);

impl Component for Payload {
}

struct Tick;

impl WorldEvent for Tick {
}

#[test]
fn scheduler_runs_in_registration_order() {
    let mut schedular = Schedular::new();
    schedular.add_system(SystemStage::Update, 1);
    schedular.add_system(SystemStage::Update, 2);
    schedular.add_system(SystemStage::Update, 3);
    let order = schedular.run(SystemStage::Update, Vec::<u64>::new(), |id, mut v: Vec<u64>| {
        v.push(id);
        v
    });
    assert_eq!(order, vec![1, 2, 3]);
}

#[test]
fn scheduler_keeps_stages_apart() {
    let mut schedular = Schedular::new();
    schedular.add_system(SystemStage::Update, 10);
    schedular.add_system(SystemStage::Render, 20);
    let updates = schedular.run(SystemStage::Update, Vec::<u64>::new(), |id, mut v: Vec<u64>| {
        v.push(id);
        v
    });
    assert_eq!(updates, vec![10]);
    let renders = schedular.run(SystemStage::Render, Vec::<u64>::new(), |id, mut v: Vec<u64>| {
        v.push(id);
        v
    });
    assert_eq!(renders, vec![20]);
    let starts = schedular.run(SystemStage::Start, 7u64, |_, v| v);
    assert_eq!(starts, 7);
}

#[test]
fn scheduler_threads_state_through_systems() {
    let mut schedular = Schedular::new();
    schedular.add_system(SystemStage::PreUpdate, 3);
    schedular.add_system(SystemStage::PreUpdate, 4);
    // Non-commuting steps show the order: ((1 * 10 + 3) * 10 + 4).
    let out = schedular.run(SystemStage::PreUpdate, 1u64, |id, v: u64| v * 10 + id);
    assert_eq!(out, 134);
}

#[test]
fn singletons_store_one_value_per_key() {
    let mut singletons: Singletons<u32> = Singletons::new();
    assert_eq!(singletons.insert(1, 100), None);
    assert_eq!(singletons.insert(2, 200), None);
    assert_eq!(singletons.insert(1, 111), Some(100));
    assert_eq!(singletons.get(1), Some(&111));
    assert_eq!(singletons.get(2), Some(&200));
    assert_eq!(singletons.get(3), None);
    {
        let v = singletons.get_mut(2);
        *v = 222;
    }
    assert_eq!(singletons.get(2), Some(&222));
    assert_eq!(singletons.remove(1), Some(111));
    assert_eq!(singletons.remove(1), None);
    assert_eq!(singletons.get(1), None);
}

#[test]
fn event_bus_keeps_listener_order() {
    let mut bus = EventBus::new();
    assert!(bus.get_list(5).is_none());
    bus.add_listener(5, 100);
    bus.add_listener(5, 101);
    bus.add_listener(6, 200);
    assert_eq!(bus.get_list(5).unwrap(), vec![100, 101]);
    assert_eq!(bus.get_list(6).unwrap(), vec![200]);
    bus.remove_listener(5, 100);
    assert_eq!(bus.get_list(5).unwrap(), vec![101]);
    bus.remove_listener(5, 77);
    assert_eq!(bus.get_list(5).unwrap(), vec![101]);
}

#[test]
fn emit_dispatches_in_order_against_the_whole_storage() {
    let mut storage: Storage<Payload, Vec<u64>> = Storage::new();
    storage.add_listener(9, 31);
    storage.add_listener(9, 32);
    let _ = storage.singletons.insert(0, Vec::new());
    let storage = storage.emit(9, &Tick, |mut st: Storage<Payload, Vec<u64>>, id, _event| {
        let seen = st.singletons.get_mut(0);
        seen.push(id);
        st
    });
    assert_eq!(storage.singletons.get(0), Some(&vec![31, 32]));
}

#[test]
fn emit_without_listeners_changes_nothing() {
    let storage: Storage<Payload, u32> = Storage::new();
    let storage = storage.emit(1, &Tick, |st, _, _| st);
    assert!(storage.event_bus.get_list(1).is_none());
}
