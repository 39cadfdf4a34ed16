use scene_hook::HookedSceneState;
use scene_hook::hook::{HookEntry, InsertOnName, NameRule, SceneHook, StripOnName, run_hooks};
use scene_hook::is_scene_hooked;
use scene_hook::registry::Registry;
use scene_hook::world::{Entity, Store};

const CARRIER_TAG: u64 = 7;
const MARKER_M: u64 = 100;
const MARKER_YELLOW: u64 = 201;
const MARKER_RED: u64 = 202;

fn named(id: u64, name: &str) -> Entity {
    Entity { id, name: Some(name.to_string()), parent: None, components: vec![], hooked: false }
}

fn carrier(id: u64) -> Entity {
    Entity { id, name: None, parent: None, components: vec![CARRIER_TAG], hooked: false }
}

fn rule(name: &str, component: u64) -> NameRule {
    NameRule { name: name.to_string(), component }
}

fn ground_hook() -> SceneHook<InsertOnName> {
    SceneHook::new(InsertOnName { rules: vec![rule("Ground", MARKER_M)] })
}

#[test]
fn hook_marks_named_entity_once_ready() {
    let mut store = Store::new();
    let mut registry = Registry::new();
    assert!(store.spawn(carrier(1)));
    let instance = registry.request_load(Some("box".to_string()));
    let entries = vec![HookEntry { carrier: 1, instance, hook: ground_hook() }];

    assert!(store.spawn(named(10, "Ground")));
    assert!(store.spawn(named(11, "Sky")));

    // not ready yet: nothing is visited, the carrier is not done
    run_hooks(&entries, &registry, &mut store);
    assert!(!store.has_component(10, MARKER_M));
    assert!(!store.has_component(11, MARKER_M));
    assert!(!is_scene_hooked(CARRIER_TAG, &store));

    // ready: the named entity gets the marker, no other entity does
    assert!(registry.complete_load(instance, vec![10, 11]));
    run_hooks(&entries, &registry, &mut store);
    assert!(store.has_component(10, MARKER_M));
    assert!(!store.has_component(11, MARKER_M));
    assert!(!store.has_component(1, MARKER_M));
    assert!(is_scene_hooked(CARRIER_TAG, &store));
}

#[test]
fn hook_runs_at_most_once() {
    let mut store = Store::new();
    let mut registry = Registry::new();
    assert!(store.spawn(carrier(1)));
    let instance = registry.request_load(Some("box".to_string()));
    let entries = vec![HookEntry { carrier: 1, instance, hook: ground_hook() }];
    assert!(store.spawn(named(10, "Ground")));
    assert!(registry.complete_load(instance, vec![10]));

    run_hooks(&entries, &registry, &mut store);
    assert!(store.has_component(10, MARKER_M));
    // the marker can be taken away again: a second poll must not re-run the
    // hook, the carrier being terminally done
    assert!(store.remove_component(10, MARKER_M));
    run_hooks(&entries, &registry, &mut store);
    assert!(!store.has_component(10, MARKER_M));
    assert!(is_scene_hooked(CARRIER_TAG, &store));
}

#[test]
fn sibling_markers_stay_distinct() {
    let mut store = Store::new();
    let mut registry = Registry::new();
    assert!(store.spawn(carrier(1)));
    let instance = registry.request_load(Some("pair".to_string()));
    let hook = SceneHook::new(InsertOnName {
        rules: vec![rule("yellow", MARKER_YELLOW), rule("red", MARKER_RED)],
    });
    let entries = vec![HookEntry { carrier: 1, instance, hook }];
    assert!(store.spawn(named(20, "yellow")));
    assert!(store.spawn(named(21, "red")));
    assert!(registry.complete_load(instance, vec![20, 21]));

    run_hooks(&entries, &registry, &mut store);
    assert!(store.has_component(20, MARKER_YELLOW));
    assert!(!store.has_component(20, MARKER_RED));
    assert!(store.has_component(21, MARKER_RED));
    assert!(!store.has_component(21, MARKER_YELLOW));
}

#[test]
fn absent_entity_is_skipped_silently() {
    let mut store = Store::new();
    let mut registry = Registry::new();
    assert!(store.spawn(carrier(1)));
    let instance = registry.request_load(Some("box".to_string()));
    let entries = vec![HookEntry { carrier: 1, instance, hook: ground_hook() }];
    assert!(store.spawn(named(10, "Ground")));
    // the instance lists an entity that never made it into the store
    assert!(registry.complete_load(instance, vec![10, 99]));

    run_hooks(&entries, &registry, &mut store);
    assert!(store.has_component(10, MARKER_M));
    assert!(!store.has_entity(99));
    assert!(is_scene_hooked(CARRIER_TAG, &store));
}

#[test]
fn dead_carrier_is_inert() {
    let mut store = Store::new();
    let mut registry = Registry::new();
    let instance = registry.request_load(Some("box".to_string()));
    let entries = vec![HookEntry { carrier: 1, instance, hook: ground_hook() }];
    assert!(store.spawn(named(10, "Ground")));
    assert!(registry.complete_load(instance, vec![10]));

    // no carrier entity: the record never fires
    run_hooks(&entries, &registry, &mut store);
    assert!(!store.has_component(10, MARKER_M));
}

#[test]
fn unnamed_entity_matches_no_rule() {
    let mut store = Store::new();
    let mut registry = Registry::new();
    assert!(store.spawn(carrier(1)));
    let instance = registry.request_load(Some("box".to_string()));
    let entries = vec![HookEntry { carrier: 1, instance, hook: ground_hook() }];
    assert!(store.spawn(Entity {
        id: 10,
        name: None,
        parent: None,
        components: vec![],
        hooked: false,
    }));
    assert!(registry.complete_load(instance, vec![10]));

    run_hooks(&entries, &registry, &mut store);
    assert!(!store.has_component(10, MARKER_M));
    assert!(is_scene_hooked(CARRIER_TAG, &store));
}

#[test]
fn hooked_scene_state_gates_on_marker() {
    let mut store = Store::new();
    let mut registry = Registry::new();
    assert!(store.spawn(carrier(1)));
    let instance = registry.request_load(Some("box".to_string()));
    let entries = vec![HookEntry { carrier: 1, instance, hook: ground_hook() }];
    assert!(registry.complete_load(instance, vec![]));

    let state = HookedSceneState { marker: CARRIER_TAG };
    let other = HookedSceneState { marker: 999 };
    assert!(!state.is_loaded(&store));
    run_hooks(&entries, &registry, &mut store);
    assert!(state.is_loaded(&store));
    assert!(!other.is_loaded(&store));
}

#[test]
fn strip_hook_removes_named_marker() {
    let mut store = Store::new();
    let mut registry = Registry::new();
    assert!(store.spawn(carrier(1)));
    let instance = registry.request_load(Some("box".to_string()));
    let hook = SceneHook::new(StripOnName { rules: vec![rule("Ground", MARKER_M)] });
    let entries = vec![HookEntry { carrier: 1, instance, hook }];
    // the scene arrives with the marker already on both entities
    assert!(store.spawn(Entity {
        id: 10,
        name: Some("Ground".to_string()),
        parent: None,
        components: vec![MARKER_M],
        hooked: false,
    }));
    assert!(store.spawn(Entity {
        id: 11,
        name: Some("Sky".to_string()),
        parent: None,
        components: vec![MARKER_M],
        hooked: false,
    }));
    assert!(registry.complete_load(instance, vec![10, 11]));

    run_hooks(&entries, &registry, &mut store);
    assert!(!store.has_component(10, MARKER_M));
    assert!(store.has_component(11, MARKER_M));
}

#[test]
fn carriers_progress_independently() {
    let mut store = Store::new();
    let mut registry = Registry::new();
    assert!(store.spawn(carrier(1)));
    assert!(store.spawn(carrier(2)));
    let first = registry.request_load(Some("one".to_string()));
    let second = registry.request_load(Some("two".to_string()));
    let entries = vec![
        HookEntry { carrier: 1, instance: first, hook: ground_hook() },
        HookEntry {
            carrier: 2,
            instance: second,
            hook: SceneHook::new(InsertOnName { rules: vec![rule("Sky", MARKER_RED)] }),
        },
    ];
    assert!(store.spawn(named(10, "Ground")));
    assert!(store.spawn(named(11, "Sky")));

    // only the first instance is ready: the second record waits, untouched
    assert!(registry.complete_load(first, vec![10]));
    run_hooks(&entries, &registry, &mut store);
    assert!(store.has_component(10, MARKER_M));
    assert!(!store.has_component(11, MARKER_RED));

    // the second becomes ready later and catches up on its own
    assert!(registry.complete_load(second, vec![11]));
    run_hooks(&entries, &registry, &mut store);
    assert!(store.has_component(11, MARKER_RED));
    assert!(store.has_component(10, MARKER_M));
}

#[test]
fn registry_issues_sequential_handles_and_dedups() {
    let mut registry = Registry::new();
    let a = registry.request_load(Some("one".to_string()));
    let b = registry.request_load(None);
    assert_eq!(a, 0);
    assert_eq!(b, 1);
    assert!(!registry.is_ready(a));
    assert!(registry.entities_of(a).is_none());
    assert_eq!(registry.source_of(a).as_deref(), Some("one"));
    assert!(registry.source_of(b).is_none());

    assert!(registry.complete_load(a, vec![10, 11, 10]));
    assert!(registry.is_ready(a));
    assert_eq!(registry.entities_of(a).unwrap(), vec![10, 11]);
    // completing twice, or completing a handle never issued, changes nothing
    assert!(!registry.complete_load(a, vec![12]));
    assert_eq!(registry.entities_of(a).unwrap(), vec![10, 11]);
    assert!(!registry.complete_load(77, vec![12]));
    assert!(!registry.is_ready(b));
}
