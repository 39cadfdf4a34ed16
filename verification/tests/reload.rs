use scene_hook::hook::{InsertOnName, NameRule};
use scene_hook::registry::Registry;
use scene_hook::reload::{
    Hook, HookFn, PollAction, ReloadEntry, State, poll_action, run_reloadable_hooks,
};
use scene_hook::world::{Entity, Store};

const MARKER_M: u64 = 100;

fn named(id: u64, name: &str, parent: Option<u64>) -> Entity {
    Entity { id, name: Some(name.to_string()), parent, components: vec![], hooked: false }
}

fn carrier(id: u64) -> Entity {
    Entity { id, name: None, parent: None, components: vec![], hooked: false }
}

fn ground_hook() -> Hook<InsertOnName> {
    Hook::new(InsertOnName { rules: vec![NameRule { name: "Ground".to_string(), component: MARKER_M }] })
}

#[test]
fn transition_table() {
    assert_eq!(poll_action(State::Loading, false, true), (PollAction::Wait, State::Loading));
    assert_eq!(poll_action(State::Loading, true, true), (PollAction::Dispatch, State::Hooked));
    assert_eq!(poll_action(State::Hooked, true, true), (PollAction::Wait, State::Hooked));
    assert_eq!(poll_action(State::Hooked, false, false), (PollAction::Wait, State::Hooked));
    assert_eq!(poll_action(State::MustReload, true, true), (PollAction::Reload, State::Loading));
    assert_eq!(
        poll_action(State::MustReload, true, false),
        (PollAction::Wait, State::MustReload)
    );
    assert_eq!(poll_action(State::MustDelete, true, true), (PollAction::Delete, State::MustDelete));
}

#[test]
fn loading_reaches_hooked_once_ready() {
    let mut store = Store::new();
    let mut registry = Registry::new();
    assert!(store.spawn(carrier(1)));
    let instance = registry.request_load(Some("box".to_string()));
    let mut entries = vec![ReloadEntry { carrier: 1, instance, hook: ground_hook() }];
    assert!(store.spawn(named(10, "Ground", None)));

    run_reloadable_hooks(&mut entries, &mut registry, &mut store);
    assert_eq!(entries[0].hook.state, State::Loading);
    assert!(!store.has_component(10, MARKER_M));

    assert!(registry.complete_load(instance, vec![10]));
    run_reloadable_hooks(&mut entries, &mut registry, &mut store);
    assert_eq!(entries[0].hook.state, State::Hooked);
    assert!(store.has_component(10, MARKER_M));

    // at rest: a further poll changes nothing
    run_reloadable_hooks(&mut entries, &mut registry, &mut store);
    assert_eq!(entries[0].hook.state, State::Hooked);
    assert_eq!(entries[0].instance, instance);
}

#[test]
fn delete_before_ready_never_runs_hook() {
    let mut store = Store::new();
    let mut registry = Registry::new();
    assert!(store.spawn(carrier(1)));
    let instance = registry.request_load(Some("box".to_string()));
    let mut entries = vec![ReloadEntry { carrier: 1, instance, hook: ground_hook() }];

    entries[0].hook.set_state(State::MustDelete);
    run_reloadable_hooks(&mut entries, &mut registry, &mut store);
    assert!(!store.has_entity(1));
    assert_eq!(store.len(), 0);
}

#[test]
fn delete_tears_instance_and_carrier_down() {
    let mut store = Store::new();
    let mut registry = Registry::new();
    assert!(store.spawn(carrier(1)));
    let instance = registry.request_load(Some("box".to_string()));
    let mut entries = vec![ReloadEntry { carrier: 1, instance, hook: ground_hook() }];
    assert!(store.spawn(named(10, "Ground", None)));
    // a child the caller attached below a scene entity falls with it
    assert!(store.spawn(named(12, "Prop", Some(10))));
    assert!(store.spawn(carrier(4)));
    assert!(registry.complete_load(instance, vec![10]));

    run_reloadable_hooks(&mut entries, &mut registry, &mut store);
    assert_eq!(entries[0].hook.state, State::Hooked);

    entries[0].hook.set_state(State::MustDelete);
    run_reloadable_hooks(&mut entries, &mut registry, &mut store);
    assert!(!store.has_entity(1));
    assert!(!store.has_entity(10));
    assert!(!store.has_entity(12));
    assert!(store.has_entity(4));
    assert_eq!(store.len(), 1);
}

#[test]
fn reload_cycles_back_through_loading() {
    let mut store = Store::new();
    let mut registry = Registry::new();
    assert!(store.spawn(carrier(1)));
    let first = registry.request_load(Some("box".to_string()));
    let mut entries = vec![ReloadEntry { carrier: 1, instance: first, hook: ground_hook() }];
    assert!(store.spawn(named(10, "Ground", None)));
    assert!(registry.complete_load(first, vec![10]));
    run_reloadable_hooks(&mut entries, &mut registry, &mut store);
    assert_eq!(entries[0].hook.state, State::Hooked);

    entries[0].hook.set_state(State::MustReload);
    run_reloadable_hooks(&mut entries, &mut registry, &mut store);
    // old entities are gone, the state is back to Loading, and the record
    // owns a fresh handle for the same source
    assert!(!store.has_entity(10));
    assert_eq!(entries[0].hook.state, State::Loading);
    let second = entries[0].instance;
    assert_ne!(second, first);
    assert_eq!(registry.source_of(second).as_deref(), Some("box"));
    assert!(!registry.is_ready(second));

    // the fake loader materializes the fresh load; the following poll
    // re-invokes the hook and reaches Hooked again
    assert!(store.spawn(named(30, "Ground", None)));
    assert!(registry.complete_load(second, vec![30]));
    run_reloadable_hooks(&mut entries, &mut registry, &mut store);
    assert_eq!(entries[0].hook.state, State::Hooked);
    assert!(store.has_component(30, MARKER_M));
    assert!(!store.has_entity(10));
}

#[test]
fn repeated_reload_requests_collapse_to_one_cycle() {
    let mut store = Store::new();
    let mut registry = Registry::new();
    assert!(store.spawn(carrier(1)));
    let first = registry.request_load(Some("box".to_string()));
    let mut entries = vec![ReloadEntry { carrier: 1, instance: first, hook: ground_hook() }];
    assert!(store.spawn(named(10, "Ground", None)));
    assert!(registry.complete_load(first, vec![10]));
    run_reloadable_hooks(&mut entries, &mut registry, &mut store);

    // asking N times in a row changes nothing over asking once
    entries[0].hook.set_state(State::MustReload);
    entries[0].hook.set_state(State::MustReload);
    entries[0].hook.set_state(State::MustReload);
    run_reloadable_hooks(&mut entries, &mut registry, &mut store);
    let second = entries[0].instance;
    assert_eq!(entries[0].hook.state, State::Loading);
    assert_eq!(second, first + 1);

    // and the poll right after the serviced one merely waits
    run_reloadable_hooks(&mut entries, &mut registry, &mut store);
    assert_eq!(entries[0].hook.state, State::Loading);
    assert_eq!(entries[0].instance, second);
}

#[test]
fn reload_without_source_is_stuck() {
    let mut store = Store::new();
    let mut registry = Registry::new();
    assert!(store.spawn(carrier(1)));
    let instance = registry.request_load(None);
    let mut entries = vec![ReloadEntry { carrier: 1, instance, hook: ground_hook() }];
    assert!(store.spawn(named(10, "Ground", None)));
    assert!(registry.complete_load(instance, vec![10]));
    run_reloadable_hooks(&mut entries, &mut registry, &mut store);
    assert_eq!(entries[0].hook.state, State::Hooked);

    entries[0].hook.set_state(State::MustReload);
    run_reloadable_hooks(&mut entries, &mut registry, &mut store);
    // no registered source: the reload is abandoned and retried next frame,
    // the scene's entities stay up
    assert_eq!(entries[0].hook.state, State::MustReload);
    assert_eq!(entries[0].instance, instance);
    assert!(store.has_entity(10));
}

#[test]
fn default_hook_does_nothing() {
    let mut store = Store::new();
    let mut registry = Registry::new();
    assert!(store.spawn(carrier(1)));
    let instance = registry.request_load(Some("box".to_string()));
    let mut entries = vec![ReloadEntry {
        carrier: 1,
        instance,
        hook: Hook::new(HookFn::default()),
    }];
    assert!(store.spawn(named(10, "Ground", None)));
    assert!(registry.complete_load(instance, vec![10]));
    run_reloadable_hooks(&mut entries, &mut registry, &mut store);
    assert_eq!(entries[0].hook.state, State::Hooked);
    assert!(!store.has_component(10, MARKER_M));
}
