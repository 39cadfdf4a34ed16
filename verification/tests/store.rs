use scene_hook::world::{Entity, Store};

fn named(id: u64, name: &str, parent: Option<u64>) -> Entity {
    Entity { id, name: Some(name.to_string()), parent, components: vec![], hooked: false }
}

fn bare(id: u64) -> Entity {
    Entity { id, name: None, parent: None, components: vec![], hooked: false }
}

#[test]
fn spawn_and_lookup() {
    let mut store = Store::new();
    assert_eq!(store.len(), 0);
    assert!(store.spawn(named(1, "Root", None)));
    assert!(store.spawn(named(2, "Child", Some(1))));
    assert_eq!(store.len(), 2);
    assert!(store.has_entity(1));
    assert!(store.has_entity(2));
    assert!(!store.has_entity(3));
    let e = store.get_entity(2).unwrap();
    assert_eq!(e.name.as_deref(), Some("Child"));
    assert_eq!(e.parent, Some(1));
}

#[test]
fn spawn_refuses_duplicate_id() {
    let mut store = Store::new();
    assert!(store.spawn(bare(1)));
    assert!(!store.spawn(named(1, "Again", None)));
    assert_eq!(store.len(), 1);
}

#[test]
fn spawn_refuses_missing_parent() {
    let mut store = Store::new();
    assert!(!store.spawn(named(2, "Orphan", Some(1))));
    assert_eq!(store.len(), 0);
}

#[test]
fn insert_and_remove_component() {
    let mut store = Store::new();
    assert!(store.spawn(bare(1)));
    assert!(store.insert_component(1, 42));
    assert!(store.has_component(1, 42));
    // inserting the same component twice is a no-op
    assert!(store.insert_component(1, 42));
    assert!(store.has_component(1, 42));
    assert!(store.remove_component(1, 42));
    assert!(!store.has_component(1, 42));
    // removing a component that is not there is a no-op
    assert!(store.remove_component(1, 42));
    assert!(!store.has_component(1, 42));
    // on a dead entity both report failure
    assert!(!store.insert_component(9, 42));
    assert!(!store.remove_component(9, 42));
}

#[test]
fn despawn_recursive_cascades() {
    let mut store = Store::new();
    assert!(store.spawn(bare(1)));
    assert!(store.spawn(named(2, "Child", Some(1))));
    assert!(store.spawn(named(3, "Grandchild", Some(2))));
    assert!(store.spawn(bare(4)));
    store.despawn_recursive(1);
    assert!(!store.has_entity(1));
    assert!(!store.has_entity(2));
    assert!(!store.has_entity(3));
    assert!(store.has_entity(4));
    assert_eq!(store.len(), 1);
}

#[test]
fn despawn_missing_id_is_noop() {
    let mut store = Store::new();
    assert!(store.spawn(bare(1)));
    store.despawn_recursive(7);
    assert!(store.has_entity(1));
    assert_eq!(store.len(), 1);
}
