use pulse::ComponentEvent;
use pulse::ComponentTable;
use pulse::NodeAllocator;
use pulse::Scene;

#[test]
fn spawn_contains_returns_true() {
    let mut allocator = NodeAllocator::new();
    let mut scene = Scene::new();

    let node = scene.spawn(&mut allocator);

    assert!(scene.contains(node));
}

#[test]
fn spawn_get_parent_returns_none() {
    let mut allocator = NodeAllocator::new();
    let mut scene = Scene::new();

    let node = scene.spawn(&mut allocator);

    assert_eq!(scene.get_parent(node), None);
}

#[test]
fn spawn_get_children_returns_none() {
    let mut allocator = NodeAllocator::new();
    let mut scene = Scene::new();

    let node = scene.spawn(&mut allocator);

    assert_eq!(scene.get_children(node), None);
}

#[test]
fn spawn_get_returns_none() {
    let mut allocator = NodeAllocator::new();
    let mut scene = Scene::new();
    let table: ComponentTable<u32> = ComponentTable::new();

    let node = scene.spawn(&mut allocator);

    assert_eq!(scene.get(&table, node), None);
}

#[test]
fn despawn_contains_returns_false() {
    let mut allocator = NodeAllocator::new();
    let mut scene = Scene::new();
    let node = scene.spawn(&mut allocator);

    scene.despawn(node);

    assert!(!scene.contains(node));
}

#[test]
fn despawn_get_parent_returns_none() {
    let mut allocator = NodeAllocator::new();
    let mut scene = Scene::new();
    let parent = scene.spawn(&mut allocator);
    let node = scene.spawn(&mut allocator);
    scene.set_parent(node, parent);

    scene.despawn(node);

    assert_eq!(scene.get_parent(node), None);
}

#[test]
fn despawn_get_children_returns_none() {
    let mut allocator = NodeAllocator::new();
    let mut scene = Scene::new();
    let parent = scene.spawn(&mut allocator);
    let node = scene.spawn(&mut allocator);
    scene.set_parent(node, parent);

    scene.despawn(node);

    assert_eq!(scene.get_children(node), None);
}

#[test]
fn despawn_parent_contains_returns_false() {
    let mut allocator = NodeAllocator::new();
    let mut scene = Scene::new();
    let parent = scene.spawn(&mut allocator);
    let node = scene.spawn(&mut allocator);
    scene.set_parent(node, parent);

    scene.despawn(parent);

    assert!(!scene.contains(node));
}

#[test]
fn despawn_parent_get_parent_returns_none() {
    let mut allocator = NodeAllocator::new();
    let mut scene = Scene::new();
    let parent = scene.spawn(&mut allocator);
    let node = scene.spawn(&mut allocator);
    scene.set_parent(node, parent);

    scene.despawn(parent);

    assert_eq!(scene.get_parent(node), None);
}

#[test]
fn despawn_parent_get_children_returns_none() {
    let mut allocator = NodeAllocator::new();
    let mut scene = Scene::new();
    let parent = scene.spawn(&mut allocator);
    let node = scene.spawn(&mut allocator);
    scene.set_parent(node, parent);

    scene.despawn(parent);

    assert_eq!(scene.get_children(node), None);
}

#[test]
fn despawn_get_returns_none() {
    let mut allocator = NodeAllocator::new();
    let mut scene = Scene::new();
    let mut table: ComponentTable<u32> = ComponentTable::new();
    let node = scene.spawn(&mut allocator);
    let value = 17u32;
    scene.add(&mut table, node, value);

    let removed = scene.despawn(node);
    table.remove_all(&removed);

    assert_eq!(scene.get(&table, node), None);
    assert_eq!(table.get(node), None);
}

#[test]
fn set_parent_get_parent_returns_parent() {
    let mut allocator = NodeAllocator::new();
    let mut scene = Scene::new();
    let parent = scene.spawn(&mut allocator);
    let node = scene.spawn(&mut allocator);

    scene.set_parent(node, parent);

    assert_eq!(scene.get_parent(node), Some(parent));
}

#[test]
fn set_parent_get_children_returns_node() {
    let mut allocator = NodeAllocator::new();
    let mut scene = Scene::new();
    let parent = scene.spawn(&mut allocator);
    let node = scene.spawn(&mut allocator);

    scene.set_parent(node, parent);

    assert_eq!(scene.get_children(parent), Some([node].as_slice()));
}

#[test]
fn set_parent_removed_node_get_parent_returns_previous_parent() {
    let mut allocator = NodeAllocator::new();
    let mut scene = Scene::new();
    let parent = scene.spawn(&mut allocator);
    let node = scene.spawn(&mut allocator);
    let despawned = scene.spawn(&mut allocator);
    scene.set_parent(node, parent);

    scene.despawn(despawned);
    scene.set_parent(node, despawned);

    assert_eq!(scene.get_parent(node), Some(parent));
}

#[test]
fn set_parent_self_get_parent_returns_previous_parent() {
    let mut allocator = NodeAllocator::new();
    let mut scene = Scene::new();
    let parent = scene.spawn(&mut allocator);
    let node = scene.spawn(&mut allocator);
    scene.set_parent(node, parent);

    scene.set_parent(node, node);

    assert_eq!(scene.get_parent(node), Some(parent));
}

#[test]
fn set_parent_child_get_parent_returns_none() {
    let mut allocator = NodeAllocator::new();
    let mut scene = Scene::new();
    let parent = scene.spawn(&mut allocator);
    let node = scene.spawn(&mut allocator);
    scene.set_parent(node, parent);

    scene.set_parent(parent, node);

    assert_eq!(scene.get_parent(parent), None);
}

#[test]
fn remove_parent_get_parent_returns_none() {
    let mut allocator = NodeAllocator::new();
    let mut scene = Scene::new();
    let parent = scene.spawn(&mut allocator);
    let node = scene.spawn(&mut allocator);
    scene.set_parent(node, parent);

    scene.remove_parent(node);

    assert_eq!(scene.get_parent(node), None);
}

#[test]
fn add_get_returns_value() {
    let mut allocator = NodeAllocator::new();
    let mut scene = Scene::new();
    let mut table: ComponentTable<u32> = ComponentTable::new();
    let node = scene.spawn(&mut allocator);
    let value = 17u32;

    scene.add(&mut table, node, value);

    assert_eq!(scene.get(&table, node), Some(&value));
}

#[test]
fn add_events_returns_added_event() {
    let mut allocator = NodeAllocator::new();
    let mut scene = Scene::new();
    let mut table: ComponentTable<u32> = ComponentTable::new();
    let node = scene.spawn(&mut allocator);
    let value = 17u32;

    scene.add(&mut table, node, value);

    assert_eq!(table.events(), &[ComponentEvent::Added(node)]);
}

#[test]
fn set_get_returns_new_value() {
    let mut allocator = NodeAllocator::new();
    let mut scene = Scene::new();
    let mut table: ComponentTable<u32> = ComponentTable::new();
    let node = scene.spawn(&mut allocator);
    let value = 17u32;
    scene.add(&mut table, node, value);

    let new_value = 192u32;
    scene.set(&mut table, node, new_value);

    assert_eq!(scene.get(&table, node), Some(&new_value));
}

#[test]
fn set_events_returns_modified_event() {
    let mut allocator = NodeAllocator::new();
    let mut scene = Scene::new();
    let mut table: ComponentTable<u32> = ComponentTable::new();
    let node = scene.spawn(&mut allocator);
    let value = 17u32;
    scene.add(&mut table, node, value);

    let new_value = 192u32;
    scene.set(&mut table, node, new_value);

    assert_eq!(
        table.events(),
        &[ComponentEvent::Added(node), ComponentEvent::Modified(node)]
    );
}

#[test]
fn set_existing_value_events_does_not_return_modified_event() {
    let mut allocator = NodeAllocator::new();
    let mut scene = Scene::new();
    let mut table: ComponentTable<u32> = ComponentTable::new();
    let node = scene.spawn(&mut allocator);
    let value = 17u32;
    scene.add(&mut table, node, value);

    scene.set(&mut table, node, value);

    assert_eq!(table.events(), &[ComponentEvent::Added(node)]);
}

#[test]
fn remove_get_returns_none() {
    let mut allocator = NodeAllocator::new();
    let mut scene = Scene::new();
    let mut table: ComponentTable<u32> = ComponentTable::new();
    let node = scene.spawn(&mut allocator);
    let value = 17u32;
    scene.add(&mut table, node, value);

    scene.remove(&mut table, node);

    assert_eq!(scene.get(&table, node), None);
}

#[test]
fn remove_events_returns_removed_event() {
    let mut allocator = NodeAllocator::new();
    let mut scene = Scene::new();
    let mut table: ComponentTable<u32> = ComponentTable::new();
    let node = scene.spawn(&mut allocator);
    let value = 17u32;
    scene.add(&mut table, node, value);

    scene.remove(&mut table, node);

    assert_eq!(
        table.events(),
        &[ComponentEvent::Added(node), ComponentEvent::Removed(node)]
    );
}

#[test]
fn clear_events_events_returns_empty() {
    let mut allocator = NodeAllocator::new();
    let mut scene = Scene::new();
    let mut table: ComponentTable<u32> = ComponentTable::new();
    let node = scene.spawn(&mut allocator);
    let value = 17u32;
    scene.add(&mut table, node, value);

    table.clear_events();

    assert_eq!(table.events(), &[]);
}
