use pulse::ComponentTable;
use pulse::Node;
use pulse::NodeAllocator;
use pulse::Scene;

fn sorted(mut nodes: Vec<Node>) -> Vec<Node> {
    nodes.sort();
    nodes
}

#[test]
fn new_scene_has_no_roots() {
    let scene = Scene::new();

    assert_eq!(scene.get_root_nodes(), vec![]);
    assert_eq!(scene.depth_first(), vec![]);
}

#[test]
fn despawn_cascade_removes_descendants_and_their_components() {
    let mut allocator = NodeAllocator::new();
    let mut scene = Scene::new();
    let mut numbers: ComponentTable<u32> = ComponentTable::new();
    let mut flags: ComponentTable<bool> = ComponentTable::new();
    let a = scene.spawn(&mut allocator);
    let b = scene.spawn(&mut allocator);
    let c = scene.spawn(&mut allocator);
    let other = scene.spawn(&mut allocator);
    scene.set_parent(b, a);
    scene.set_parent(c, b);
    scene.add(&mut numbers, a, 1);
    scene.add(&mut numbers, b, 2);
    scene.add(&mut numbers, c, 3);
    scene.add(&mut numbers, other, 4);
    scene.add(&mut flags, c, true);

    let removed = scene.despawn(a);
    numbers.remove_all(&removed);
    flags.remove_all(&removed);

    assert_eq!(sorted(removed), vec![a, b, c]);
    assert!(!scene.contains(a));
    assert!(!scene.contains(b));
    assert!(!scene.contains(c));
    assert!(scene.contains(other));
    assert_eq!(numbers.get(a), None);
    assert_eq!(numbers.get(b), None);
    assert_eq!(numbers.get(c), None);
    assert_eq!(numbers.get(other), Some(&4));
    assert_eq!(flags.get(c), None);
    assert_eq!(scene.get_parent(b), None);
    assert_eq!(scene.get_parent(c), None);
    assert_eq!(scene.get_children(a), None);
    assert_eq!(scene.get_children(b), None);
    assert_eq!(scene.get_root_nodes(), vec![other]);
}

#[test]
fn despawn_lists_the_removed_nodes_depth_first() {
    let mut allocator = NodeAllocator::new();
    let mut scene = Scene::new();
    let top = scene.spawn(&mut allocator);
    let a = scene.spawn(&mut allocator);
    let b = scene.spawn(&mut allocator);
    let c = scene.spawn(&mut allocator);
    let d = scene.spawn(&mut allocator);
    scene.set_parent(a, top);
    scene.set_parent(b, a);
    scene.set_parent(c, a);
    scene.set_parent(d, b);

    let removed = scene.despawn(a);

    assert_eq!(removed, vec![a, b, d, c]);
    assert_eq!(scene.get_children(top), Some([].as_slice()));
    assert_eq!(scene.get_root_nodes(), vec![top]);
}

#[test]
fn despawn_logs_the_removed_components_in_the_order_of_the_walk() {
    let mut allocator = NodeAllocator::new();
    let mut scene = Scene::new();
    let mut table: ComponentTable<u32> = ComponentTable::new();
    let a = scene.spawn(&mut allocator);
    let b = scene.spawn(&mut allocator);
    let c = scene.spawn(&mut allocator);
    scene.set_parent(b, a);
    scene.set_parent(c, a);
    scene.add(&mut table, c, 3);
    scene.add(&mut table, a, 1);
    table.clear_events();

    let removed = scene.despawn(a);
    table.remove_all(&removed);

    assert_eq!(
        table.events(),
        &[pulse::ComponentEvent::Removed(a), pulse::ComponentEvent::Removed(c)]
    );
}

#[test]
fn despawn_detaches_the_node_from_its_parent() {
    let mut allocator = NodeAllocator::new();
    let mut scene = Scene::new();
    let parent = scene.spawn(&mut allocator);
    let first = scene.spawn(&mut allocator);
    let second = scene.spawn(&mut allocator);
    scene.set_parent(first, parent);
    scene.set_parent(second, parent);

    let removed = scene.despawn(first);

    assert_eq!(removed, vec![first]);
    assert_eq!(scene.get_children(parent), Some([second].as_slice()));
    assert!(scene.contains(parent));
    assert!(scene.contains(second));
}

#[test]
fn despawn_of_a_dead_node_changes_nothing() {
    let mut allocator = NodeAllocator::new();
    let mut scene = Scene::new();
    let parent = scene.spawn(&mut allocator);
    let node = scene.spawn(&mut allocator);
    let dead = scene.spawn(&mut allocator);
    scene.set_parent(node, parent);
    scene.despawn(dead);

    let removed = scene.despawn(dead);

    assert_eq!(removed, vec![]);
    assert!(scene.contains(parent));
    assert!(scene.contains(node));
    assert_eq!(scene.get_parent(node), Some(parent));
}

#[test]
fn set_parent_refuses_a_cycle() {
    let mut allocator = NodeAllocator::new();
    let mut scene = Scene::new();
    let a = scene.spawn(&mut allocator);
    let b = scene.spawn(&mut allocator);
    scene.set_parent(b, a);

    scene.set_parent(a, b);
    assert_eq!(scene.get_parent(a), None);

    scene.set_parent(b, b);
    assert_eq!(scene.get_parent(b), Some(a));
    assert_eq!(scene.get_children(a), Some([b].as_slice()));
    assert_eq!(scene.get_children(b), None);
}

#[test]
fn set_parent_refuses_a_cycle_through_a_long_chain() {
    let mut allocator = NodeAllocator::new();
    let mut scene = Scene::new();
    let a = scene.spawn(&mut allocator);
    let b = scene.spawn(&mut allocator);
    let c = scene.spawn(&mut allocator);
    let d = scene.spawn(&mut allocator);
    scene.set_parent(b, a);
    scene.set_parent(c, b);
    scene.set_parent(d, c);

    scene.set_parent(a, d);

    assert_eq!(scene.get_parent(a), None);
    assert_eq!(scene.get_parent(d), Some(c));
    assert_eq!(scene.get_children(d), None);
    assert_eq!(scene.get_root_nodes(), vec![a]);
}

#[test]
fn set_parent_with_a_dead_node_changes_nothing() {
    let mut allocator = NodeAllocator::new();
    let mut scene = Scene::new();
    let parent = scene.spawn(&mut allocator);
    let dead = scene.spawn(&mut allocator);
    scene.despawn(dead);

    scene.set_parent(dead, parent);

    assert_eq!(scene.get_parent(dead), None);
    assert_eq!(scene.get_children(parent), None);
}

#[test]
fn set_parent_appends_children_in_order() {
    let mut allocator = NodeAllocator::new();
    let mut scene = Scene::new();
    let parent = scene.spawn(&mut allocator);
    let first = scene.spawn(&mut allocator);
    let second = scene.spawn(&mut allocator);
    let third = scene.spawn(&mut allocator);

    scene.set_parent(second, parent);
    scene.set_parent(first, parent);
    scene.set_parent(third, parent);

    assert_eq!(scene.get_children(parent), Some([second, first, third].as_slice()));
}

#[test]
fn set_parent_again_moves_the_node_to_the_end() {
    let mut allocator = NodeAllocator::new();
    let mut scene = Scene::new();
    let parent = scene.spawn(&mut allocator);
    let first = scene.spawn(&mut allocator);
    let second = scene.spawn(&mut allocator);
    scene.set_parent(first, parent);
    scene.set_parent(second, parent);

    scene.set_parent(first, parent);

    assert_eq!(scene.get_children(parent), Some([second, first].as_slice()));
    assert_eq!(scene.get_parent(first), Some(parent));
}

#[test]
fn set_parent_moves_the_node_between_parents() {
    let mut allocator = NodeAllocator::new();
    let mut scene = Scene::new();
    let old_parent = scene.spawn(&mut allocator);
    let new_parent = scene.spawn(&mut allocator);
    let node = scene.spawn(&mut allocator);
    scene.set_parent(node, old_parent);

    scene.set_parent(node, new_parent);

    assert_eq!(scene.get_parent(node), Some(new_parent));
    assert_eq!(scene.get_children(old_parent), Some([].as_slice()));
    assert_eq!(scene.get_children(new_parent), Some([node].as_slice()));
}

#[test]
fn remove_parent_leaves_an_empty_child_list() {
    let mut allocator = NodeAllocator::new();
    let mut scene = Scene::new();
    let parent = scene.spawn(&mut allocator);
    let node = scene.spawn(&mut allocator);
    scene.set_parent(node, parent);

    scene.remove_parent(node);

    assert_eq!(scene.get_children(parent), Some([].as_slice()));
    assert_eq!(sorted(scene.get_root_nodes()), vec![parent, node]);
}

#[test]
fn remove_parent_of_a_root_changes_nothing() {
    let mut allocator = NodeAllocator::new();
    let mut scene = Scene::new();
    let parent = scene.spawn(&mut allocator);
    let node = scene.spawn(&mut allocator);
    scene.set_parent(node, parent);

    scene.remove_parent(parent);

    assert_eq!(scene.get_parent(node), Some(parent));
    assert_eq!(scene.get_children(parent), Some([node].as_slice()));
}

#[test]
fn remove_parent_keeps_the_order_of_the_siblings() {
    let mut allocator = NodeAllocator::new();
    let mut scene = Scene::new();
    let parent = scene.spawn(&mut allocator);
    let first = scene.spawn(&mut allocator);
    let second = scene.spawn(&mut allocator);
    let third = scene.spawn(&mut allocator);
    scene.set_parent(first, parent);
    scene.set_parent(second, parent);
    scene.set_parent(third, parent);

    scene.remove_parent(second);

    assert_eq!(scene.get_children(parent), Some([first, third].as_slice()));
}

#[test]
fn get_root_nodes_lists_the_live_nodes_without_parent() {
    let mut allocator = NodeAllocator::new();
    let mut scene = Scene::new();
    let a = scene.spawn(&mut allocator);
    let b = scene.spawn(&mut allocator);
    let c = scene.spawn(&mut allocator);
    let d = scene.spawn(&mut allocator);
    scene.set_parent(b, a);
    scene.despawn(d);

    assert_eq!(sorted(scene.get_root_nodes()), vec![a, c]);
}

#[test]
fn depth_first_lists_parents_before_children_and_siblings_in_order() {
    let mut allocator = NodeAllocator::new();
    let mut scene = Scene::new();
    let root = scene.spawn(&mut allocator);
    let left = scene.spawn(&mut allocator);
    let right = scene.spawn(&mut allocator);
    let left_child = scene.spawn(&mut allocator);
    scene.set_parent(left, root);
    scene.set_parent(right, root);
    scene.set_parent(left_child, left);

    assert_eq!(scene.depth_first(), vec![root, left, left_child, right]);
}

#[test]
fn depth_first_covers_every_tree() {
    let mut allocator = NodeAllocator::new();
    let mut scene = Scene::new();
    let a = scene.spawn(&mut allocator);
    let b = scene.spawn(&mut allocator);
    let c = scene.spawn(&mut allocator);
    let d = scene.spawn(&mut allocator);
    scene.set_parent(b, a);
    scene.set_parent(d, c);

    let order = scene.depth_first();

    assert_eq!(sorted(order.clone()), vec![a, b, c, d]);
    let position = |node: Node| order.iter().position(|other| *other == node).unwrap();
    assert!(position(a) < position(b));
    assert!(position(c) < position(d));
}
