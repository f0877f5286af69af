use pulse::Node;
use pulse::NodeAllocator;
use pulse::Scene;

#[test]
fn allocator_new_is_not_exhausted() {
    let allocator = NodeAllocator::new();

    assert!(!allocator.is_exhausted());
}

#[test]
fn allocate_returns_distinct_increasing_nodes() {
    let mut allocator = NodeAllocator::new();

    let first = allocator.allocate();
    let second = allocator.allocate();
    let third = allocator.allocate();

    assert_ne!(first, second);
    assert_ne!(second, third);
    assert_ne!(first, third);
    assert!(first < second);
    assert!(second < third);
}

#[test]
fn node_new_takes_the_next_identity() {
    let mut allocator = NodeAllocator::new();
    let mut twin = NodeAllocator::new();

    let first = Node::new(&mut allocator);
    let second = Node::new(&mut allocator);

    assert_eq!(first, twin.allocate());
    assert_eq!(second, twin.allocate());
    assert!(first < second);
}

#[test]
fn node_is_a_copyable_hashable_key() {
    let mut allocator = NodeAllocator::new();
    let node = allocator.allocate();
    let copy = node;
    let mut set = std::collections::HashSet::new();

    set.insert(node);

    assert!(set.contains(&copy));
    assert_eq!(format!("{:?}", node), format!("{:?}", copy));
}

#[test]
fn spawn_never_repeats_a_node() {
    let mut allocator = NodeAllocator::new();
    let mut scene = Scene::new();
    let mut seen = Vec::new();

    for _ in 0..50 {
        let node = scene.spawn(&mut allocator);
        assert!(!seen.contains(&node));
        seen.push(node);
    }
}

#[test]
fn spawn_after_despawn_returns_a_new_node() {
    let mut allocator = NodeAllocator::new();
    let mut scene = Scene::new();
    let first = scene.spawn(&mut allocator);
    scene.despawn(first);

    let second = scene.spawn(&mut allocator);

    assert_ne!(first, second);
    assert!(first < second);
    assert!(!scene.contains(first));
    assert!(scene.contains(second));
}

#[test]
fn scenes_that_share_an_allocator_share_no_node() {
    let mut allocator = NodeAllocator::new();
    let mut left = Scene::new();
    let mut right = Scene::new();

    let a = left.spawn(&mut allocator);
    let b = right.spawn(&mut allocator);

    assert_ne!(a, b);
    assert!(left.contains(a));
    assert!(!left.contains(b));
    assert!(right.contains(b));
    assert!(!right.contains(a));
}
