use std::collections::HashMap;
use std::collections::HashSet;

use pulse::ComponentEvent;
use pulse::ComponentTable;
use pulse::Node;
use pulse::NodeAllocator;
use pulse::Scene;

/// A small deterministic generator, so that every run makes the same calls.
struct Dice {
    state: u64,
}

impl Dice {
    fn new(seed: u64) -> Self {
        Self { state: seed }
    }

    fn roll(&mut self, sides: usize) -> usize {
        self.state = self
            .state
            .wrapping_mul(6364136223846793005)
            .wrapping_add(1442695040888963407);
        ((self.state >> 33) as usize) % sides
    }
}

/// The hierarchy written down in the plainest way.
struct Model {
    live: HashSet<Node>,
    parents: HashMap<Node, Node>,
    children: HashMap<Node, Vec<Node>>,
}

impl Model {
    fn new() -> Self {
        Self {
            live: HashSet::new(),
            parents: HashMap::new(),
            children: HashMap::new(),
        }
    }

    fn remove_parent(&mut self, node: Node) {
        if let Some(parent) = self.parents.remove(&node) {
            self.children.get_mut(&parent).unwrap().retain(|child| *child != node);
        }
    }

    fn set_parent(&mut self, node: Node, parent: Node) {
        if !self.live.contains(&node) || !self.live.contains(&parent) {
            return;
        }
        let mut cursor = Some(parent);
        while let Some(above) = cursor {
            if above == node {
                return;
            }
            cursor = self.parents.get(&above).copied();
        }
        self.remove_parent(node);
        self.parents.insert(node, parent);
        self.children.entry(parent).or_default().push(node);
    }

    fn despawn(&mut self, node: Node) -> Vec<Node> {
        if !self.live.contains(&node) {
            return Vec::new();
        }
        self.remove_parent(node);
        let mut removed = Vec::new();
        self.despawn_below(node, &mut removed);
        removed
    }

    fn despawn_below(&mut self, node: Node, removed: &mut Vec<Node>) {
        self.live.remove(&node);
        self.parents.remove(&node);
        removed.push(node);
        for child in self.children.remove(&node).unwrap_or_default() {
            self.despawn_below(child, removed);
        }
    }

    fn walk(&self, node: Node, order: &mut Vec<Node>) {
        order.push(node);
        for child in self.children.get(&node).map(Vec::as_slice).unwrap_or_default() {
            self.walk(*child, order);
        }
    }
}

fn assert_same(scene: &Scene, model: &Model, known: &[Node]) {
    for node in known {
        assert_eq!(scene.contains(*node), model.live.contains(node));
        assert_eq!(scene.get_parent(*node), model.parents.get(node).copied());
        assert_eq!(
            scene.get_children(*node),
            model.children.get(node).map(Vec::as_slice)
        );
    }
    let roots = scene.get_root_nodes();
    let mut sorted = roots.clone();
    sorted.sort();
    let mut expected: Vec<Node> = model
        .live
        .iter()
        .copied()
        .filter(|node| !model.parents.contains_key(node))
        .collect();
    expected.sort();
    assert_eq!(sorted, expected);
}

#[test]
fn hierarchy_follows_the_plain_model_through_many_calls() {
    let mut dice = Dice::new(7);
    let mut allocator = NodeAllocator::new();
    let mut scene = Scene::new();
    let mut model = Model::new();
    let mut known: Vec<Node> = Vec::new();

    for _ in 0..3000 {
        match dice.roll(8) {
            0 | 1 => {
                let node = scene.spawn(&mut allocator);
                assert!(!known.contains(&node));
                model.live.insert(node);
                known.push(node);
            }
            2 if !known.is_empty() => {
                let node = known[dice.roll(known.len())];
                let removed = scene.despawn(node);
                assert_eq!(removed, model.despawn(node));
            }
            3 if !known.is_empty() => {
                let node = known[dice.roll(known.len())];
                scene.remove_parent(node);
                model.remove_parent(node);
            }
            _ if !known.is_empty() => {
                let node = known[dice.roll(known.len())];
                let parent = known[dice.roll(known.len())];
                scene.set_parent(node, parent);
                model.set_parent(node, parent);
            }
            _ => {}
        }
        assert_same(&scene, &model, &known);
    }
}

#[test]
fn depth_first_follows_the_plain_model_from_the_roots_of_the_scene() {
    let mut dice = Dice::new(11);
    let mut allocator = NodeAllocator::new();
    let mut scene = Scene::new();
    let mut model = Model::new();
    let mut known: Vec<Node> = Vec::new();

    for round in 0..400 {
        if round % 3 == 0 || known.len() < 2 {
            let node = scene.spawn(&mut allocator);
            model.live.insert(node);
            known.push(node);
        } else {
            let node = known[dice.roll(known.len())];
            let parent = known[dice.roll(known.len())];
            scene.set_parent(node, parent);
            model.set_parent(node, parent);
        }

        let mut expected = Vec::new();
        for root in scene.get_root_nodes() {
            model.walk(root, &mut expected);
        }
        assert_eq!(scene.depth_first(), expected);
    }
}

#[test]
fn table_follows_a_plain_map_through_many_calls() {
    let mut dice = Dice::new(3);
    let mut allocator = NodeAllocator::new();
    let nodes: Vec<Node> = (0..40).map(|_| allocator.allocate()).collect();
    let mut table: ComponentTable<u32> = ComponentTable::new();
    let mut model: HashMap<Node, u32> = HashMap::new();
    let mut log: Vec<ComponentEvent> = Vec::new();

    for _ in 0..5000 {
        let node = nodes[dice.roll(nodes.len())];
        let value = dice.roll(4) as u32;
        match dice.roll(5) {
            0 => {
                table.add(node, value);
                if !model.contains_key(&node) {
                    model.insert(node, value);
                    log.push(ComponentEvent::Added(node));
                }
            }
            1 => {
                table.set(node, value);
                if let Some(stored) = model.get_mut(&node) {
                    if *stored != value {
                        *stored = value;
                        log.push(ComponentEvent::Modified(node));
                    }
                }
            }
            2 => {
                table.set_or_add(node, value);
                match model.insert(node, value) {
                    None => log.push(ComponentEvent::Added(node)),
                    Some(stored) if stored != value => log.push(ComponentEvent::Modified(node)),
                    Some(_) => {}
                }
            }
            3 => {
                table.remove(node);
                if model.remove(&node).is_some() {
                    log.push(ComponentEvent::Removed(node));
                }
            }
            _ => {
                if dice.roll(50) == 0 {
                    table.clear_events();
                    log.clear();
                }
            }
        }
        for node in &nodes {
            assert_eq!(table.get(*node), model.get(node));
            assert_eq!(table.contains(*node), model.contains_key(node));
        }
        assert_eq!(table.events(), log.as_slice());
    }
}
