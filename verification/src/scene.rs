//! The scene: the live nodes and the hierarchy over them.

use crate::graph::SceneView;
use crate::index::map_get;
use crate::index::map_insert;
use crate::index::map_remove;
use crate::index::set_contains;
use crate::index::set_insert;
use crate::index::set_members;
use crate::index::set_remove;
use crate::node::Node;
use crate::node::NodeAllocator;
use crate::sequences::lemma_concat_contains;
use crate::sequences::lemma_drop_last_contains;
use crate::sequences::lemma_push_contains;
use crate::sequences::lemma_reverse_contains;
use crate::sequences::push_reversed;
use crate::table::Component;
use crate::table::ComponentTable;
use crate::table::TableView;
use nohash::IntMap;
use nohash::IntSet;
use vstd::prelude::*;
use vstd::std_specs::cmp::PartialEqSpec;

verus! {

broadcast use {Node::lemma_id_injective, Node::lemma_with_id, Node::lemma_id_with_id};

/// A graph of nodes: which nodes are alive, and the parent and the ordered
/// children of each.
pub struct Scene {
    nodes: IntSet<usize>,
    parents: IntMap<usize, Node>,
    children: IntMap<usize, Vec<Node>>,
}

impl View for Scene {
    type V = SceneView;

    closed spec fn view(&self) -> SceneView {
        SceneView {
            nodes: Set::new(|node: Node| self.nodes@.contains(node.id())),
            parents: Map::new(
                |node: Node| self.parents@.contains_key(node.id()),
                |node: Node| self.parents@[node.id()],
            ),
            children: Map::new(
                |node: Node| self.children@.contains_key(node.id()),
                |node: Node| self.children@[node.id()]@,
            ),
        }
    }
}

/// Whether every component of `table` belongs to a live node of `graph`.
pub open spec fn only_live<T>(graph: SceneView, table: TableView<T>) -> bool {
    forall|node: Node| table.components.contains_key(node) ==> graph.nodes.contains(node)
}

/// The state of a despawn of `node` under way: `removed` lists what is gone,
/// `pending` is the stack of nodes whose turn is still to come, top last.
/// Together they hold `node`, hold nothing twice and nothing that is not below
/// `node`; what is gone has all its children gone or pending; and what is gone,
/// followed by the walks of the pending subtrees from the top of the stack
/// down, is the walk of the subtree of `node`.
spec fn despawning(before: SceneView, node: Node, removed: Seq<Node>, pending: Seq<Node>) -> bool {
    let graph = before.remove_parent(node);
    &&& before.wf()
    &&& graph.wf()
    &&& before.nodes.contains(node)
    &&& removed.no_duplicates()
    &&& pending.no_duplicates()
    &&& forall|other: Node| !(removed.contains(other) && pending.contains(other))
    &&& removed.contains(node) || pending.contains(node)
    &&& forall|other: Node|
        removed.contains(other) || pending.contains(other) ==> before.reaches(other, node)
    &&& forall|other: Node|
        removed.contains(other) || pending.contains(other) ==> parent_gone(
            graph,
            node,
            removed,
            other,
        )
    &&& forall|child: Node|
        #![trigger graph.parents.contains_key(child)]
        graph.parents.contains_key(child) && removed.contains(graph.parents[child])
            ==> removed.contains(child) || pending.contains(child)
    &&& removed + graph.preorder_all(pending.reverse()) == graph.preorder(node)
}

/// Whether `other` is the top node `node` of a despawn or a node whose parent
/// is gone.
#[verifier::opaque]
spec fn parent_gone(graph: SceneView, node: Node, removed: Seq<Node>, other: Node) -> bool {
    other == node || (graph.parents.contains_key(other) && removed.contains(graph.parents[other]))
}

/// A despawn starts with nothing gone and `node` pending.
proof fn lemma_despawn_starts(before: SceneView, node: Node)
    requires
        before.wf(),
        before.nodes.contains(node),
    ensures
        despawning(before, node, Seq::empty(), seq![node]),
{
    let graph = before.remove_parent(node);
    let pending = seq![node];
    before.lemma_remove_parent_wf(node);
    before.lemma_reaches_self(node);
    assert(pending[0] == node);
    assert(pending.reverse() =~= seq![node]);
    graph.lemma_preorder_all_single(node);
    assert(Seq::<Node>::empty() + graph.preorder(node) =~= graph.preorder(node));
    assert forall|other: Node| pending.contains(other) implies other == node by {
        let at = choose|at: int| 0 <= at < pending.len() && pending[at] == other;
        assert(pending[at] == node);
    }
    reveal(parent_gone);
}

/// A despawn goes on: the node on top of the stack is alive and not yet gone;
/// once it is gone and its children have taken its place on the stack, last
/// child first, the despawn is under way as before, with one more node gone.
proof fn lemma_despawn_continues(
    before: SceneView,
    node: Node,
    removed: Seq<Node>,
    pending: Seq<Node>,
)
    requires
        despawning(before, node, removed, pending),
        pending.len() > 0,
    ensures
        before.remove_parent(node).nodes.contains(pending.last()),
        !removed.contains(pending.last()),
        removed.len() < before.remove_parent(node).nodes.len(),
        despawning(
            before,
            node,
            removed.push(pending.last()),
            pending.drop_last() + before.remove_parent(node).children_of(pending.last()).reverse(),
        ),
{
    let graph = before.remove_parent(node);
    let current = pending.last();
    let rest = pending.drop_last();
    let below = graph.children_of(current);
    let gone = removed.push(current);
    let stack = rest + below.reverse();
    lemma_drop_last_contains(pending);
    lemma_push_contains(removed, current);
    lemma_reverse_contains(below);
    lemma_concat_contains(rest, below.reverse());
    assert(pending.contains(current));
    Scene::lemma_below_is_alive(before, node, current);
    assert(!graph.parents.contains_key(node));
    // The children of `current` are below `node`, and neither gone nor pending.
    assert forall|child: Node| below.contains(child) implies {
        &&& graph.parents.contains_key(child)
        &&& graph.parents[child] == current
        &&& before.reaches(child, node)
        &&& !rest.contains(child)
        &&& !gone.contains(child)
    } by {
        let at = choose|at: int| 0 <= at < below.len() && below[at] == child;
        assert(graph.parents.contains_key(graph.children[current][at]));
        assert(before.parents[child] == current);
        before.lemma_reaches_step(child, node);
        graph.lemma_parent_not_below(child);
        graph.lemma_reaches_self(child);
        if removed.contains(child) || pending.contains(child) {
            assert(parent_gone(graph, node, removed, child));
            reveal(parent_gone);
        }
    }
    assert forall|other: Node| gone.contains(other) || stack.contains(other) implies parent_gone(
        graph,
        node,
        gone,
        other,
    ) by {
        reveal(parent_gone);
        if removed.contains(other) || pending.contains(other) {
            assert(parent_gone(graph, node, removed, other));
        }
    }
    assert forall|child: Node|
        #![trigger graph.parents.contains_key(child)]
        graph.parents.contains_key(child) && gone.contains(graph.parents[child]) implies gone.contains(
        child,
    ) || stack.contains(child) by {
        if graph.parents[child] == current {
            let at = graph.children[current].index_of(child);
            assert(graph.children[current].contains(child));
            assert(below[at] == child);
        }
    }
    // The nodes that are gone are distinct live nodes of the graph.
    gone.unique_seq_to_set();
    assert(gone.to_set().subset_of(graph.nodes)) by {
        assert forall|other: Node| gone.to_set().contains(other) implies graph.nodes.contains(
            other,
        ) by {
            Scene::lemma_below_is_alive(before, node, other);
        }
    }
    vstd::set_lib::lemma_len_subset(gone.to_set(), graph.nodes);
    assert(pending == rest.push(current));
    graph.lemma_walk_step(removed, rest, current);
}

/// A despawn ends when nothing is pending: what is gone is then the subtree of
/// `node`, in the order of its depth-first walk.
proof fn lemma_despawn_ends(before: SceneView, node: Node, removed: Seq<Node>)
    requires
        despawning(before, node, removed, Seq::empty()),
    ensures
        removed == before.remove_parent(node).preorder(node),
        removed.to_set() == before.subtree(node),
        forall|gone: Node| removed.contains(gone) <==> before.reaches(gone, node),
{
    let graph = before.remove_parent(node);
    let pending = Seq::<Node>::empty();
    assert(pending.reverse() =~= Seq::<Node>::empty());
    assert(removed + Seq::<Node>::empty() =~= removed);
    assert(!pending.contains(node));
    assert forall|gone: Node| removed.contains(gone) <==> before.reaches(gone, node) by {
        if before.reaches(gone, node) {
            let steps = choose|steps: nat| before.ancestor(gone, steps) == Some(node);
            assert forall|child: Node|
                child != node && #[trigger] before.parents.contains_key(child)
                    && removed.to_set().contains(
                    before.parents[child],
                ) implies removed.to_set().contains(child) by {
                assert(graph.parents.contains_key(child));
                assert(graph.parents[child] == before.parents[child]);
                assert(!pending.contains(child));
            }
            before.lemma_closed_under_children(node, removed.to_set(), gone, steps);
        }
    }
    assert(removed.to_set() =~= before.subtree(node));
}

impl Scene {
    /// The invariant of a scene: that of its graph.
    pub open spec fn wf(&self) -> bool {
        self@.wf()
    }

    /// An empty scene.
    pub fn new() -> (scene: Scene)
        ensures
            scene.wf(),
            scene@ == SceneView::empty(),
    {
        let scene = Scene {
            nodes: IntSet::default(),
            parents: IntMap::default(),
            children: IntMap::default(),
        };
        proof {
            assert(scene@.nodes =~= Set::<Node>::empty());
            assert(scene@.parents =~= Map::<Node, Node>::empty());
            assert(scene@.children =~= Map::<Node, Seq<Node>>::empty());
            SceneView::lemma_empty_wf();
        }
        scene
    }

    /// Whether `node` is alive in this scene.
    pub fn contains(&self, node: Node) -> (alive: bool)
        ensures
            alive == self@.nodes.contains(node),
    {
        set_contains(&self.nodes, node.key())
    }

    /// Takes a fresh identity from `allocator` and makes it a live node.
    ///
    /// Where the allocator has issued every node of this scene, the new node
    /// was not alive before and is a root without children.
    pub fn spawn(&mut self, allocator: &mut NodeAllocator) -> (node: Node)
        requires
            old(self).wf(),
            !old(allocator).exhausted(),
        ensures
            final(self).wf(),
            old(allocator).allocates(final(allocator), node),
            final(self)@ == old(self)@.spawn(node),
            old(self)@.issued_by(old(allocator)) ==> {
                &&& !old(self)@.nodes.contains(node)
                &&& final(self)@.is_root(node)
                &&& !final(self)@.children.contains_key(node)
                &&& final(self)@.issued_by(final(allocator))
            },
    {
        let node = allocator.allocate();
        let _ = set_insert(&mut self.nodes, node.key());
        proof {
            assert(self@.nodes =~= old(self)@.nodes.insert(node));
            assert(self@.parents =~= old(self)@.parents);
            assert(self@.children =~= old(self)@.children);
            old(self)@.lemma_spawn_wf(node);
        }
        node
    }

    /// The parent of `node`, if it has one.
    pub fn get_parent(&self, node: Node) -> (parent: Option<Node>)
        ensures
            parent == self@.parents.get(node),
    {
        match map_get(&self.parents, node.key()) {
            Some(parent) => Some(*parent),
            None => None,
        }
    }

    /// The recorded children of `node`, in the order in which they were
    /// attached.  A node that never had a child has no record; one that lost
    /// all its children has an empty one.
    pub fn get_children(&self, node: Node) -> (children: Option<&[Node]>)
        ensures
            match children {
                Some(list) => self@.children.contains_key(node) && list@ == self@.children[node],
                None => !self@.children.contains_key(node),
            },
    {
        match map_get(&self.children, node.key()) {
            Some(list) => Some(list.as_slice()),
            None => None,
        }
    }

    /// Detaches `node` from its parent, making it a root.  Nothing happens if
    /// it has no parent.
    pub fn remove_parent(&mut self, node: Node)
        requires
            old(self).wf(),
        ensures
            final(self).wf(),
            final(self)@ == old(self)@.remove_parent(node),
    {
        match map_remove(&mut self.parents, node.key()) {
            Some(parent) => {
                match map_remove(&mut self.children, parent.key()) {
                    Some(list) => {
                        let mut list = list;
                        let ghost before = list@;
                        proof {
                            assert(old(self)@.parents.contains_key(node));
                            assert(old(self)@.children[parent] == before);
                            assert(before.contains(node));
                        }
                        let mut i: usize = 0;
                        while i < list.len() && list[i] != node
                            invariant
                                list@ == before,
                                i <= list@.len(),
                                forall|j: int| 0 <= j < i ==> list@[j] != node,
                            decreases list@.len() - i,
                        {
                            i += 1;
                        }
                        proof {
                            assert(before.no_duplicates());
                            assert(i < before.len());
                            assert(before.index_of(node) == i);
                        }
                        let _ = list.remove(i);
                        let _ = map_insert(&mut self.children, parent.key(), list);
                    },
                    None => {},
                }
                proof {
                    assert(self@.nodes =~= old(self)@.remove_parent(node).nodes);
                    assert(self@.parents =~= old(self)@.remove_parent(node).parents);
                    assert(self@.children =~= old(self)@.remove_parent(node).children);
                }
            },
            None => {
                proof {
                    assert(self@.nodes =~= old(self)@.nodes);
                    assert(self@.parents =~= old(self)@.parents);
                    assert(self@.children =~= old(self)@.children);
                }
            },
        }
        proof {
            old(self)@.lemma_remove_parent_wf(node);
        }
    }

    /// Makes `parent` the parent of `node`.
    ///
    /// Nothing happens unless both are alive, nor if `node` is `parent` or lies
    /// above it: the hierarchy never gets a cycle.  Otherwise `node` leaves its
    /// previous parent, if any, and becomes the last child of `parent`.
    pub fn set_parent(&mut self, node: Node, parent: Node)
        requires
            old(self).wf(),
        ensures
            final(self).wf(),
            final(self)@ == old(self)@.set_parent(node, parent),
    {
        if !self.contains(node) || !self.contains(parent) {
            return ;
        }
        let ghost graph = self@;
        let ghost rank = choose|rank: spec_fn(Node) -> nat| graph.ranked(rank);
        let mut cursor: Node = parent;
        let ghost mut steps: nat = 0;
        loop
            invariant
                self == old(self),
                graph == self@,
                graph.wf(),
                graph.ranked(rank),
                graph.ancestor(parent, steps) == Some(cursor),
                forall|fewer: nat| fewer < steps ==> graph.ancestor(parent, fewer) != Some(node),
            ensures
                !graph.reaches(parent, node),
            decreases rank(cursor),
        {
            if cursor == node {
                proof {
                    assert(graph.reaches(parent, node));
                }
                return ;
            }
            match map_get(&self.parents, cursor.key()) {
                Some(above) => {
                    proof {
                        assert(graph.parents.contains_key(cursor));
                        graph.lemma_ancestor_add(parent, steps, 1);
                        assert(graph.ancestor(cursor, 1) == graph.ancestor(*above, 0));
                        steps = steps + 1;
                    }
                    cursor = *above;
                },
                None => {
                    proof {
                        assert(!graph.parents.contains_key(cursor));
                        assert forall|more: nat| graph.ancestor(parent, more) != Some(node) by {
                            if more > steps {
                                graph.lemma_ancestor_add(parent, steps, 1);
                                assert(graph.ancestor(cursor, 1) is None);
                                graph.lemma_ancestor_ends(parent, steps + 1, more);
                            }
                        }
                    }
                    break ;
                },
            }
        }
        self.remove_parent(node);
        let _ = map_insert(&mut self.parents, node.key(), parent);
        let mut siblings: Vec<Node> = match map_remove(&mut self.children, parent.key()) {
            Some(list) => list,
            None => Vec::new(),
        };
        siblings.push(node);
        let _ = map_insert(&mut self.children, parent.key(), siblings);
        proof {
            assert(self@.nodes =~= graph.set_parent(node, parent).nodes);
            assert(self@.parents =~= graph.set_parent(node, parent).parents);
            assert(self@.children =~= graph.set_parent(node, parent).children);
            graph.lemma_set_parent_wf(node, parent);
        }
    }

    /// Removes `node` and everything below it from the scene.
    ///
    /// Nothing happens if `node` is not alive.  Otherwise `node` leaves its
    /// parent's child list, and `node` and all its descendants stop being alive
    /// and lose their parent entries and child lists: no edge is left that names
    /// one of them.  The result lists the nodes that were removed, each once, in
    /// the order of a depth-first walk from `node` down, so that their
    /// components can be removed too.
    pub fn despawn(&mut self, node: Node) -> (removed: Vec<Node>)
        requires
            old(self).wf(),
        ensures
            final(self).wf(),
            final(self)@ == old(self)@.despawn(node),
            removed@.no_duplicates(),
            forall|gone: Node|
                removed@.contains(gone) <==> old(self)@.nodes.contains(node) && old(self)@.reaches(
                    gone,
                    node,
                ),
            removed@ == (if old(self)@.nodes.contains(node) {
                old(self)@.preorder(node)
            } else {
                Seq::empty()
            }),
    {
        let mut removed: Vec<Node> = Vec::new();
        if !self.contains(node) {
            return removed;
        }
        let ghost before = self@;
        self.remove_parent(node);
        let ghost graph = self@;
        let mut pending: Vec<Node> = Vec::new();
        pending.push(node);
        proof {
            lemma_despawn_starts(before, node);
            assert(pending@ == seq![node]);
            assert(self@.nodes =~= graph.nodes.difference(removed@.to_set()));
            assert(self@.parents =~= graph.parents.remove_keys(removed@.to_set()));
            assert(self@.children =~= graph.children.remove_keys(removed@.to_set()));
        }
        while pending.len() > 0
            invariant
                graph == before.remove_parent(node),
                despawning(before, node, removed@, pending@),
                self@.nodes == graph.nodes.difference(removed@.to_set()),
                self@.parents == graph.parents.remove_keys(removed@.to_set()),
                self@.children == graph.children.remove_keys(removed@.to_set()),
            decreases graph.nodes.len() - removed@.len(),
        {
            let ghost removed_before = removed@;
            let ghost pending_before = pending@;
            let ghost scene_before = self@;
            let current: Node = pending.pop().unwrap();
            proof {
                lemma_despawn_continues(before, node, removed_before, pending_before);
                assert(scene_before.children.contains_key(current) <==> graph.children.contains_key(
                    current,
                ));
                assert(scene_before.children.contains_key(current) ==> scene_before.children[current]
                    == graph.children[current]);
            }
            let _ = set_remove(&mut self.nodes, current.key());
            let _ = map_remove(&mut self.parents, current.key());
            let below = map_remove(&mut self.children, current.key());
            removed.push(current);
            proof {
                lemma_push_contains(removed_before, current);
                assert(removed@.to_set() =~= removed_before.to_set().insert(current));
                assert(self@.nodes =~= scene_before.nodes.remove(current));
                assert(self@.parents =~= scene_before.parents.remove(current));
                assert(self@.children =~= scene_before.children.remove(current));
                assert(self@.nodes =~= graph.nodes.difference(removed@.to_set()));
                assert(self@.parents =~= graph.parents.remove_keys(removed@.to_set()));
                assert(self@.children =~= graph.children.remove_keys(removed@.to_set()));
            }
            match below {
                Some(list) => {
                    push_reversed(&mut pending, list.as_slice());
                    proof {
                        assert(list@ == graph.children_of(current));
                    }
                },
                None => {
                    proof {
                        assert(graph.children_of(current).reverse() =~= Seq::<Node>::empty());
                        assert(pending@ + Seq::<Node>::empty() =~= pending@);
                    }
                },
            }
        }
        proof {
            assert(pending@ =~= Seq::<Node>::empty());
            lemma_despawn_ends(before, node, removed@);
            before.lemma_preorder_detached(node);
            before.lemma_despawn_wf(node);
        }
        removed
    }

    /// Gives the live node `node` the component `value` in `table`, unless it
    /// already has one there.  Nothing happens if `node` is not alive.
    pub fn add<T: Component>(&self, table: &mut ComponentTable<T>, node: Node, value: T)
        requires
            old(table).wf(),
        ensures
            final(table).wf(),
            final(table)@ == (if self@.nodes.contains(node) {
                old(table)@.add(node, value)
            } else {
                old(table)@
            }),
            only_live(self@, old(table)@) ==> only_live(self@, final(table)@),
    {
        if self.contains(node) {
            table.add(node, value);
        }
    }

    /// The component that the live node `node` has in `table`; `None` if it has
    /// none there or is not alive.
    pub fn get<'a, T: Component>(
        &self,
        table: &'a ComponentTable<T>,
        node: Node,
    ) -> (value: Option<&'a T>)
        requires
            table.wf(),
        ensures
            value == (if self@.nodes.contains(node) && table@.components.contains_key(node) {
                Some(&table@.components[node])
            } else {
                None
            }),
    {
        if self.contains(node) {
            table.get(node)
        } else {
            None
        }
    }

    /// Overwrites the component that the live node `node` has in `table`, if
    /// `value` compares different from it.  Nothing happens if `node` has no
    /// component there or is not alive.
    pub fn set<T: Component>(&self, table: &mut ComponentTable<T>, node: Node, value: T)
        requires
            old(table).wf(),
        ensures
            final(table).wf(),
            !self@.nodes.contains(node) ==> final(table)@ == old(table)@,
            self@.nodes.contains(node) ==> exists|differs: bool|
                {
                    &&& #[trigger] final(table)@ == old(table)@.set(node, value, differs)
                    &&& T::obeys_eq_spec() && old(table)@.components.contains_key(node) ==> differs
                        == !old(table)@.components[node].eq_spec(&value)
                },
    {
        if self.contains(node) {
            table.set(node, value);
        }
    }

    /// Inserts or updates the component of the live node `node` in `table`.
    /// Nothing happens if `node` is not alive.
    pub fn set_or_add<T: Component>(&self, table: &mut ComponentTable<T>, node: Node, value: T)
        requires
            old(table).wf(),
        ensures
            final(table).wf(),
            !self@.nodes.contains(node) ==> final(table)@ == old(table)@,
            self@.nodes.contains(node) && !old(table)@.components.contains_key(node)
                ==> final(table)@ == old(table)@.add(node, value),
            self@.nodes.contains(node) && old(table)@.components.contains_key(node)
                ==> exists|differs: bool|
                {
                    &&& #[trigger] final(table)@ == old(table)@.set(node, value, differs)
                    &&& T::obeys_eq_spec() ==> differs == !old(table)@.components[node].eq_spec(
                        &value,
                    )
                },
            only_live(self@, old(table)@) ==> only_live(self@, final(table)@),
    {
        if self.contains(node) {
            table.set_or_add(node, value);
        }
    }

    /// Takes away the component that the live node `node` has in `table`.
    /// Nothing happens if `node` has none there or is not alive.
    pub fn remove<T: Component>(&self, table: &mut ComponentTable<T>, node: Node)
        requires
            old(table).wf(),
        ensures
            final(table).wf(),
            final(table)@ == (if self@.nodes.contains(node) {
                old(table)@.remove(node)
            } else {
                old(table)@
            }),
    {
        if self.contains(node) {
            table.remove(node);
        }
    }

    /// Components follow a despawn: if every component of a table belonged to
    /// a live node, and the table drops the nodes that `despawn(node)` removed,
    /// then every component of the table still belongs to a live node; nothing
    /// below `node` has a component left, and every other component stays.
    pub proof fn lemma_despawn_clears_components<T: Component>(
        graph: SceneView,
        table: TableView<T>,
        node: Node,
        removed: Seq<Node>,
    )
        requires
            graph.wf(),
            only_live(graph, table),
            forall|gone: Node|
                removed.contains(gone) <==> graph.nodes.contains(node) && graph.reaches(gone, node),
        ensures
            only_live(graph.despawn(node), table.remove_all(removed)),
            forall|gone: Node|
                graph.nodes.contains(node) && graph.reaches(gone, node) ==> !table.remove_all(
                    removed,
                ).components.contains_key(gone),
            forall|other: Node|
                !removed.contains(other) ==> table.remove_all(removed).components.get(other)
                    == table.components.get(other),
    {
        table.lemma_remove_all(removed);
        if graph.nodes.contains(node) {
            assert(removed.to_set() =~= graph.subtree(node));
        } else {
            assert(removed.to_set() =~= Set::<Node>::empty());
        }
    }

    /// Everything below a live node is alive.
    proof fn lemma_below_is_alive(graph: SceneView, node: Node, below: Node)
        requires
            graph.wf(),
            graph.nodes.contains(node),
            graph.reaches(below, node),
        ensures
            graph.nodes.contains(below),
            graph.remove_parent(node).nodes.contains(below),
    {
        if below != node {
            graph.lemma_reaches_step(below, node);
        }
    }

    /// The roots: every live node without a parent, each once.  The order is
    /// that in which the scene enumerates its live nodes.
    pub fn get_root_nodes(&self) -> (roots: Vec<Node>)
        ensures
            roots@.no_duplicates(),
            forall|node: Node| roots@.contains(node) <==> self@.is_root(node),
    {
        let keys = set_members(&self.nodes);
        let mut roots: Vec<Node> = Vec::new();
        let mut i: usize = 0;
        while i < keys.len()
            invariant
                i <= keys@.len(),
                keys@.no_duplicates(),
                forall|key: usize| keys@.contains(key) <==> self.nodes@.contains(key),
                roots@.no_duplicates(),
                forall|node: Node|
                    roots@.contains(node) <==> self@.is_root(node) && exists|j: int|
                        0 <= j < i && keys@[j] == node.id(),
            decreases keys@.len() - i,
        {
            let key: usize = keys[i];
            let node = Node::from_key(key);
            if map_get(&self.parents, key).is_none() {
                let ghost before = roots@;
                roots.push(node);
                proof {
                    assert(keys@.contains(key));
                    assert forall|other: Node| roots@.contains(other) <==> self@.is_root(other)
                        && exists|j: int| 0 <= j < i + 1 && keys@[j] == other.id() by {
                        if roots@.contains(other) {
                            let at = choose|at: int| 0 <= at < roots@.len() && roots@[at] == other;
                            if at < before.len() {
                                assert(before.contains(other));
                            } else {
                                assert(keys@[i as int] == other.id());
                            }
                        }
                        if self@.is_root(other) && exists|j: int|
                            0 <= j < i + 1 && keys@[j] == other.id() {
                            let j = choose|j: int| 0 <= j < i + 1 && keys@[j] == other.id();
                            if j < i {
                                assert(before.contains(other));
                                let at = choose|at: int|
                                    0 <= at < before.len() && before[at] == other;
                                assert(roots@[at] == other);
                            } else {
                                assert(roots@[before.len() as int] == other);
                            }
                        }
                    }
                    assert(!before.contains(node)) by {
                        if before.contains(node) {
                            let j = choose|j: int| 0 <= j < i && keys@[j] == node.id();
                            assert(keys@[j] == keys@[i as int]);
                        }
                    }
                }
            } else {
                proof {
                    assert forall|other: Node| roots@.contains(other) <==> self@.is_root(other)
                        && exists|j: int| 0 <= j < i + 1 && keys@[j] == other.id() by {
                        if self@.is_root(other) && exists|j: int|
                            0 <= j < i + 1 && keys@[j] == other.id() {
                            let j = choose|j: int| 0 <= j < i + 1 && keys@[j] == other.id();
                            assert(j < i);
                        }
                    }
                }
            }
            i += 1;
        }
        proof {
            assert forall|node: Node| roots@.contains(node) <==> self@.is_root(node) by {
                if self@.is_root(node) {
                    assert(keys@.contains(node.id()));
                }
            }
        }
        roots
    }
}

} // verus!
