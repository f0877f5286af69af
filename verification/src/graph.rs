//! The mathematical model of a scene graph: which nodes are alive, which node
//! is the parent of which, and the ordered child list of each parent; with the
//! invariant that ties the three together and the transitions that the scene
//! performs on them.

use crate::node::Node;
use crate::node::NodeAllocator;
use vstd::prelude::*;

verus! {

/// A scene graph as sets, maps and sequences.
pub struct SceneView {
    /// The live nodes.
    pub nodes: Set<Node>,
    /// The parent of each node that has one.  A live node without an entry is a
    /// root.
    pub parents: Map<Node, Node>,
    /// The recorded child list of each node that has one, in the order in which
    /// the children were attached.
    pub children: Map<Node, Seq<Node>>,
}

impl SceneView {
    /// The `steps`-th node on the way up from `node`: `node` itself for 0, its
    /// parent for 1, and so on; `None` past the root.
    pub open spec fn ancestor(self, node: Node, steps: nat) -> Option<Node>
        decreases steps,
    {
        if steps == 0 {
            Some(node)
        } else if self.parents.contains_key(node) {
            self.ancestor(self.parents[node], (steps - 1) as nat)
        } else {
            None
        }
    }

    /// Whether `above` lies on the way up from `node`, `node` itself included.
    pub open spec fn reaches(self, node: Node, above: Node) -> bool {
        exists|steps: nat| self.ancestor(node, steps) == Some(above)
    }

    /// `node` and everything below it.
    pub open spec fn subtree(self, node: Node) -> Set<Node> {
        Set::new(|below: Node| self.reaches(below, node))
    }

    /// The recorded children of `node`, or none if it has no record.
    pub open spec fn children_of(self, node: Node) -> Seq<Node> {
        if self.children.contains_key(node) {
            self.children[node]
        } else {
            Seq::empty()
        }
    }

    /// `node`, followed by the depth-first walks of its first `count`
    /// children, each walk going at most `fuel` levels down.
    pub open spec fn walk(self, fuel: nat, node: Node, count: nat) -> Seq<Node>
        decreases fuel, count,
    {
        if count == 0 || fuel == 0 || count > self.children_of(node).len() {
            seq![node]
        } else {
            let child = self.children_of(node)[count - 1];
            self.walk(fuel, node, (count - 1) as nat) + self.walk(
                (fuel - 1) as nat,
                child,
                self.children_of(child).len(),
            )
        }
    }

    /// The depth-first walk of the subtree of `node`: the node, then the walks
    /// of its children in the order of its child list.
    pub open spec fn preorder(self, node: Node) -> Seq<Node> {
        self.walk(self.nodes.len(), node, self.children_of(node).len())
    }

    /// The depth-first walks of the subtrees of `nodes`, one after the other.
    pub open spec fn preorder_all(self, nodes: Seq<Node>) -> Seq<Node>
        decreases nodes.len(),
    {
        if nodes.len() == 0 {
            Seq::empty()
        } else {
            self.preorder_all(nodes.drop_last()) + self.preorder(nodes.last())
        }
    }

    /// Whether `order` lists every live node once, and each node after its
    /// parent.
    pub open spec fn is_top_down(self, order: Seq<Node>) -> bool {
        &&& order.no_duplicates()
        &&& forall|node: Node| order.contains(node) <==> self.nodes.contains(node)
        &&& forall|i: int|
            0 <= i < order.len() && self.parents.contains_key(#[trigger] order[i]) ==> exists|
                j: int,
            | 0 <= j < i && order[j] == self.parents[order[i]]
    }

    /// Whether `order` is a depth-first walk of the whole graph: the walks of
    /// the trees of all roots, the roots taken in some order.  Such a walk
    /// lists every live node once, after its parent.
    pub open spec fn is_depth_first(self, order: Seq<Node>) -> bool {
        &&& self.is_top_down(order)
        &&& exists|roots: Seq<Node>|
            {
                &&& #[trigger] roots.no_duplicates()
                &&& forall|node: Node| roots.contains(node) <==> self.is_root(node)
                &&& order == self.preorder_all(roots)
            }
    }

    /// Whether nothing lies more than `fuel` levels below `node`.
    pub open spec fn shallow(self, fuel: nat, node: Node) -> bool {
        forall|below: Node, steps: nat| #[trigger]
            self.ancestor(below, steps) == Some(node) ==> steps <= fuel
    }

    /// Whether `rank` grows along every parent-to-child edge.  A hierarchy that
    /// has such a ranking has no cycle.
    pub open spec fn ranked(self, rank: spec_fn(Node) -> nat) -> bool {
        forall|child: Node| #[trigger]
            self.parents.contains_key(child) ==> rank(self.parents[child]) < rank(child)
    }

    /// No node is its own descendant.
    pub open spec fn acyclic(self) -> bool {
        exists|rank: spec_fn(Node) -> nat| self.ranked(rank)
    }

    /// The invariant of a scene graph.
    ///
    /// Only live nodes take part in the hierarchy.  A child list holds exactly
    /// the nodes whose parent entry names its owner, each of them once.  The
    /// parent relation has no cycle.
    pub open spec fn wf(self) -> bool {
        &&& self.nodes.finite()
        &&& forall|child: Node| #[trigger]
            self.parents.contains_key(child) ==> {
                &&& self.nodes.contains(child)
                &&& self.nodes.contains(self.parents[child])
                &&& self.children.contains_key(self.parents[child])
                &&& self.children[self.parents[child]].contains(child)
            }
        &&& forall|parent: Node| #[trigger]
            self.children.contains_key(parent) ==> {
                &&& self.nodes.contains(parent)
                &&& self.children[parent].no_duplicates()
            }
        &&& forall|parent: Node, i: int|
            self.children.contains_key(parent) && 0 <= i < self.children[parent].len() ==> {
                &&& self.parents.contains_key(#[trigger] self.children[parent][i])
                &&& self.parents[self.children[parent][i]] == parent
            }
        &&& self.acyclic()
    }

    /// Whether `node` is alive and has no parent.
    pub open spec fn is_root(self, node: Node) -> bool {
        self.nodes.contains(node) && !self.parents.contains_key(node)
    }

    /// Whether `allocator` has issued every live node.
    pub open spec fn issued_by(self, allocator: &NodeAllocator) -> bool {
        forall|node: Node| self.nodes.contains(node) ==> allocator.issued(node)
    }

    /// The empty scene graph.
    pub open spec fn empty() -> SceneView {
        SceneView { nodes: Set::empty(), parents: Map::empty(), children: Map::empty() }
    }

    /// The graph after `node` came alive.
    pub open spec fn spawn(self, node: Node) -> SceneView {
        SceneView { nodes: self.nodes.insert(node), ..self }
    }

    /// The graph after `node` was detached from its parent.  Its place in the
    /// parent's child list closes up; the list itself stays, even if empty.
    pub open spec fn remove_parent(self, node: Node) -> SceneView {
        if self.parents.contains_key(node) {
            let parent = self.parents[node];
            SceneView {
                nodes: self.nodes,
                parents: self.parents.remove(node),
                children: if self.children.contains_key(parent) {
                    self.children.insert(
                        parent,
                        self.children[parent].remove(self.children[parent].index_of(node)),
                    )
                } else {
                    self.children
                },
            }
        } else {
            self
        }
    }

    /// Whether `set_parent(node, parent)` changes anything: both nodes are
    /// alive, and `node` is neither `parent` nor above it.
    pub open spec fn can_set_parent(self, node: Node, parent: Node) -> bool {
        &&& self.nodes.contains(node)
        &&& self.nodes.contains(parent)
        &&& !self.reaches(parent, node)
    }

    /// The graph after `set_parent(node, parent)`: where the call applies,
    /// `node` leaves its previous parent, if any, and becomes the last child of
    /// `parent`.
    pub open spec fn set_parent(self, node: Node, parent: Node) -> SceneView {
        if self.can_set_parent(node, parent) {
            let detached = self.remove_parent(node);
            let siblings = if detached.children.contains_key(parent) {
                detached.children[parent]
            } else {
                Seq::empty()
            };
            SceneView {
                nodes: detached.nodes,
                parents: detached.parents.insert(node, parent),
                children: detached.children.insert(parent, siblings.push(node)),
            }
        } else {
            self
        }
    }

    /// The graph after `despawn(node)`: a live node leaves its parent's child
    /// list, and the node and everything below it leave the graph with their
    /// parent entries and child lists.
    pub open spec fn despawn(self, node: Node) -> SceneView {
        if self.nodes.contains(node) {
            let gone = self.subtree(node);
            let detached = self.remove_parent(node);
            SceneView {
                nodes: detached.nodes.difference(gone),
                parents: detached.parents.remove_keys(gone),
                children: detached.children.remove_keys(gone),
            }
        } else {
            self
        }
    }

    /// Past the root there is nothing: once the way up has ended, it has ended
    /// for every greater number of steps.
    pub proof fn lemma_ancestor_ends(self, node: Node, steps: nat, more: nat)
        requires
            self.ancestor(node, steps) is None,
            steps <= more,
        ensures
            self.ancestor(node, more) is None,
        decreases steps,
    {
        if steps > 0 && self.parents.contains_key(node) {
            self.lemma_ancestor_ends(self.parents[node], (steps - 1) as nat, (more - 1) as nat);
        }
    }

    /// Going up `steps` and then `more` is going up `steps + more`.
    pub proof fn lemma_ancestor_add(self, node: Node, steps: nat, more: nat)
        requires
            self.ancestor(node, steps) is Some,
        ensures
            self.ancestor(node, steps + more) == self.ancestor(
                self.ancestor(node, steps).unwrap(),
                more,
            ),
        decreases steps,
    {
        if steps > 0 {
            self.lemma_ancestor_add(self.parents[node], (steps - 1) as nat, more);
        }
    }

    /// A node other than `above` reaches `above` exactly if its parent does.
    pub proof fn lemma_reaches_step(self, node: Node, above: Node)
        requires
            node != above,
        ensures
            self.reaches(node, above) <==> self.parents.contains_key(node) && self.reaches(
                self.parents[node],
                above,
            ),
    {
        if self.reaches(node, above) {
            let steps = choose|steps: nat| self.ancestor(node, steps) == Some(above);
            assert(steps > 0);
            assert(self.ancestor(self.parents[node], (steps - 1) as nat) == Some(above));
        }
        if self.parents.contains_key(node) && self.reaches(self.parents[node], above) {
            let steps = choose|steps: nat| self.ancestor(self.parents[node], steps) == Some(above);
            assert(self.ancestor(node, steps + 1) == Some(above));
        }
    }

    /// Every node reaches itself.
    pub proof fn lemma_reaches_self(self, node: Node)
        ensures
            self.reaches(node, node),
    {
        assert(self.ancestor(node, 0) == Some(node));
    }

    /// Along the way up the rank only falls.
    pub proof fn lemma_rank_falls(self, rank: spec_fn(Node) -> nat, node: Node, steps: nat)
        requires
            self.ranked(rank),
            self.ancestor(node, steps) is Some,
        ensures
            rank(self.ancestor(node, steps).unwrap()) + steps <= rank(node),
        decreases steps,
    {
        if steps > 0 {
            self.lemma_rank_falls(rank, self.parents[node], (steps - 1) as nat);
        }
    }

    /// In a graph without a cycle, a node's parent does not reach the node.
    pub proof fn lemma_parent_not_below(self, node: Node)
        requires
            self.acyclic(),
            self.parents.contains_key(node),
        ensures
            !self.reaches(self.parents[node], node),
    {
        let rank = choose|rank: spec_fn(Node) -> nat| self.ranked(rank);
        if self.reaches(self.parents[node], node) {
            let steps = choose|steps: nat| self.ancestor(self.parents[node], steps) == Some(node);
            self.lemma_rank_falls(rank, self.parents[node], steps);
        }
    }

    /// The empty graph is well formed.
    pub proof fn lemma_empty_wf()
        ensures
            SceneView::empty().wf(),
    {
        let rank = |node: Node| 0nat;
        assert(SceneView::empty().ranked(rank));
    }

    /// Spawning keeps the graph well formed.
    pub proof fn lemma_spawn_wf(self, node: Node)
        requires
            self.wf(),
        ensures
            self.spawn(node).wf(),
    {
        let rank = choose|rank: spec_fn(Node) -> nat| self.ranked(rank);
        assert(self.spawn(node).ranked(rank));
    }

    /// Detaching a node keeps the graph well formed.
    pub proof fn lemma_remove_parent_wf(self, node: Node)
        requires
            self.wf(),
        ensures
            self.remove_parent(node).wf(),
    {
        let after = self.remove_parent(node);
        let rank = choose|rank: spec_fn(Node) -> nat| self.ranked(rank);
        assert(after.ranked(rank));
        if self.parents.contains_key(node) {
            let parent = self.parents[node];
            let list = self.children[parent];
            let at = list.index_of(node);
            assert(list.contains(node));
            assert(0 <= at < list.len() && list[at] == node);
            let rest = list.remove(at);
            assert(after.children[parent] == rest);
            assert forall|i: int| 0 <= i < rest.len() implies #[trigger] rest[i] == list[if i < at {
                i
            } else {
                i + 1
            }] by {}
            assert(rest.no_duplicates());
            assert forall|child: Node| #[trigger] after.parents.contains_key(child) implies {
                &&& after.nodes.contains(child)
                &&& after.nodes.contains(after.parents[child])
                &&& after.children.contains_key(after.parents[child])
                &&& after.children[after.parents[child]].contains(child)
            } by {
                assert(self.parents.contains_key(child));
                if self.parents[child] == parent {
                    let j = list.index_of(child);
                    assert(list.contains(child));
                    assert(list[j] == child && j != at);
                    if j < at {
                        assert(rest[j] == child);
                    } else {
                        assert(rest[j - 1] == child);
                    }
                }
            }
            assert forall|owner: Node, i: int|
                after.children.contains_key(owner) && 0 <= i < after.children[owner].len() implies {
                &&& after.parents.contains_key(#[trigger] after.children[owner][i])
                &&& after.parents[after.children[owner][i]] == owner
            } by {
                if owner == parent {
                    let k = if i < at {
                        i
                    } else {
                        i + 1
                    };
                    assert(rest[i] == list[k]);
                    assert(self.parents.contains_key(self.children[owner][k]));
                } else {
                    assert(self.parents.contains_key(self.children[owner][i]));
                }
            }
        }
    }

    /// Reparenting keeps the graph well formed: in particular it never closes a
    /// cycle.
    pub proof fn lemma_set_parent_wf(self, node: Node, parent: Node)
        requires
            self.wf(),
        ensures
            self.set_parent(node, parent).wf(),
    {
        if self.can_set_parent(node, parent) {
            let detached = self.remove_parent(node);
            let after = self.set_parent(node, parent);
            self.lemma_remove_parent_wf(node);
            let siblings = if detached.children.contains_key(parent) {
                detached.children[parent]
            } else {
                Seq::empty()
            };
            let list = siblings.push(node);
            assert(after.children[parent] == list);
            assert(!detached.parents.contains_key(node));
            // The new child list has no duplicates: `node` was in no child list.
            assert forall|i: int| 0 <= i < siblings.len() implies #[trigger] siblings[i] != node by {
                assert(detached.parents.contains_key(detached.children[parent][i]));
            }
            assert(list.no_duplicates());
            assert forall|child: Node| #[trigger] after.parents.contains_key(child) implies {
                &&& after.nodes.contains(child)
                &&& after.nodes.contains(after.parents[child])
                &&& after.children.contains_key(after.parents[child])
                &&& after.children[after.parents[child]].contains(child)
            } by {
                if child == node {
                    assert(list[list.len() - 1] == node);
                } else {
                    assert(detached.parents.contains_key(child));
                    if detached.parents[child] == parent {
                        let j = siblings.index_of(child);
                        assert(siblings.contains(child));
                        assert(list[j] == child);
                    }
                }
            }
            assert forall|owner: Node, i: int|
                after.children.contains_key(owner) && 0 <= i < after.children[owner].len() implies {
                &&& after.parents.contains_key(#[trigger] after.children[owner][i])
                &&& after.parents[after.children[owner][i]] == owner
            } by {
                if owner == parent {
                    if i < siblings.len() {
                        assert(list[i] == siblings[i]);
                        assert(detached.parents.contains_key(detached.children[owner][i]));
                    }
                } else {
                    assert(detached.parents.contains_key(detached.children[owner][i]));
                }
            }
            // Lift everything below `node` above the rank of `parent`.
            let rank = choose|rank: spec_fn(Node) -> nat| self.ranked(rank);
            let lift = (rank(parent) + 1) as nat;
            let lifted = |below: Node|
                if self.reaches(below, node) {
                    (rank(below) + lift) as nat
                } else {
                    rank(below)
                };
            assert forall|child: Node| #[trigger] after.parents.contains_key(child) implies lifted(
                after.parents[child],
            ) < lifted(child) by {
                if child == node {
                    self.lemma_reaches_self(node);
                } else {
                    assert(self.parents.contains_key(child));
                    assert(after.parents[child] == self.parents[child]);
                    self.lemma_reaches_step(child, node);
                }
            }
            assert(after.ranked(lifted));
        }
    }

    /// Despawning keeps the graph well formed: no parent entry and no child
    /// list is left that names a node that is gone.
    pub proof fn lemma_despawn_wf(self, node: Node)
        requires
            self.wf(),
        ensures
            self.despawn(node).wf(),
    {
        if self.nodes.contains(node) {
            let gone = self.subtree(node);
            let detached = self.remove_parent(node);
            let after = self.despawn(node);
            self.lemma_remove_parent_wf(node);
            self.lemma_reaches_self(node);
            let rank = choose|rank: spec_fn(Node) -> nat| detached.ranked(rank);
            assert(after.ranked(rank));
            assert forall|child: Node| #[trigger] after.parents.contains_key(child) implies {
                &&& after.nodes.contains(child)
                &&& after.nodes.contains(after.parents[child])
                &&& after.children.contains_key(after.parents[child])
                &&& after.children[after.parents[child]].contains(child)
            } by {
                assert(detached.parents.contains_key(child));
                assert(self.parents.contains_key(child));
                self.lemma_reaches_step(child, node);
            }
            assert forall|owner: Node, i: int|
                after.children.contains_key(owner) && 0 <= i < after.children[owner].len() implies {
                &&& after.parents.contains_key(#[trigger] after.children[owner][i])
                &&& after.parents[after.children[owner][i]] == owner
            } by {
                let child = detached.children[owner][i];
                assert(detached.parents.contains_key(child));
                assert(self.parents.contains_key(child));
                self.lemma_reaches_step(child, node);
            }
        }
    }

    /// A set that holds `node` and, with each of its members, the member's
    /// children, holds everything below `node`.
    pub proof fn lemma_closed_under_children(self, node: Node, closed: Set<Node>, below: Node, steps: nat)
        requires
            closed.contains(node),
            forall|child: Node|
                child != node && #[trigger] self.parents.contains_key(child) && closed.contains(
                    self.parents[child],
                ) ==> closed.contains(child),
            self.ancestor(below, steps) == Some(node),
        ensures
            closed.contains(below),
        decreases steps,
    {
        if below != node {
            self.lemma_closed_under_children(
                node,
                closed,
                self.parents[below],
                (steps - 1) as nat,
            );
        }
    }

    /// The way up from a live node ends at a root.
    pub proof fn lemma_reaches_root(self, node: Node) -> (root: Node)
        requires
            self.wf(),
            self.nodes.contains(node),
        ensures
            self.is_root(root),
            self.reaches(node, root),
    {
        let rank = choose|rank: spec_fn(Node) -> nat| self.ranked(rank);
        self.lemma_ranked_reaches_root(rank, node)
    }

    proof fn lemma_ranked_reaches_root(self, rank: spec_fn(Node) -> nat, node: Node) -> (root: Node)
        requires
            self.wf(),
            self.ranked(rank),
            self.nodes.contains(node),
        ensures
            self.is_root(root),
            self.reaches(node, root),
        decreases rank(node),
    {
        if self.parents.contains_key(node) {
            let root = self.lemma_ranked_reaches_root(rank, self.parents[node]);
            if node == root {
                self.lemma_reaches_self(node);
            } else {
                self.lemma_reaches_step(node, root);
            }
            root
        } else {
            self.lemma_reaches_self(node);
            node
        }
    }

    /// The guards of `set_parent`: the call changes nothing if one of the two
    /// nodes is not alive, if `node` is `parent`, or if `node` lies above
    /// `parent`.
    pub proof fn lemma_set_parent_refused(self, node: Node, parent: Node)
        requires
            !self.nodes.contains(node) || !self.nodes.contains(parent) || node == parent
                || self.reaches(parent, node),
        ensures
            self.set_parent(node, parent) == self,
    {
        if node == parent {
            self.lemma_reaches_self(node);
        }
    }

    /// Where `set_parent` applies, `node` gets `parent` as its parent and the
    /// last place among the children of `parent`; the live nodes and the parent
    /// of every other node stay as they are.
    pub proof fn lemma_set_parent_applied(self, node: Node, parent: Node)
        requires
            self.wf(),
            self.can_set_parent(node, parent),
        ensures
            self.set_parent(node, parent).nodes == self.nodes,
            self.set_parent(node, parent).parents.get(node) == Some(parent),
            self.set_parent(node, parent).children.contains_key(parent),
            self.set_parent(node, parent).children[parent].last() == node,
            forall|other: Node|
                other != node ==> self.set_parent(node, parent).parents.get(other)
                    == self.parents.get(other),
    {
    }

    /// The despawn cascade: after `despawn(node)` of a live node, nothing below
    /// it is alive, has a parent entry or a child list, or is named in any child
    /// list.
    pub proof fn lemma_despawn_removes_subtree(self, node: Node, below: Node)
        requires
            self.wf(),
            self.nodes.contains(node),
            self.reaches(below, node),
        ensures
            !self.despawn(node).nodes.contains(below),
            !self.despawn(node).parents.contains_key(below),
            !self.despawn(node).children.contains_key(below),
            forall|child: Node|
                self.despawn(node).parents.contains_key(child) ==> self.despawn(
                    node,
                ).parents[child] != below,
            forall|owner: Node|
                self.despawn(node).children.contains_key(owner) ==> !self.despawn(
                    node,
                ).children[owner].contains(below),
    {
        let after = self.despawn(node);
        self.lemma_despawn_wf(node);
        assert forall|owner: Node| after.children.contains_key(owner) implies !after.children[owner].contains(
            below,
        ) by {
            if after.children[owner].contains(below) {
                let at = choose|at: int|
                    0 <= at < after.children[owner].len() && after.children[owner][at] == below;
                assert(after.parents.contains_key(after.children[owner][at]));
            }
        }
    }

    /// A despawn leaves the rest of the scene alone: a live node that is not
    /// below `node` stays alive and keeps its parent.
    pub proof fn lemma_despawn_keeps_rest(self, node: Node, other: Node)
        requires
            self.wf(),
            self.nodes.contains(node),
            self.nodes.contains(other),
            !self.reaches(other, node),
        ensures
            self.despawn(node).nodes.contains(other),
            self.despawn(node).parents.get(other) == self.parents.get(other),
    {
        self.lemma_reaches_self(node);
    }

    /// The way up passes no node twice.
    pub proof fn lemma_ancestor_once(self, below: Node, node: Node, first: nat, second: nat)
        requires
            self.acyclic(),
            self.ancestor(below, first) == Some(node),
            self.ancestor(below, second) == Some(node),
            first <= second,
        ensures
            first == second,
    {
        let rank = choose|rank: spec_fn(Node) -> nat| self.ranked(rank);
        self.lemma_ancestor_add(below, first, (second - first) as nat);
        self.lemma_rank_falls(rank, node, (second - first) as nat);
    }

    /// The way up from a live node passes live nodes only.
    pub proof fn lemma_ancestor_alive(self, below: Node, steps: nat)
        requires
            self.wf(),
            self.nodes.contains(below),
            self.ancestor(below, steps) is Some,
        ensures
            self.nodes.contains(self.ancestor(below, steps).unwrap()),
        decreases steps,
    {
        if steps > 0 {
            self.lemma_ancestor_alive(self.parents[below], (steps - 1) as nat);
        }
    }

    /// The way up is shorter than the number of live nodes.
    pub proof fn lemma_ancestor_bound(self, below: Node, steps: nat)
        requires
            self.wf(),
            self.nodes.contains(below),
            self.ancestor(below, steps) is Some,
        ensures
            steps < self.nodes.len(),
    {
        let chain = Seq::new((steps + 1) as nat, |i: int| self.ancestor(below, i as nat).unwrap());
        assert forall|i: nat| i <= steps implies #[trigger] self.ancestor(below, i) is Some by {
            if self.ancestor(below, i) is None {
                self.lemma_ancestor_ends(below, i, steps);
            }
        }
        assert forall|i: int, j: int| 0 <= i < chain.len() && 0 <= j < chain.len() && i != j implies chain[i]
            != chain[j] by {
            if chain[i] == chain[j] {
                if i < j {
                    self.lemma_ancestor_once(below, chain[i], i as nat, j as nat);
                } else {
                    self.lemma_ancestor_once(below, chain[i], j as nat, i as nat);
                }
            }
        }
        assert(chain.no_duplicates());
        chain.unique_seq_to_set();
        assert(chain.to_set().subset_of(self.nodes)) by {
            assert forall|node: Node| chain.to_set().contains(node) implies self.nodes.contains(
                node,
            ) by {
                let i = choose|i: int| 0 <= i < chain.len() && chain[i] == node;
                self.lemma_ancestor_alive(below, i as nat);
            }
        }
        vstd::set_lib::lemma_len_subset(chain.to_set(), self.nodes);
    }

    /// Nothing lies as many levels below a node as there are live nodes.
    pub proof fn lemma_shallow(self, node: Node)
        requires
            self.wf(),
            self.nodes.contains(node),
        ensures
            self.nodes.len() >= 1,
            self.shallow((self.nodes.len() - 1) as nat, node),
    {
        self.lemma_ancestor_bound(node, 0);
        assert forall|below: Node, steps: nat| #[trigger]
            self.ancestor(below, steps) == Some(node) implies steps <= self.nodes.len() - 1 by {
            if steps > 0 {
                assert(self.parents.contains_key(below));
                self.lemma_ancestor_bound(below, steps);
            }
        }
    }

    /// The children of a node lie one level less deep than the node.
    pub proof fn lemma_shallow_child(self, fuel: nat, node: Node, i: int)
        requires
            self.wf(),
            self.shallow(fuel, node),
            0 <= i < self.children_of(node).len(),
        ensures
            fuel > 0,
            self.shallow((fuel - 1) as nat, self.children_of(node)[i]),
    {
        let child = self.children_of(node)[i];
        assert(self.parents.contains_key(self.children[node][i]));
        assert(self.ancestor(child, 1) == self.ancestor(node, 0));
        assert forall|below: Node, steps: nat| #[trigger]
            self.ancestor(below, steps) == Some(child) implies steps <= fuel - 1 by {
            self.lemma_ancestor_add(below, steps, 1);
            assert(self.ancestor(below, steps + 1) == Some(node));
        }
    }

    /// More fuel than the depth of the subtree does not change the walk.
    pub proof fn lemma_walk_fuel(self, fuel: nat, more: nat, node: Node, count: nat)
        requires
            self.wf(),
            self.shallow(fuel, node),
            fuel <= more,
        ensures
            self.walk(fuel, node, count) == self.walk(more, node, count),
        decreases fuel, count,
    {
        if count == 0 || count > self.children_of(node).len() {
        } else {
            self.lemma_shallow_child(fuel, node, count - 1);
            let child = self.children_of(node)[count - 1];
            self.lemma_walk_fuel(fuel, more, node, (count - 1) as nat);
            self.lemma_walk_fuel(
                (fuel - 1) as nat,
                (more - 1) as nat,
                child,
                self.children_of(child).len(),
            );
        }
    }

    /// The walk of a subtree is its top node followed by the walks of the
    /// subtrees of the children.
    pub proof fn lemma_preorder_unfolds(self, node: Node)
        requires
            self.wf(),
            self.nodes.contains(node),
        ensures
            self.preorder(node) == seq![node] + self.preorder_all(self.children_of(node)),
    {
        self.lemma_walk_prefix(node, self.children_of(node).len());
        assert(self.children_of(node).take(self.children_of(node).len() as int) == self.children_of(
            node,
        ));
    }

    proof fn lemma_walk_prefix(self, node: Node, count: nat)
        requires
            self.wf(),
            self.nodes.contains(node),
            count <= self.children_of(node).len(),
        ensures
            self.walk(self.nodes.len(), node, count) == seq![node] + self.preorder_all(
                self.children_of(node).take(count as int),
            ),
        decreases count,
    {
        let list = self.children_of(node);
        self.lemma_shallow(node);
        if count == 0 {
            assert(list.take(0).len() == 0);
            assert(self.preorder_all(list.take(0)) == Seq::<Node>::empty());
            assert(seq![node] + Seq::<Node>::empty() == seq![node]);
        } else {
            let child = list[count - 1];
            self.lemma_walk_prefix(node, (count - 1) as nat);
            assert(self.parents.contains_key(self.children[node][count - 1]));
            self.lemma_shallow(child);
            self.lemma_walk_fuel(
                (self.nodes.len() - 1) as nat,
                self.nodes.len(),
                child,
                self.children_of(child).len(),
            );
            assert(list.take(count as int).drop_last() == list.take(count - 1));
            assert(list.take(count as int).last() == child);
            assert(self.preorder_all(list.take(count as int)) == self.preorder_all(
                list.take(count - 1),
            ) + self.preorder(child));
            assert(seq![node] + (self.preorder_all(list.take(count - 1)) + self.preorder(child))
                == (seq![node] + self.preorder_all(list.take(count - 1))) + self.preorder(child));
        }
    }

    /// The walks of a list of one node are the walk of that node.
    pub proof fn lemma_preorder_all_single(self, node: Node)
        ensures
            self.preorder_all(seq![node]) == self.preorder(node),
    {
        let single = seq![node];
        assert(single.drop_last() == Seq::<Node>::empty());
        assert(self.preorder_all(single.drop_last()) == Seq::<Node>::empty());
        assert(single.last() == node);
        assert(Seq::<Node>::empty() + self.preorder(node) == self.preorder(node));
    }

    /// The walks of two lists one after the other are the walks of the joined
    /// list.
    pub proof fn lemma_preorder_all_concat(self, first: Seq<Node>, second: Seq<Node>)
        ensures
            self.preorder_all(first + second) == self.preorder_all(first) + self.preorder_all(
                second,
            ),
        decreases second.len(),
    {
        if second.len() == 0 {
            assert(first + second == first);
            assert(self.preorder_all(first) + Seq::<Node>::empty() == self.preorder_all(first));
        } else {
            self.lemma_preorder_all_concat(first, second.drop_last());
            assert((first + second).drop_last() == first + second.drop_last());
            assert((first + second).last() == second.last());
            assert((self.preorder_all(first) + self.preorder_all(second.drop_last()))
                + self.preorder(second.last()) == self.preorder_all(first) + (self.preorder_all(
                second.drop_last(),
            ) + self.preorder(second.last())));
        }
    }

    /// One step of a depth-first walk with a stack: taking the top node off,
    /// listing it and putting its children on the stack, last child first,
    /// leaves the walk as a whole unchanged.  `rest` is the stack below the top
    /// node `current`, bottom first.
    pub proof fn lemma_walk_step(self, listed: Seq<Node>, rest: Seq<Node>, current: Node)
        requires
            self.wf(),
            self.nodes.contains(current),
        ensures
            listed.push(current) + self.preorder_all(
                (rest + self.children_of(current).reverse()).reverse(),
            ) == listed + self.preorder_all(rest.push(current).reverse()),
    {
        let below = self.children_of(current);
        assert(rest.push(current).reverse() =~= seq![current] + rest.reverse());
        assert((rest + below.reverse()).reverse() =~= below + rest.reverse());
        self.lemma_preorder_all_concat(seq![current], rest.reverse());
        self.lemma_preorder_all_concat(below, rest.reverse());
        self.lemma_preorder_unfolds(current);
        self.lemma_preorder_all_single(current);
        let tail = self.preorder_all(rest.reverse());
        assert(listed.push(current) + (self.preorder_all(below) + tail) =~= listed + ((seq![
            current,
        ] + self.preorder_all(below)) + tail));
    }

    /// Detaching a node does not change the walk of its subtree.
    pub proof fn lemma_preorder_detached(self, node: Node)
        requires
            self.wf(),
        ensures
            self.remove_parent(node).preorder(node) == self.preorder(node),
    {
        self.lemma_reaches_self(node);
        self.lemma_walk_detached(node, self.nodes.len(), node, self.children_of(node).len());
    }

    proof fn lemma_walk_detached(self, node: Node, fuel: nat, below: Node, count: nat)
        requires
            self.wf(),
            self.reaches(below, node),
        ensures
            self.remove_parent(node).children_of(below) == self.children_of(below),
            self.remove_parent(node).walk(fuel, below, count) == self.walk(fuel, below, count),
        decreases fuel, count,
    {
        let detached = self.remove_parent(node);
        if self.parents.contains_key(node) {
            self.lemma_parent_not_below(node);
            assert(below != self.parents[node]);
        }
        if !(count == 0 || fuel == 0 || count > self.children_of(below).len()) {
            let child = self.children_of(below)[count - 1];
            assert(self.parents.contains_key(self.children[below][count - 1]));
            self.lemma_reaches_step(child, node);
            self.lemma_walk_detached(node, fuel, below, (count - 1) as nat);
            self.lemma_walk_detached(
                node,
                (fuel - 1) as nat,
                child,
                self.children_of(child).len(),
            );
        }
    }
}

} // verus!
