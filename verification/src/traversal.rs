//! Walking the scene from the roots down.

use crate::graph::SceneView;
use crate::node::Node;
use crate::scene::Scene;
use crate::sequences::lemma_concat_contains;
use crate::sequences::lemma_drop_last_contains;
use crate::sequences::lemma_push_contains;
use crate::sequences::lemma_reverse_contains;
use crate::sequences::push_reversed;
use vstd::prelude::*;

verus! {

/// Whether `node` is a root of `graph` or a node whose parent is listed in
/// `order`.
#[verifier::opaque]
spec fn parent_listed(graph: SceneView, order: Seq<Node>, node: Node) -> bool {
    graph.is_root(node) || (graph.parents.contains_key(node) && order.contains(graph.parents[node]))
}

impl Scene {
    /// The live nodes in the order of a depth-first walk that starts at every
    /// root in turn and visits the children of a node in the order in which
    /// they were attached.  Every live node is listed once, after its parent.
    pub fn depth_first(&self) -> (order: Vec<Node>)
        requires
            self.wf(),
        ensures
            self@.is_depth_first(order@),
    {
        let ghost graph = self@;
        let roots = self.get_root_nodes();
        let mut order: Vec<Node> = Vec::new();
        let mut pending: Vec<Node> = Vec::new();
        push_reversed(&mut pending, roots.as_slice());
        proof {
            lemma_reverse_contains(roots@);
            lemma_concat_contains(Seq::<Node>::empty(), roots@.reverse());
            assert(pending@ == roots@.reverse());
            assert forall|node: Node| pending@.contains(node) implies parent_listed(
                graph,
                order@,
                node,
            ) by {
                reveal(parent_listed);
            }
            assert(roots@.reverse().reverse() =~= roots@);
            assert(order@ + graph.preorder_all(pending@.reverse()) == graph.preorder_all(roots@));
        }
        while pending.len() > 0
            invariant
                graph == self@,
                graph.wf(),
                order@ + graph.preorder_all(pending@.reverse()) == graph.preorder_all(roots@),
                order@.no_duplicates(),
                pending@.no_duplicates(),
                forall|node: Node| !(order@.contains(node) && pending@.contains(node)),
                forall|node: Node|
                    order@.contains(node) || pending@.contains(node) ==> graph.nodes.contains(node),
                forall|node: Node|
                    order@.contains(node) || pending@.contains(node) ==> parent_listed(
                        graph,
                        order@,
                        node,
                    ),
                forall|node: Node|
                    graph.is_root(node) ==> order@.contains(node) || pending@.contains(node),
                forall|child: Node|
                    #![trigger graph.parents.contains_key(child)]
                    graph.parents.contains_key(child) && order@.contains(graph.parents[child])
                        ==> order@.contains(child) || pending@.contains(child),
                forall|i: int|
                    0 <= i < order@.len() && graph.parents.contains_key(#[trigger] order@[i])
                        ==> exists|j: int| 0 <= j < i && order@[j] == graph.parents[order@[i]],
            decreases graph.nodes.len() - order@.len(),
        {
            let ghost order_before = order@;
            let ghost pending_before = pending@;
            let current: Node = pending.pop().unwrap();
            proof {
                lemma_drop_last_contains(pending_before);
                assert(pending@ == pending_before.drop_last());
                assert(current == pending_before.last());
                assert(pending_before.contains(current));
                assert(!order_before.contains(current));
                assert(graph.is_root(current) || (graph.parents.contains_key(current)
                    && order_before.contains(graph.parents[current]))) by {
                    assert(parent_listed(graph, order_before, current));
                    reveal(parent_listed);
                }
            }
            order.push(current);
            proof {
                lemma_push_contains(order_before, current);
                order@.unique_seq_to_set();
                assert(order@.to_set().subset_of(graph.nodes));
                vstd::set_lib::lemma_len_subset(order@.to_set(), graph.nodes);
                assert forall|node: Node|
                    order@.contains(node) || pending@.contains(node) implies parent_listed(
                    graph,
                    order@,
                    node,
                ) by {
                    reveal(parent_listed);
                    if node != current {
                        assert(parent_listed(graph, order_before, node));
                    }
                }
                assert forall|i: int|
                    0 <= i < order@.len() && graph.parents.contains_key(
                        #[trigger] order@[i],
                    ) implies exists|j: int| 0 <= j < i && order@[j] == graph.parents[order@[i]] by {
                    if i < order_before.len() {
                        assert(order@[i] == order_before[i]);
                        let j = choose|j: int|
                            0 <= j < i && order_before[j] == graph.parents[order_before[i]];
                        assert(order@[j] == graph.parents[order@[i]]);
                    } else {
                        assert(order@[i] == current);
                        assert(order_before.contains(graph.parents[current]));
                        let j = choose|j: int|
                            0 <= j < order_before.len() && order_before[j]
                                == graph.parents[current];
                        assert(order@[j] == graph.parents[order@[i]]);
                    }
                }
            }
            proof {
                assert(pending_before == pending@.push(current));
                graph.lemma_walk_step(order_before, pending@, current);
            }
            match self.get_children(current) {
                Some(list) => {
                    let ghost pending_mid = pending@;
                    push_reversed(&mut pending, list);
                    proof {
                        lemma_reverse_contains(list@);
                        lemma_concat_contains(pending_mid, list@.reverse());
                        assert forall|child: Node| list@.contains(child) implies {
                            &&& graph.parents.contains_key(child)
                            &&& graph.parents[child] == current
                            &&& graph.nodes.contains(child)
                            &&& !pending_mid.contains(child)
                            &&& !order@.contains(child)
                        } by {
                            let at = choose|at: int| 0 <= at < list@.len() && list@[at] == child;
                            assert(graph.parents.contains_key(graph.children[current][at]));
                            graph.lemma_parent_not_below(child);
                            graph.lemma_reaches_self(child);
                            assert(child != current);
                            assert(!graph.is_root(child));
                            if pending_mid.contains(child) || order_before.contains(child) {
                                assert(parent_listed(graph, order_before, child));
                                reveal(parent_listed);
                            }
                        }
                        assert forall|node: Node|
                            order@.contains(node) || pending@.contains(node) implies parent_listed(
                            graph,
                            order@,
                            node,
                        ) by {
                            if list@.contains(node) {
                                reveal(parent_listed);
                            }
                        }
                    }
                },
                None => {
                    proof {
                        assert(graph.children_of(current).reverse() == Seq::<Node>::empty());
                        assert(pending@ + Seq::<Node>::empty() == pending@);
                        assert forall|child: Node|
                            #![trigger graph.parents.contains_key(child)]
                            graph.parents.contains_key(child) implies graph.parents[child]
                            != current by {}
                    }
                },
            }
        }
        proof {
            assert(pending@.reverse() == Seq::<Node>::empty());
            assert(order@ + Seq::<Node>::empty() == order@);
            assert forall|node: Node| graph.nodes.contains(node) implies order@.contains(node) by {
                let root = graph.lemma_reaches_root(node);
                let steps = choose|steps: nat| graph.ancestor(node, steps) == Some(root);
                assert(!pending@.contains(root));
                assert forall|child: Node|
                    child != root && #[trigger] graph.parents.contains_key(child)
                        && order@.to_set().contains(
                        graph.parents[child],
                    ) implies order@.to_set().contains(child) by {
                    assert(!pending@.contains(child));
                }
                graph.lemma_closed_under_children(root, order@.to_set(), node, steps);
            }
        }
        order
    }
}

} // verus!
