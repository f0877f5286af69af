//! Systems: passes over a scene that derive components from components.
//!
//! Both systems walk the scene depth first from the roots down and hand one
//! piece of state from each node to its children.  What they write, they write
//! with `set_or_add`, so a table's log shows what a pass changed.

use crate::components::ComputedVisibility;
use crate::components::Visibility;
use crate::graph::SceneView;
use crate::index::map_get;
use crate::index::map_insert;
use crate::node::Node;
use crate::scene::Scene;
use crate::table::Component;
use crate::table::ComponentEvent;
use crate::table::ComponentTable;
use nohash::IntMap;
use vstd::prelude::*;
use vstd::std_specs::cmp::PartialEqSpec;

verus! {

broadcast use {Node::lemma_id_injective, Node::lemma_with_id, Node::lemma_id_with_id};

/// What a pass logs at `node`: `Added` if it writes the node and the node had
/// no component, `Modified` if it writes the node and found its component
/// different, and nothing otherwise.
pub open spec fn pass_entry<W>(
    node: Node,
    written: Set<Node>,
    before: Map<Node, W>,
    modified: Set<Node>,
) -> Seq<ComponentEvent> {
    if !written.contains(node) {
        Seq::empty()
    } else if !before.contains_key(node) {
        seq![ComponentEvent::Added(node)]
    } else if modified.contains(node) {
        seq![ComponentEvent::Modified(node)]
    } else {
        Seq::empty()
    }
}

/// What a pass logs that walks the nodes in the order `order`, writes the
/// nodes of `written`, found the components `before`, and found those of the
/// nodes of `modified` different from what it wrote.
pub open spec fn pass_log<W>(
    order: Seq<Node>,
    written: Set<Node>,
    before: Map<Node, W>,
    modified: Set<Node>,
) -> Seq<ComponentEvent>
    decreases order.len(),
{
    if order.len() == 0 {
        Seq::empty()
    } else {
        pass_log(order.drop_last(), written, before, modified) + pass_entry(
            order.last(),
            written,
            before,
            modified,
        )
    }
}

/// Each change is logged once: the log of a pass that walks no node twice has
/// no duplicates, and it holds exactly the additions and modifications of the
/// nodes that the pass walked and wrote.
pub proof fn lemma_pass_log_once<W>(
    order: Seq<Node>,
    written: Set<Node>,
    before: Map<Node, W>,
    modified: Set<Node>,
)
    requires
        order.no_duplicates(),
    ensures
        pass_log(order, written, before, modified).no_duplicates(),
        forall|event: ComponentEvent| #[trigger]
            pass_log(order, written, before, modified).contains(event) <==> order.contains(
                event.node(),
            ) && written.contains(event.node()) && match event {
                ComponentEvent::Added(node) => !before.contains_key(node),
                ComponentEvent::Modified(node) => before.contains_key(node) && modified.contains(
                    node,
                ),
                ComponentEvent::Removed(_) => false,
            },
    decreases order.len(),
{
    let log = pass_log(order, written, before, modified);
    if order.len() == 0 {
        assert forall|event: ComponentEvent| !order.contains(event.node()) by {}
    } else {
        let shorter = order.drop_last();
        let last = order.last();
        let head = pass_log(shorter, written, before, modified);
        let entry = pass_entry(last, written, before, modified);
        lemma_pass_log_once(shorter, written, before, modified);
        crate::sequences::lemma_drop_last_contains(order);
        crate::sequences::lemma_concat_contains(head, entry);
        assert forall|event: ComponentEvent| #[trigger] entry.contains(event) <==> event.node() == last
            && written.contains(last) && match event {
            ComponentEvent::Added(node) => !before.contains_key(node),
            ComponentEvent::Modified(node) => before.contains_key(node) && modified.contains(node),
            ComponentEvent::Removed(_) => false,
        } by {
            if entry.contains(event) {
                let at = choose|at: int| 0 <= at < entry.len() && entry[at] == event;
                assert(entry[at] == event);
            }
            if event.node() == last && written.contains(last) {
                if event == ComponentEvent::Added(last) && !before.contains_key(last) {
                    assert(entry[0] == event);
                }
                if event == ComponentEvent::Modified(last) && before.contains_key(last)
                    && modified.contains(last) {
                    assert(entry[0] == event);
                }
            }
        }
        assert(entry.no_duplicates());
        assert(log == head + entry);
    }
}

/// A pass logs nothing about a node that it has not walked: whether such a
/// node counts as modified makes no difference to the log.
pub proof fn lemma_pass_log_skips<W>(
    order: Seq<Node>,
    written: Set<Node>,
    before: Map<Node, W>,
    modified: Set<Node>,
    node: Node,
)
    requires
        !order.contains(node),
    ensures
        pass_log(order, written, before, modified.insert(node)) == pass_log(
            order,
            written,
            before,
            modified,
        ),
    decreases order.len(),
{
    if order.len() > 0 {
        assert(order[order.len() - 1] == order.last());
        assert forall|other: Node| order.drop_last().contains(other) implies order.contains(other) by {
            let at = choose|at: int|
                0 <= at < order.drop_last().len() && order.drop_last()[at] == other;
            assert(order[at] == other);
        }
        lemma_pass_log_skips(order.drop_last(), written, before, modified, node);
    }
}

/// The visibility that `node` gets in `graph`, given what the nodes ask for
/// and what the other nodes got: its own explicit choice; failing that, what its
/// parent got; failing a parent, visible.
pub open spec fn visibility_rule(
    graph: SceneView,
    asked: Map<Node, Visibility>,
    computed: Map<Node, ComputedVisibility>,
    node: Node,
) -> ComputedVisibility {
    ComputedVisibility::resolved(
        asked.get(node),
        if graph.parents.contains_key(node) {
            computed[graph.parents[node]]
        } else {
            ComputedVisibility::Visible
        },
    )
}

/// Whether `computed` gives every live node of `graph` the visibility that the
/// rule asks for.
pub open spec fn visibility_resolved(
    graph: SceneView,
    asked: Map<Node, Visibility>,
    computed: Map<Node, ComputedVisibility>,
) -> bool {
    forall|node: Node| #[trigger]
        graph.nodes.contains(node) ==> computed.contains_key(node) && computed[node]
            == visibility_rule(graph, asked, computed, node)
}

/// The nodes whose computed visibility differs between `before` and `after`.
pub open spec fn visibility_changed(
    before: Map<Node, ComputedVisibility>,
    after: Map<Node, ComputedVisibility>,
) -> Set<Node> {
    Set::new(|node: Node| before.contains_key(node) && before[node] != after[node])
}

/// The rule decides: two assignments of computed visibilities that both follow
/// the rule on a well-formed graph agree on every live node.
pub proof fn lemma_visibility_unique(
    graph: SceneView,
    asked: Map<Node, Visibility>,
    first: Map<Node, ComputedVisibility>,
    second: Map<Node, ComputedVisibility>,
)
    requires
        graph.wf(),
        visibility_resolved(graph, asked, first),
        visibility_resolved(graph, asked, second),
    ensures
        forall|node: Node| graph.nodes.contains(node) ==> first[node] == second[node],
{
    let rank = choose|rank: spec_fn(Node) -> nat| graph.ranked(rank);
    assert forall|node: Node| graph.nodes.contains(node) implies first[node] == second[node] by {
        lemma_visibility_unique_at(graph, asked, first, second, rank, node);
    }
}

proof fn lemma_visibility_unique_at(
    graph: SceneView,
    asked: Map<Node, Visibility>,
    first: Map<Node, ComputedVisibility>,
    second: Map<Node, ComputedVisibility>,
    rank: spec_fn(Node) -> nat,
    node: Node,
)
    requires
        graph.wf(),
        graph.ranked(rank),
        visibility_resolved(graph, asked, first),
        visibility_resolved(graph, asked, second),
        graph.nodes.contains(node),
    ensures
        first[node] == second[node],
    decreases rank(node),
{
    if graph.parents.contains_key(node) {
        lemma_visibility_unique_at(graph, asked, first, second, rank, graph.parents[node]);
    }
}

/// Computes the visibility of every node of the scene.
///
/// The walk goes depth first from the roots down.  Each live node gets a
/// computed visibility: its own explicit choice, or else what its parent got,
/// or else visible.  A node without a visibility component inherits like one
/// that asks to inherit.  The computed visibilities of nodes that are not alive
/// stay as they are.  The log grows, in the order of the walk, by `Added` for
/// each node that had no computed visibility and `Modified` for each node
/// whose computed visibility changed.
pub fn compute_visibility(
    scene: &Scene,
    visibility: &ComponentTable<Visibility>,
    computed: &mut ComponentTable<ComputedVisibility>,
)
    requires
        scene.wf(),
        visibility.wf(),
        old(computed).wf(),
    ensures
        final(computed).wf(),
        visibility_resolved(scene@, visibility@.components, final(computed)@.components),
        forall|node: Node|
            !scene@.nodes.contains(node) ==> final(computed)@.components.get(node) == old(
                computed,
            )@.components.get(node),
        exists|order: Seq<Node>|
            {
                &&& #[trigger] scene@.is_depth_first(order)
                &&& final(computed)@.events == old(computed)@.events + pass_log(
                    order,
                    scene@.nodes,
                    old(computed)@.components,
                    visibility_changed(old(computed)@.components, final(computed)@.components),
                )
            },
{
    let ghost graph = scene@;
    let ghost asked = visibility@.components;
    let ghost before = computed@.components;
    let ghost mut modified: Set<Node> = Set::empty();
    let order = scene.depth_first();
    let mut i: usize = 0;
    proof {
        assert(order@.take(0).len() == 0);
        assert(computed@.events == computed@.events + Seq::<ComponentEvent>::empty());
    }
    while i < order.len()
        invariant
            i <= order@.len(),
            graph == scene@,
            graph.wf(),
            asked == visibility@.components,
            before == old(computed)@.components,
            visibility.wf(),
            computed.wf(),
            graph.is_depth_first(order@),
            forall|j: int|
                0 <= j < i ==> computed@.components.contains_key(#[trigger] order@[j])
                    && computed@.components[order@[j]] == visibility_rule(
                    graph,
                    asked,
                    computed@.components,
                    order@[j],
                ),
            forall|node: Node|
                !(exists|j: int| 0 <= j < i && order@[j] == node) ==> computed@.components.get(node)
                    == before.get(node),
            forall|node: Node|
                modified.contains(node) <==> visibility_changed(
                    before,
                    computed@.components,
                ).contains(node),
            computed@.events == old(computed)@.events + pass_log(
                order@.take(i as int),
                graph.nodes,
                before,
                modified,
            ),
        decreases order@.len() - i,
    {
        let node: Node = order[i];
        let ghost components_before = computed@.components;
        let ghost modified_before = modified;
        let ghost walked = order@.take(i as int);
        let inherited = match scene.get_parent(node) {
            Some(parent) => {
                proof {
                    let j = choose|j: int| 0 <= j < i && order@[j] == graph.parents[order@[i as int]];
                    assert(computed@.components.contains_key(order@[j]));
                }
                match computed.get(parent) {
                    Some(value) => *value,
                    None => ComputedVisibility::Visible,
                }
            },
            None => ComputedVisibility::Visible,
        };
        let value = ComputedVisibility::resolve(visibility.get(node), inherited);
        proof {
            assert(value == visibility_rule(graph, asked, components_before, node));
            assert(!(exists|j: int| 0 <= j < i && order@[j] == node));
            assert(components_before.get(node) == before.get(node));
            assert(!walked.contains(node)) by {
                if walked.contains(node) {
                    let j = choose|j: int| 0 <= j < walked.len() && walked[j] == node;
                    assert(order@[j] == node);
                }
            }
        }
        computed.set_or_add(node, value);
        proof {
            if components_before.contains_key(node) && components_before[node] != value {
                modified = modified.insert(node);
                lemma_pass_log_skips(walked, graph.nodes, before, modified_before, node);
            }
            assert(order@.contains(node));
            assert(order@.take(i + 1).drop_last() == walked);
            assert(order@.take(i + 1).last() == node);
            assert(computed@.components =~= components_before.insert(node, value));
            assert(computed@.events =~= old(computed)@.events + pass_log(
                order@.take(i + 1),
                graph.nodes,
                before,
                modified,
            ));
            // The nodes walked before keep what they got: none of them is
            // `node`, and the parent of each was walked before it.
            assert forall|j: int| 0 <= j < i + 1 implies computed@.components.contains_key(
                #[trigger] order@[j],
            ) && computed@.components[order@[j]] == visibility_rule(
                graph,
                asked,
                computed@.components,
                order@[j],
            ) by {
                if graph.parents.contains_key(order@[j]) {
                    let k = choose|k: int| 0 <= k < j && order@[k] == graph.parents[order@[j]];
                    assert(order@[k] != order@[i as int]);
                }
            }
            assert forall|other: Node|
                !(exists|j: int| 0 <= j < i + 1 && order@[j] == other) implies computed@.components.get(
                other,
            ) == before.get(other) by {
                assert(other != node);
                assert(!(exists|j: int| 0 <= j < i && order@[j] == other));
            }
            assert forall|other: Node|
                modified.contains(other) <==> visibility_changed(
                    before,
                    computed@.components,
                ).contains(other) by {
                if other != node {
                    assert(modified_before.contains(other) <==> visibility_changed(
                        before,
                        components_before,
                    ).contains(other));
                }
            }
        }
        i += 1;
    }
    proof {
        assert(order@.take(order@.len() as int) == order@);
        assert forall|node: Node| #[trigger] graph.nodes.contains(node) implies computed@.components.contains_key(
            node,
        ) && computed@.components[node] == visibility_rule(
            graph,
            asked,
            computed@.components,
            node,
        ) by {
            assert(order@.contains(node));
            let j = choose|j: int| 0 <= j < order@.len() && order@[j] == node;
            assert(computed@.components.contains_key(order@[j]));
        }
        assert forall|node: Node| !graph.nodes.contains(node) implies computed@.components.get(node)
            == before.get(node) by {
            if exists|j: int| 0 <= j < order@.len() && order@[j] == node {
                let j = choose|j: int| 0 <= j < order@.len() && order@[j] == node;
                assert(order@.contains(order@[j]));
            }
        }
        assert(modified =~= visibility_changed(before, computed@.components));
    }
}

/// The transform that `node` inherits in `graph`: what its parent carries, or
/// `identity` for a root.
pub open spec fn inherited_transform<W>(
    graph: SceneView,
    carried: Map<Node, W>,
    identity: W,
    node: Node,
) -> W {
    if graph.parents.contains_key(node) {
        carried[graph.parents[node]]
    } else {
        identity
    }
}

/// The nodes whose world transform a pass writes: the live nodes with a local
/// transform.
pub open spec fn transformed<L>(graph: SceneView, locals: Map<Node, L>) -> Set<Node> {
    Set::new(|node: Node| graph.nodes.contains(node) && locals.contains_key(node))
}

/// Whether a pass over `graph` that carries `carried` down the hierarchy takes
/// the world transforms from `before` to `after`, given that it found the
/// world transforms of the nodes of `modified` different from what it wrote.
///
/// A live node with a local transform carries the composition of what it
/// inherits with its local transform.  That becomes its world transform,
/// unless it has one that compares equal, which then stays.  A live node
/// without a local transform carries what it inherits.  No other world
/// transform changes.
pub open spec fn world_transforms_computed<L, W: Component, F: Fn(&W, &L) -> W>(
    graph: SceneView,
    locals: Map<Node, L>,
    before: Map<Node, W>,
    after: Map<Node, W>,
    identity: W,
    compose: F,
    carried: Map<Node, W>,
    modified: Set<Node>,
) -> bool {
    &&& forall|node: Node| #[trigger]
        transformed(graph, locals).contains(node) ==> {
            &&& compose.ensures(
                (&inherited_transform(graph, carried, identity, node), &locals[node]),
                carried[node],
            )
            &&& after.contains_key(node)
            &&& after[node] == (if before.contains_key(node) && !modified.contains(node) {
                before[node]
            } else {
                carried[node]
            })
            &&& W::obeys_eq_spec() && before.contains_key(node) ==> (modified.contains(node)
                <==> !before[node].eq_spec(&carried[node]))
        }
    &&& forall|node: Node| #[trigger]
        graph.nodes.contains(node) && !locals.contains_key(node) ==> carried[node]
            == inherited_transform(graph, carried, identity, node)
    &&& forall|node: Node|
        !transformed(graph, locals).contains(node) ==> after.get(node) == before.get(node)
}

/// Computes the world transform of every node of the scene that has a local
/// transform.
///
/// The walk goes depth first from the roots down and carries a transform:
/// `identity` above the roots.  At a node with a local transform, `compose`
/// makes the node's world transform from the carried one and the local one; it
/// is stored with `set_or_add` and carried on to the children.  A node without
/// a local transform is transparent: its children get what it inherited, and
/// its own world transform, if it has one, is left alone.  The log grows, in
/// the order of the walk, by `Added` for each node that got its first world
/// transform and `Modified` for each node whose world transform compared
/// different from the new one.
pub fn compute_world_transform<L, W, F>(
    scene: &Scene,
    locals: &ComponentTable<L>,
    worlds: &mut ComponentTable<W>,
    identity: W,
    compose: F,
) where L: Component, W: Component + Copy, F: Fn(&W, &L) -> W
    requires
        scene.wf(),
        locals.wf(),
        old(worlds).wf(),
        forall|inherited: &W, local: &L| compose.requires((inherited, local)),
    ensures
        final(worlds).wf(),
        exists|order: Seq<Node>, carried: Map<Node, W>, modified: Set<Node>|
            {
                &&& scene@.is_depth_first(order)
                &&& #[trigger] world_transforms_computed(
                    scene@,
                    locals@.components,
                    old(worlds)@.components,
                    final(worlds)@.components,
                    identity,
                    compose,
                    carried,
                    modified,
                )
                &&& final(worlds)@.events == old(worlds)@.events + #[trigger] pass_log(
                    order,
                    transformed(scene@, locals@.components),
                    old(worlds)@.components,
                    modified,
                )
            },
{
    let ghost graph = scene@;
    let ghost before = worlds@.components;
    let ghost written = transformed(graph, locals@.components);
    let ghost mut carried: Map<Node, W> = Map::empty();
    let ghost mut modified: Set<Node> = Set::empty();
    let mut states: IntMap<usize, W> = IntMap::default();
    let order = scene.depth_first();
    let mut i: usize = 0;
    proof {
        assert(order@.take(0).len() == 0);
        assert(worlds@.events == worlds@.events + Seq::<ComponentEvent>::empty());
    }
    while i < order.len()
        invariant
            i <= order@.len(),
            graph == scene@,
            graph.wf(),
            before == old(worlds)@.components,
            written == transformed(graph, locals@.components),
            locals.wf(),
            worlds.wf(),
            graph.is_depth_first(order@),
            forall|inherited: &W, local: &L| compose.requires((inherited, local)),
            forall|key: usize|
                states@.contains_key(key) <==> exists|j: int| 0 <= j < i && order@[j].id() == key,
            forall|node: Node|
                carried.contains_key(node) <==> exists|j: int| 0 <= j < i && order@[j] == node,
            forall|j: int|
                0 <= j < i ==> states@[(#[trigger] order@[j]).id()] == carried[order@[j]],
            forall|node: Node|
                !(exists|j: int| 0 <= j < i && order@[j] == node) ==> worlds@.components.get(node)
                    == before.get(node),
            forall|node: Node|
                modified.contains(node) ==> exists|j: int| 0 <= j < i && order@[j] == node,
            worlds@.events == old(worlds)@.events + pass_log(
                order@.take(i as int),
                written,
                before,
                modified,
            ),
            forall|j: int|
                0 <= j < i && locals@.components.contains_key(#[trigger] order@[j]) ==> {
                    let node = order@[j];
                    &&& compose.ensures(
                        (&inherited_transform(graph, carried, identity, node), &locals@.components[node]),
                        carried[node],
                    )
                    &&& worlds@.components.contains_key(node)
                    &&& worlds@.components[node] == (if before.contains_key(node)
                        && !modified.contains(node) {
                        before[node]
                    } else {
                        carried[node]
                    })
                    &&& W::obeys_eq_spec() && before.contains_key(node) ==> (modified.contains(node)
                        <==> !before[node].eq_spec(&carried[node]))
                },
            forall|j: int|
                0 <= j < i && !locals@.components.contains_key(#[trigger] order@[j]) ==> {
                    let node = order@[j];
                    &&& carried[node] == inherited_transform(graph, carried, identity, node)
                    &&& worlds@.components.get(node) == before.get(node)
                    &&& !modified.contains(node)
                },
        decreases order@.len() - i,
    {
        let node: Node = order[i];
        let ghost worlds_before = worlds@;
        let ghost carried_before = carried;
        let ghost modified_before = modified;
        let ghost walked = order@.take(i as int);
        proof {
            assert(!(exists|j: int| 0 <= j < i && order@[j] == node));
            assert(worlds_before.components.get(node) == before.get(node));
            assert(order@.contains(node));
            assert(!walked.contains(node)) by {
                if walked.contains(node) {
                    let j = choose|j: int| 0 <= j < walked.len() && walked[j] == node;
                    assert(order@[j] == node);
                }
            }
        }
        let inherited: W = match scene.get_parent(node) {
            Some(parent) => {
                proof {
                    let j = choose|j: int| 0 <= j < i && order@[j] == graph.parents[order@[i as int]];
                    assert(states@.contains_key(order@[j].id()));
                }
                match map_get(&states, parent.key()) {
                    Some(state) => *state,
                    None => identity,
                }
            },
            None => identity,
        };
        proof {
            assert(inherited == inherited_transform(graph, carried_before, identity, node));
        }
        let state: W = match locals.get(node) {
            Some(local) => {
                let world: W = compose(&inherited, local);
                worlds.set_or_add(node, world);
                proof {
                    if worlds_before.components.contains_key(node) {
                        let differs = choose|differs: bool|
                            {
                                &&& #[trigger] worlds@ == worlds_before.set(node, world, differs)
                                &&& W::obeys_eq_spec() ==> differs
                                    == !worlds_before.components[node].eq_spec(&world)
                            };
                        if differs {
                            modified = modified.insert(node);
                            lemma_pass_log_skips(walked, written, before, modified_before, node);
                        }
                    }
                }
                world
            },
            None => inherited,
        };
        let _ = map_insert(&mut states, node.key(), state);
        proof {
            carried = carried.insert(node, state);
            assert(order@.take(i + 1).drop_last() == walked);
            assert(order@.take(i + 1).last() == node);
            assert(worlds@.events =~= old(worlds)@.events + pass_log(
                order@.take(i + 1),
                written,
                before,
                modified,
            ));
            assert forall|key: usize|
                states@.contains_key(key) <==> exists|j: int|
                    0 <= j < i + 1 && order@[j].id() == key by {
                if exists|j: int| 0 <= j < i + 1 && order@[j].id() == key {
                    let j = choose|j: int| 0 <= j < i + 1 && order@[j].id() == key;
                    if j < i {
                        assert(0 <= j < i && order@[j].id() == key);
                    }
                }
                if exists|j: int| 0 <= j < i && order@[j].id() == key {
                    let j = choose|j: int| 0 <= j < i && order@[j].id() == key;
                    assert(0 <= j < i + 1 && order@[j].id() == key);
                }
                if key == node.id() {
                    assert(order@[i as int].id() == key);
                }
            }
            assert forall|other: Node|
                carried.contains_key(other) <==> exists|j: int|
                    0 <= j < i + 1 && order@[j] == other by {
                if exists|j: int| 0 <= j < i + 1 && order@[j] == other {
                    let j = choose|j: int| 0 <= j < i + 1 && order@[j] == other;
                    if j < i {
                        assert(0 <= j < i && order@[j] == other);
                    }
                }
                if exists|j: int| 0 <= j < i && order@[j] == other {
                    let j = choose|j: int| 0 <= j < i && order@[j] == other;
                    assert(0 <= j < i + 1 && order@[j] == other);
                }
                if other == node {
                    assert(order@[i as int] == other);
                }
            }
            assert forall|other: Node|
                !(exists|j: int| 0 <= j < i + 1 && order@[j] == other) implies worlds@.components.get(
                other,
            ) == before.get(other) by {
                assert(other != node);
                assert(!(exists|j: int| 0 <= j < i && order@[j] == other));
            }
            assert forall|other: Node| modified.contains(other) implies exists|j: int|
                0 <= j < i + 1 && order@[j] == other by {
                if other == node {
                    assert(order@[i as int] == other);
                } else {
                    let j = choose|j: int| 0 <= j < i && order@[j] == other;
                    assert(0 <= j < i + 1 && order@[j] == other);
                }
            }
            // What the nodes walked before inherit has not changed: the parent of
            // each was walked before it, and none of them is `node`.
            assert forall|j: int| 0 <= j < i + 1 implies inherited_transform(
                graph,
                carried,
                identity,
                #[trigger] order@[j],
            ) == inherited_transform(graph, carried_before, identity, order@[j]) by {
                if graph.parents.contains_key(order@[j]) {
                    let k = choose|k: int| 0 <= k < j && order@[k] == graph.parents[order@[j]];
                    assert(order@[k] != order@[i as int]);
                }
            }
            assert forall|j: int|
                0 <= j < i + 1 && locals@.components.contains_key(#[trigger] order@[j]) implies {
                let node = order@[j];
                &&& compose.ensures(
                    (&inherited_transform(graph, carried, identity, node), &locals@.components[node]),
                    carried[node],
                )
                &&& worlds@.components.contains_key(node)
                &&& worlds@.components[node] == (if before.contains_key(node) && !modified.contains(
                    node,
                ) {
                    before[node]
                } else {
                    carried[node]
                })
                &&& W::obeys_eq_spec() && before.contains_key(node) ==> (modified.contains(node)
                    <==> !before[node].eq_spec(&carried[node]))
            } by {
                if j < i {
                    assert(order@[j] != order@[i as int]);
                    assert(worlds@.components.get(order@[j]) == worlds_before.components.get(
                        order@[j],
                    ));
                }
            }
            assert forall|j: int|
                0 <= j < i + 1 && !locals@.components.contains_key(#[trigger] order@[j]) implies {
                let node = order@[j];
                &&& carried[node] == inherited_transform(graph, carried, identity, node)
                &&& worlds@.components.get(node) == before.get(node)
                &&& !modified.contains(node)
            } by {
                if j < i {
                    assert(order@[j] != order@[i as int]);
                }
            }
        }
        i += 1;
    }
    proof {
        assert(order@.take(order@.len() as int) == order@);
        assert forall|node: Node| graph.nodes.contains(node) implies exists|j: int|
            0 <= j < order@.len() && #[trigger] order@[j] == node by {
            assert(order@.contains(node));
        }
        assert forall|node: Node| !written.contains(node) implies worlds@.components.get(node)
            == before.get(node) by {
            if graph.nodes.contains(node) {
                let j = choose|j: int| 0 <= j < order@.len() && order@[j] == node;
                assert(!locals@.components.contains_key(order@[j]));
            } else {
                if exists|j: int| 0 <= j < order@.len() && order@[j] == node {
                    let j = choose|j: int| 0 <= j < order@.len() && order@[j] == node;
                    assert(order@.contains(order@[j]));
                }
            }
        }
        assert(world_transforms_computed(
            graph,
            locals@.components,
            before,
            worlds@.components,
            identity,
            compose,
            carried,
            modified,
        ));
    }
}

} // verus!
