//! Component tables: dense storage for the components of one type, found by
//! node, with a log of the changes made since the log was last cleared.

use crate::index::map_get;
use crate::index::map_insert;
use crate::index::map_remove;
use crate::node::Node;
use nohash::IntMap;
use vstd::prelude::*;
use vstd::std_specs::cmp::PartialEqSpec;

verus! {

broadcast use {Node::lemma_id_injective, Node::lemma_with_id, Node::lemma_id_with_id};

/// A value that can be attached to a node.  The storage asks nothing of it but
/// that it can be compared and duplicated.
pub trait Component: Clone + PartialEq {

}

impl Component for bool {

}

impl Component for u8 {

}

impl Component for u16 {

}

impl Component for u32 {

}

impl Component for u64 {

}

impl Component for usize {

}

impl Component for i8 {

}

impl Component for i16 {

}

impl Component for i32 {

}

impl Component for i64 {

}

impl Component for isize {

}

/// One change to a component table.
#[derive(Copy, Clone, Debug, PartialEq, Eq, Structural)]
pub enum ComponentEvent {
    /// A component was added to the node.
    Added(Node),
    /// The node's component was given a different value.
    Modified(Node),
    /// The node's component was removed.
    Removed(Node),
}

impl ComponentEvent {
    /// The node that the event is about.
    pub open spec fn node(self) -> Node {
        match self {
            ComponentEvent::Added(node) => node,
            ComponentEvent::Modified(node) => node,
            ComponentEvent::Removed(node) => node,
        }
    }
}

/// What a component table holds: the component of each node that has one, and
/// the changes logged so far, oldest first.
pub struct TableView<T> {
    pub components: Map<Node, T>,
    pub events: Seq<ComponentEvent>,
}

/// The components of one type, stored densely.
///
/// `node_indexes` binds each node that has a component to its slot; `owners` and
/// `items` hold, slot by slot, the node and its value.
pub struct ComponentTable<T> {
    node_indexes: IntMap<usize, usize>,
    owners: Vec<Node>,
    items: Vec<T>,
    events: Vec<ComponentEvent>,
}

impl<T: Component> View for ComponentTable<T> {
    type V = TableView<T>;

    closed spec fn view(&self) -> TableView<T> {
        TableView {
            components: Map::new(
                |node: Node| self.node_indexes@.contains_key(node.id()),
                |node: Node| self.items@[self.node_indexes@[node.id()] as int],
            ),
            events: self.events@,
        }
    }
}

impl<T: Component> TableView<T> {
    /// The table after `set(node, value)`, where `differs` says whether the
    /// comparison found the stored value different from `value`.
    pub open spec fn set(self, node: Node, value: T, differs: bool) -> TableView<T> {
        if self.components.contains_key(node) && differs {
            TableView {
                components: self.components.insert(node, value),
                events: self.events.push(ComponentEvent::Modified(node)),
            }
        } else {
            self
        }
    }

    /// The table after `add(node, value)`: the first write wins.
    pub open spec fn add(self, node: Node, value: T) -> TableView<T> {
        if self.components.contains_key(node) {
            self
        } else {
            TableView {
                components: self.components.insert(node, value),
                events: self.events.push(ComponentEvent::Added(node)),
            }
        }
    }

    /// The table after the nodes of `nodes` were removed one after the other,
    /// first to last.
    pub open spec fn remove_all(self, nodes: Seq<Node>) -> TableView<T>
        decreases nodes.len(),
    {
        if nodes.len() == 0 {
            self
        } else {
            self.remove_all(nodes.drop_last()).remove(nodes.last())
        }
    }

    /// The table after `remove(node)`.
    pub open spec fn remove(self, node: Node) -> TableView<T> {
        if self.components.contains_key(node) {
            TableView {
                components: self.components.remove(node),
                events: self.events.push(ComponentEvent::Removed(node)),
            }
        } else {
            self
        }
    }
}

impl<T: Component> TableView<T> {
    /// After `remove_all(nodes)` the nodes of `nodes` have no component, and
    /// every other node has the component that it had.
    pub proof fn lemma_remove_all(self, nodes: Seq<Node>)
        ensures
            self.remove_all(nodes).components == self.components.remove_keys(nodes.to_set()),
        decreases nodes.len(),
    {
        if nodes.len() == 0 {
            assert(self.components =~= self.components.remove_keys(nodes.to_set()));
        } else {
            self.lemma_remove_all(nodes.drop_last());
            let shorter = self.remove_all(nodes.drop_last());
            assert(nodes.to_set() =~= nodes.drop_last().to_set().insert(nodes.last())) by {
                assert forall|node: Node| nodes.contains(node) <==> nodes.drop_last().contains(node)
                    || node == nodes.last() by {
                    if nodes.contains(node) {
                        let at = choose|at: int| 0 <= at < nodes.len() && nodes[at] == node;
                        if at < nodes.len() - 1 {
                            assert(nodes.drop_last()[at] == node);
                        }
                    }
                    if nodes.drop_last().contains(node) {
                        let at = choose|at: int|
                            0 <= at < nodes.drop_last().len() && nodes.drop_last()[at] == node;
                        assert(nodes[at] == node);
                    }
                    if node == nodes.last() {
                        assert(nodes[nodes.len() - 1] == node);
                    }
                }
            }
            assert(shorter.remove(nodes.last()).components =~= self.components.remove_keys(
                nodes.to_set(),
            ));
        }
    }
}

impl<T: Component> ComponentTable<T> {
    /// The dense storage and the index describe each other: slot `i` belongs to
    /// `owners[i]`, whose index entry is `i`, and every index entry points at a
    /// slot that belongs to its key.
    pub closed spec fn wf(&self) -> bool {
        &&& self.owners@.len() == self.items@.len()
        &&& forall|i: int|
            0 <= i < self.owners@.len() ==> {
                &&& self.node_indexes@.contains_key(#[trigger] self.owners@[i].id())
                &&& self.node_indexes@[self.owners@[i].id()] == i
            }
        &&& forall|key: usize| #[trigger]
            self.node_indexes@.contains_key(key) ==> {
                &&& self.node_indexes@[key] < self.owners@.len()
                &&& self.owners@[self.node_indexes@[key] as int].id() == key
            }
    }

    /// An empty table with an empty log.
    pub fn new() -> (table: Self)
        ensures
            table.wf(),
            table@.components == Map::<Node, T>::empty(),
            table@.events == Seq::<ComponentEvent>::empty(),
    {
        let table = ComponentTable {
            node_indexes: IntMap::default(),
            owners: Vec::new(),
            items: Vec::new(),
            events: Vec::new(),
        };
        assert(table@.components =~= Map::<Node, T>::empty());
        table
    }

    /// Whether `node` has a component in this table.
    pub fn contains(&self, node: Node) -> (found: bool)
        ensures
            found == self@.components.contains_key(node),
    {
        map_get(&self.node_indexes, node.key()).is_some()
    }

    /// Gives `node` the component `value`, unless it already has one: the first
    /// write wins.  A first insertion is logged as `Added(node)`.
    pub fn add(&mut self, node: Node, value: T)
        requires
            old(self).wf(),
        ensures
            final(self).wf(),
            final(self)@ == old(self)@.add(node, value),
    {
        if map_get(&self.node_indexes, node.key()).is_none() {
            let index: usize = self.items.len();
            let _ = map_insert(&mut self.node_indexes, node.key(), index);
            self.owners.push(node);
            self.items.push(value);
            self.events.push(ComponentEvent::Added(node));
            assert(self@.components =~= old(self)@.components.insert(node, value));
        }
    }

    /// The component of `node`, if it has one.
    pub fn get(&self, node: Node) -> (value: Option<&T>)
        requires
            self.wf(),
        ensures
            value == (if self@.components.contains_key(node) {
                Some(&self@.components[node])
            } else {
                None
            }),
    {
        match map_get(&self.node_indexes, node.key()) {
            Some(index) => Some(&self.items[*index]),
            None => None,
        }
    }

    /// Overwrites the component of `node` with `value`, if the node has a
    /// component and `value` compares different from it; that is logged as
    /// `Modified(node)`.  Otherwise nothing happens.
    ///
    /// The comparison is the component type's own `!=`.  Where that operator is
    /// specified (`T::obeys_eq_spec()`), it decides by `eq_spec`.
    pub fn set(&mut self, node: Node, value: T)
        requires
            old(self).wf(),
        ensures
            final(self).wf(),
            exists|differs: bool|
                {
                    &&& #[trigger] final(self)@ == old(self)@.set(node, value, differs)
                    &&& T::obeys_eq_spec() && old(self)@.components.contains_key(node) ==> differs
                        == !old(self)@.components[node].eq_spec(&value)
                },
    {
        match map_get(&self.node_indexes, node.key()) {
            Some(index) => {
                let index: usize = *index;
                let differs = self.items[index] != value;
                if differs {
                    self.items.set(index, value);
                    self.events.push(ComponentEvent::Modified(node));
                    assert(self@.components =~= old(self)@.components.insert(node, value));
                }
                assert(self@ == old(self)@.set(node, value, differs));
            },
            None => {
                assert(self@ == old(self)@.set(node, value, false));
            },
        }
    }

    /// Inserts or updates: a node without a component gets `value`, logged as
    /// `Added(node)`; a node with one is treated as by `set`.
    pub fn set_or_add(&mut self, node: Node, value: T)
        requires
            old(self).wf(),
        ensures
            final(self).wf(),
            !old(self)@.components.contains_key(node) ==> final(self)@ == old(self)@.add(node, value),
            old(self)@.components.contains_key(node) ==> exists|differs: bool|
                {
                    &&& #[trigger] final(self)@ == old(self)@.set(node, value, differs)
                    &&& T::obeys_eq_spec() ==> differs == !old(self)@.components[node].eq_spec(
                        &value,
                    )
                },
    {
        if map_get(&self.node_indexes, node.key()).is_some() {
            self.set(node, value);
        } else {
            self.add(node, value);
        }
    }

    /// Takes the component of `node` away, if it has one; that is logged as
    /// `Removed(node)`.  The last slot's contents move into the freed slot, and
    /// the index entry of the node that owned the last slot follows them.
    pub fn remove(&mut self, node: Node)
        requires
            old(self).wf(),
        ensures
            final(self).wf(),
            final(self)@ == old(self)@.remove(node),
    {
        match map_remove(&mut self.node_indexes, node.key()) {
            Some(index) => {
                self.events.push(ComponentEvent::Removed(node));
                let _ = self.items.swap_remove(index);
                let _ = self.owners.swap_remove(index);
                let moved_index: usize = self.items.len();
                if moved_index != index {
                    let moved: Node = self.owners[index];
                    let _ = map_insert(&mut self.node_indexes, moved.key(), index);
                }
                assert(self@.components =~= old(self)@.components.remove(node));
            },
            None => {
                assert(self@.components =~= old(self)@.components);
            },
        }
    }

    /// Takes away the component of every node in `nodes`, first to last, as by
    /// `remove`.  This is how a table follows a despawn.
    pub fn remove_all(&mut self, nodes: &[Node])
        requires
            old(self).wf(),
        ensures
            final(self).wf(),
            final(self)@ == old(self)@.remove_all(nodes@),
    {
        let mut i: usize = 0;
        while i < nodes.len()
            invariant
                i <= nodes@.len(),
                self.wf(),
                self@ == old(self)@.remove_all(nodes@.subrange(0, i as int)),
            decreases nodes@.len() - i,
        {
            self.remove(nodes[i]);
            proof {
                assert(nodes@.subrange(0, i + 1).drop_last() == nodes@.subrange(0, i as int));
            }
            i += 1;
        }
        proof {
            assert(nodes@.subrange(0, nodes@.len() as int) == nodes@);
        }
    }

    /// The changes logged since the log was last cleared, oldest first.
    pub fn events(&self) -> (events: &[ComponentEvent])
        ensures
            events@ == self@.events,
    {
        self.events.as_slice()
    }

    /// Empties the log.  The components stay as they are.
    pub fn clear_events(&mut self)
        requires
            old(self).wf(),
        ensures
            final(self).wf(),
            final(self)@.components == old(self)@.components,
            final(self)@.events == Seq::<ComponentEvent>::empty(),
    {
        self.events.clear();
    }
}

} // verus!
