//! Node identities and the allocator that issues them.

use vstd::prelude::*;

verus! {

/// An opaque identity for one entity of a scene graph.
///
/// A node carries no meaning besides being different from every other node that
/// the same allocator has issued.  Nodes are compared, ordered and hashed by
/// their raw value.
#[derive(Copy, Clone, Debug, PartialEq, Eq, Structural, PartialOrd, Ord, Hash)]
pub struct Node {
    id: usize,
}

/// Issues node identities in increasing order, each one exactly once.
///
/// One allocator may serve any number of scenes; identities are unique among
/// everything that this allocator has issued, whichever scene they went to and
/// whether or not they are still alive.
#[derive(Debug)]
pub struct NodeAllocator {
    next: usize,
}

impl Node {
    /// The raw value of the identity.
    pub closed spec fn id(self) -> usize {
        self.id
    }

    /// The identity with the given raw value.
    pub closed spec fn with_id(id: usize) -> Node {
        Node { id }
    }

    /// Issues a fresh identity from `allocator`.
    ///
    /// The identity is the next one in the allocator's order: it has not been
    /// issued before, and it is greater than every identity issued before.
    pub fn new(allocator: &mut NodeAllocator) -> (node: Node)
        requires
            !old(allocator).exhausted(),
        ensures
            node.id() == old(allocator).next_id(),
            final(allocator).next_id() == old(allocator).next_id() + 1,
            !old(allocator).issued(node),
            final(allocator).issued(node),
    {
        allocator.allocate()
    }

    /// The raw value of the identity, by which the collections find a node.
    pub(crate) fn key(&self) -> (key: usize)
        ensures
            key == self.id(),
    {
        self.id
    }

    /// The identity that a collection holds under `key`.
    pub(crate) fn from_key(key: usize) -> (node: Node)
        ensures
            node == Node::with_id(key),
            node.id() == key,
    {
        Node { id: key }
    }

    /// Two nodes with the same raw value are the same node.
    pub broadcast proof fn lemma_id_injective(a: Node, b: Node)
        requires
            #[trigger] a.id() == #[trigger] b.id(),
        ensures
            a == b,
    {
    }

    /// `with_id` and `id` are inverse to each other.
    pub broadcast proof fn lemma_with_id(id: usize)
        ensures
            (#[trigger] Node::with_id(id)).id() == id,
    {
    }

    /// Every node is the node with its own raw value.
    pub broadcast proof fn lemma_id_with_id(node: Node)
        ensures
            Node::with_id(#[trigger] node.id()) == node,
    {
    }
}

impl NodeAllocator {
    /// Identities start at 1.
    #[verifier::type_invariant]
    spec fn well_formed(&self) -> bool {
        self.next >= 1
    }

    /// The raw value of the identity that will be issued next.
    pub closed spec fn next_id(&self) -> int {
        self.next as int
    }

    /// Whether this allocator has issued `node`: every identity below the next
    /// one has been issued, and no other.
    pub open spec fn issued(&self, node: Node) -> bool {
        1 <= node.id() < self.next_id()
    }

    /// Whether the allocator has run out of identities.
    pub open spec fn exhausted(&self) -> bool {
        self.next_id() >= usize::MAX
    }

    /// Whether `later` is a state that this allocator can be in after zero or
    /// more further allocations.
    pub open spec fn precedes(&self, later: &NodeAllocator) -> bool {
        self.next_id() <= later.next_id()
    }

    /// Whether one allocation takes the allocator from `self` to `after` and
    /// issues `node`.
    pub open spec fn allocates(&self, after: &NodeAllocator, node: Node) -> bool {
        &&& !self.exhausted()
        &&& node.id() == self.next_id()
        &&& after.next_id() == self.next_id() + 1
    }

    /// An allocator that has issued nothing yet.  The first identity is 1.
    pub fn new() -> (allocator: NodeAllocator)
        ensures
            allocator.next_id() == 1,
            !allocator.exhausted(),
            forall|node: Node| !allocator.issued(node),
    {
        NodeAllocator { next: 1 }
    }

    /// Whether the allocator has run out of identities.  `allocate` must not be
    /// called on an exhausted allocator.
    pub fn is_exhausted(&self) -> (exhausted: bool)
        ensures
            exhausted == self.exhausted(),
    {
        self.next >= usize::MAX
    }

    /// Issues the next identity.
    ///
    /// The identity has not been issued before, it is greater than every
    /// identity issued before, and it counts as issued from now on.
    pub fn allocate(&mut self) -> (node: Node)
        requires
            !old(self).exhausted(),
        ensures
            old(self).allocates(final(self), node),
            !old(self).issued(node),
            final(self).issued(node),
            forall|other: Node|
                old(self).issued(other) ==> final(self).issued(other) && other.id() < node.id(),
    {
        proof {
            use_type_invariant(&*self);
        }
        let id: usize = self.next;
        self.next = id + 1;
        Node { id }
    }

    /// Identity uniqueness: two identities that one allocator issues are never
    /// equal, whatever happened between the two allocations; the later one is
    /// the greater.
    pub proof fn lemma_allocations_differ(
        before_first: NodeAllocator,
        after_first: NodeAllocator,
        first: Node,
        before_second: NodeAllocator,
        after_second: NodeAllocator,
        second: Node,
    )
        requires
            before_first.allocates(&after_first, first),
            after_first.precedes(&before_second),
            before_second.allocates(&after_second, second),
        ensures
            first != second,
            first.id() < second.id(),
    {
    }
}

} // verus!
