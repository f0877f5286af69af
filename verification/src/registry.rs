//! The registry of component types: which slot of a collection of component
//! tables belongs to which component type.
//!
//! A program that keeps tables of unrelated component types in one collection
//! finds the table of a type through this registry.  The registry is the only
//! authority on the binding: a type gets its slot when it is first written, the
//! slot is the next free one, and it never changes afterwards.

use core::any::TypeId;
use vstd::prelude::*;

verus! {

/// `core::any::TypeId`, the identity of a Rust type.  Nothing is claimed of its
/// values but what `same_type` says.
#[verifier::external_type_specification]
#[verifier::external_body]
pub struct ExTypeId(core::any::TypeId);

/// `TypeId`'s `==`: whether the two identities are the same identity.
#[verifier::external_body]
fn same_type(a: &TypeId, b: &TypeId) -> (same: bool)
    ensures
        same == (*a == *b),
{
    a == b
}

/// Binds component types to slots.
pub struct TypeRegistry {
    keys: Vec<TypeId>,
}

impl View for TypeRegistry {
    /// The registered types; each one's position is its slot.
    type V = Seq<TypeId>;

    closed spec fn view(&self) -> Seq<TypeId> {
        self.keys@
    }
}

impl TypeRegistry {
    /// No type is registered twice.
    pub open spec fn wf(&self) -> bool {
        self@.no_duplicates()
    }

    /// The slot of `key`, or `None` if the type is not registered.
    pub open spec fn slot_of(&self, key: TypeId) -> Option<usize> {
        if self@.contains(key) {
            Some(self@.index_of(key) as usize)
        } else {
            None
        }
    }

    /// A registry without types.
    pub fn new() -> (registry: TypeRegistry)
        ensures
            registry.wf(),
            registry@ == Seq::<TypeId>::empty(),
    {
        TypeRegistry { keys: Vec::new() }
    }

    /// The number of registered types, which is the next free slot.
    pub fn len(&self) -> (len: usize)
        ensures
            len == self@.len(),
    {
        self.keys.len()
    }

    /// The slot of `key`, or `None` if the type is not registered.  Looking a
    /// type up never registers it.
    pub fn slot(&self, key: &TypeId) -> (slot: Option<usize>)
        requires
            self.wf(),
        ensures
            slot == self.slot_of(*key),
            slot matches Some(index) ==> index < self@.len() && self@[index as int] == *key,
    {
        let mut i: usize = 0;
        while i < self.keys.len()
            invariant
                i <= self@.len(),
                self.wf(),
                forall|j: int| 0 <= j < i ==> self@[j] != *key,
            decreases self@.len() - i,
        {
            if same_type(&self.keys[i], key) {
                proof {
                    assert(self@.contains(*key));
                    assert(self@.index_of(*key) == i);
                }
                return Some(i);
            }
            i += 1;
        }
        None
    }

    /// The slot of `key`, which is registered first if it was not yet: it then
    /// gets the next free slot, and the second result is `true`.  The slots of
    /// the types registered before stay as they are.
    pub fn register(&mut self, key: TypeId) -> (result: (usize, bool))
        requires
            old(self).wf(),
        ensures
            final(self).wf(),
            final(self).slot_of(key) == Some(result.0),
            result.1 == !old(self)@.contains(key),
            final(self)@ == (if result.1 {
                old(self)@.push(key)
            } else {
                old(self)@
            }),
            result.1 ==> result.0 == old(self)@.len(),
            forall|other: TypeId|
                old(self)@.contains(other) ==> final(self).slot_of(other) == old(self).slot_of(
                    other,
                ),
    {
        match self.slot(&key) {
            Some(index) => (index, false),
            None => {
                let index: usize = self.keys.len();
                self.keys.push(key);
                proof {
                    assert(self@[index as int] == key);
                    assert(self@.contains(key));
                    assert(self@.index_of(key) == index);
                    assert forall|other: TypeId| old(self)@.contains(other) implies self.slot_of(
                        other,
                    ) == old(self).slot_of(other) by {
                        let at = old(self)@.index_of(other);
                        assert(self@[at] == other);
                        assert(self@.contains(other));
                        assert(self@.index_of(other) == at);
                    }
                }
                (index, true)
            },
        }
    }
}

} // verus!
