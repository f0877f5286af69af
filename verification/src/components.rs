//! The visibility components: what a node asks for, and what it gets once its
//! ancestors have been taken into account.

use crate::table::Component;
use vstd::prelude::*;
use vstd::std_specs::cmp::PartialEqSpecImpl;

verus! {

/// The visibility that a node asks for.
#[derive(Copy, Clone, Debug, Eq)]
pub enum Visibility {
    /// The node is as visible as its parent.
    Inherit,
    /// The node is visible.
    Visible,
    /// The node is not visible.
    Invisible,
}

/// The visibility that a node has, once inheritance is resolved.
#[derive(Copy, Clone, Debug, Eq)]
pub enum ComputedVisibility {
    /// The node is visible.
    Visible,
    /// The node is not visible.
    Invisible,
}

impl PartialEq for Visibility {
    fn eq(&self, other: &Visibility) -> (equal: bool) {
        match (self, other) {
            (Visibility::Inherit, Visibility::Inherit) => true,
            (Visibility::Visible, Visibility::Visible) => true,
            (Visibility::Invisible, Visibility::Invisible) => true,
            _ => false,
        }
    }
}

impl PartialEqSpecImpl for Visibility {
    open spec fn obeys_eq_spec() -> bool {
        true
    }

    open spec fn eq_spec(&self, other: &Visibility) -> bool {
        *self == *other
    }
}

impl PartialEq for ComputedVisibility {
    fn eq(&self, other: &ComputedVisibility) -> (equal: bool) {
        match (self, other) {
            (ComputedVisibility::Visible, ComputedVisibility::Visible) => true,
            (ComputedVisibility::Invisible, ComputedVisibility::Invisible) => true,
            _ => false,
        }
    }
}

impl PartialEqSpecImpl for ComputedVisibility {
    open spec fn obeys_eq_spec() -> bool {
        true
    }

    open spec fn eq_spec(&self, other: &ComputedVisibility) -> bool {
        *self == *other
    }
}

impl Default for Visibility {
    /// A node inherits unless it says otherwise.
    fn default() -> (visibility: Visibility)
        ensures
            visibility == Visibility::Inherit,
    {
        Visibility::Inherit
    }
}

impl Component for Visibility {

}

impl Component for ComputedVisibility {

}

impl ComputedVisibility {
    /// The visibility of a node that asks for `own` (`None`: it asks for
    /// nothing) under a parent with the visibility `inherited`: an explicit
    /// choice overrides, anything else passes the parent's visibility on.
    pub open spec fn resolved(
        own: Option<Visibility>,
        inherited: ComputedVisibility,
    ) -> ComputedVisibility {
        match own {
            Some(Visibility::Visible) => ComputedVisibility::Visible,
            Some(Visibility::Invisible) => ComputedVisibility::Invisible,
            Some(Visibility::Inherit) => inherited,
            None => inherited,
        }
    }

    /// Resolves the visibility of one node from what it asks for and what its
    /// parent has.
    pub fn resolve(
        own: Option<&Visibility>,
        inherited: ComputedVisibility,
    ) -> (visibility: ComputedVisibility)
        ensures
            visibility == ComputedVisibility::resolved(
                match own {
                    Some(asked) => Some(*asked),
                    None => None,
                },
                inherited,
            ),
    {
        match own {
            Some(Visibility::Visible) => ComputedVisibility::Visible,
            Some(Visibility::Invisible) => ComputedVisibility::Invisible,
            Some(Visibility::Inherit) => inherited,
            None => inherited,
        }
    }
}

} // verus!
