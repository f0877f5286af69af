//! A minimal entity-component runtime: node identities, typed component tables
//! with a change log, a scene graph with a parent/child hierarchy, and systems
//! that derive components from components once per frame.
//!
//! - `node`: identities and the allocator that issues them.
//! - `table`: the components of one type, stored densely, with their log.
//! - `graph`: the scene graph as sets, maps and sequences, with its invariant,
//!   its transitions and the facts proved of them.
//! - `scene`: the scene graph as a data structure, and the component calls that
//!   take only live nodes.
//! - `traversal`: the depth-first walk.
//! - `systems`: visibility and world-transform propagation.
//! - `components`: the visibility components.
//! - `registry`: which slot of a table collection belongs to which type.
//! - `app`: what an application and its host loop tell each other.
//! - `index`: the integer-keyed hash collections underneath, taken on trust.
//! - `sequences`: stacks, and facts about sequences.

pub mod app;
pub mod components;
pub mod graph;
pub mod index;
pub mod node;
pub mod registry;
pub mod scene;
pub mod sequences;
pub mod systems;
pub mod table;
pub mod traversal;

pub use crate::app::ApplicationState;
pub use crate::app::Event;
pub use crate::app::Host;
pub use crate::app::Outcome;
pub use crate::app::Signal;
pub use crate::app::Step;
pub use crate::components::ComputedVisibility;
pub use crate::components::Visibility;
pub use crate::node::Node;
pub use crate::node::NodeAllocator;
pub use crate::registry::TypeRegistry;
pub use crate::scene::Scene;
pub use crate::table::Component;
pub use crate::table::ComponentEvent;
pub use crate::table::ComponentTable;
