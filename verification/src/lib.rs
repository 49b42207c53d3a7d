//! A host-agnostic virtual-tree reconciler.
//!
//! Callers describe a hierarchy as a tree of [`Element`]s. A [`VirtualTree`]
//! turns successive element trees into a persistent store of live nodes: it
//! keeps the identity and the state of a component wherever the old node
//! and the new element agree in kind, diffs children strictly by position,
//! and leaves a subtree alone whose host payload has not changed.
//!
//! Live components ask for changes of their own state through a
//! [`StateUpdater`]. Such a change is queued, and applied at the next
//! flush or just before the next update of the whole tree.
//!
//! The embedder supplies the payloads ([`HostElement`]), the components
//! ([`Component`]) and the output that a tree is materialized into
//! ([`DomNode`]).
pub mod component;
pub mod element;
pub mod flat_tree;
pub mod reconciler;

pub use component::{Component, CreateContext, RenderContext};
pub use element::{DomNode, Element, HostElement, StatefulElement};
pub use flat_tree::{FlatTree, GetNodeChildren, NodeChildren, NodeKey};
pub use reconciler::{
    GenericStateUpdater, HostNode, LifecycleEvent, QueuedUpdate, Reconciler, StateChange,
    StateUpdater, StatefulNode, UpdateQueue, VirtualNode, VirtualTree,
};
