//! The node store: live nodes keyed by generated keys, with the edges from
//! each node to its children, and the traversals that build, diff, fold and
//! tear down a tree of them.
//!
//! This module holds what a user of the store supplies: items that carry
//! their children, and the handlers and visitors that the traversals call.
//! [`model`] says what each traversal computes, [`store`] computes it, and
//! [`laws`] holds what follows for every handler.
use vstd::prelude::*;

pub mod laws;
pub mod model;
pub mod shape;
pub mod store;

pub use self::model::{
    build_each, build_list, build_node, diff_children, empty_stage, fold_list, fold_mut_list,
    fold_mut_node, fold_node, following, room, unbuild_list, unbuild_node, update_list,
    update_node, update_root, Stage,
};
pub use self::store::FlatTree;

verus! {

/// The locator of a live node. Keys are issued in increasing order and never
/// issued twice.
#[derive(Clone, Copy, PartialEq, Eq, Structural, Hash, Debug)]
pub struct NodeKey {
    pub index: usize,
}

impl NodeKey {
    /// The key with the index `index`.
    pub(crate) fn new(index: usize) -> (key: NodeKey)
        ensures
            key.index == index,
    {
        NodeKey { index }
    }
}

/// The ordered list of a node's child keys.
pub struct NodeChildren {
    pub children: Vec<NodeKey>,
}

impl View for NodeChildren {
    type V = Seq<NodeKey>;

    open spec fn view(&self) -> Seq<NodeKey> {
        self.children@
    }
}

impl NodeChildren {
    /// The empty list.
    pub fn new() -> (list: NodeChildren)
        ensures
            list@ == Seq::<NodeKey>::empty(),
    {
        NodeChildren { children: Vec::new() }
    }
}

/// What the store needs of an item: it carries the list of its children.
pub trait GetNodeChildren: View + Sized {
    /// The child keys that an item with this view holds.
    closed spec fn children_of(item: Self::V) -> Seq<NodeKey> {
        arbitrary()
    }

    /// The view of the item after its child keys have been replaced.
    closed spec fn with_children(item: Self::V, children: Seq<NodeKey>) -> Self::V {
        arbitrary()
    }

    /// The children of the item.
    fn get_children(&self) -> (list: &NodeChildren)
        ensures
            list@ == Self::children_of(self@),
    ;

    /// Gives the item other children, and changes nothing else of it.
    fn set_children(&mut self, children: NodeChildren)
        ensures
            final(self)@ == Self::with_children(old(self)@, children@),
            Self::children_of(final(self)@) == children@,
    ;
}

/// What a handler answers when a live item is offered a new value.
pub enum Update<Item, Value> {
    /// The item stays as it is, with the children it has: the diff stops here.
    Unchanged(Item),
    /// The item took the value; its children are diffed against these seeds.
    Changed(Item, Vec<Value>),
    /// The item cannot take the value: it is handed back to be torn down, and
    /// the value is mounted in its place.
    Replaced(Item, Value),
}

/// An [`Update`] with its seeds as a sequence.
pub ghost enum UpdateView<I, V> {
    Unchanged(I),
    Changed(I, Seq<V>),
    Replaced(I, V),
}

impl<Item: View, Value: DeepView> View for Update<Item, Value> {
    type V = UpdateView<Item::V, Value::V>;

    open spec fn view(&self) -> Self::V {
        match self {
            Update::Unchanged(item) => UpdateView::Unchanged(item@),
            Update::Changed(item, seeds) => UpdateView::Changed(item@, seeds.deep_view()),
            Update::Replaced(item, value) => UpdateView::Replaced(item@, value.deep_view()),
        }
    }
}

/// The callbacks of a tree's life: how a value becomes an item, how a live
/// item takes a new value, and what happens when an item leaves the store.
/// The handler is threaded through every call, so whatever it accumulates
/// records the order of the calls.
pub trait NodeLifecycle<Item: GetNodeChildren>: Sized {
    type Value: DeepView;

    /// A measure that strictly decreases from a value to each seed that
    /// mounting it yields.
    closed spec fn depth(value: <Self::Value as DeepView>::V) -> nat {
        arbitrary()
    }

    /// What `mount` makes of the handler, and gives.
    closed spec fn spec_mount(self, value: <Self::Value as DeepView>::V, key: NodeKey) -> (
        Self,
        Item::V,
        Seq<<Self::Value as DeepView>::V>,
    ) {
        arbitrary()
    }

    /// What `mounted` makes of the handler and of the item.
    closed spec fn spec_mounted(self, item: Item::V, key: NodeKey) -> (Self, Item::V) {
        arbitrary()
    }

    /// What `update` makes of the handler, and gives.
    closed spec fn spec_update(
        self,
        item: Item::V,
        value: <Self::Value as DeepView>::V,
        key: NodeKey,
    ) -> (Self, UpdateView<Item::V, <Self::Value as DeepView>::V>) {
        arbitrary()
    }

    /// What `unmount` makes of the handler.
    closed spec fn spec_unmount(self, item: Item::V, key: NodeKey) -> Self {
        arbitrary()
    }

    /// Makes the item for `value` under `key`, and the seeds of its children.
    fn mount(&mut self, value: Self::Value, key: NodeKey) -> (r: (Item, Vec<Self::Value>))
        ensures
            (*final(self), r.0@, r.1.deep_view()) == old(self).spec_mount(value.deep_view(), key),
            forall|i: int|
                0 <= i < r.1.deep_view().len() ==> Self::depth(#[trigger] r.1.deep_view()[i])
                    < Self::depth(value.deep_view()),
    ;

    /// Called on a fresh item once all its children are in the store.
    fn mounted(&mut self, item: &mut Item, key: NodeKey)
        ensures
            (*final(self), final(item)@) == old(self).spec_mounted(old(item)@, key),
            Item::children_of(final(item)@) == Item::children_of(old(item)@),
    ;

    /// Offers `value` to the live `item`.
    fn update(&mut self, item: Item, value: Self::Value, key: NodeKey) -> (r: Update<
        Item,
        Self::Value,
    >)
        ensures
            (*final(self), r@) == old(self).spec_update(item@, value.deep_view(), key),
    ;

    /// Called on an item that has left the store, after all its children.
    fn unmount(&mut self, item: Item, key: NodeKey)
        ensures
            *final(self) == old(self).spec_unmount(item@, key),
    ;
}

/// A read-only fold over a tree: each node is visited after its children,
/// with what the visits of its children gave.
pub trait NodeVisitor<'a, Item: View + 'a>: Sized {
    type Output: View;

    /// What `visit` gives.
    closed spec fn spec_visit(
        &self,
        item: Item::V,
        children: Seq<<Self::Output as View>::V>,
    ) -> <Self::Output as View>::V {
        arbitrary()
    }

    /// Visits `item`, after its children; `children` holds what the
    /// visits of those of them that are live gave, in order.
    fn visit(&self, item: &'a Item, children: Vec<Self::Output>) -> (out: Self::Output)
        ensures
            out@ == self.spec_visit(item@, children@.map_values(|o: Self::Output| o@)),
    ;
}

/// A fold over a tree that may change the nodes it visits: each node is
/// visited after its children, with what the visits of its children gave.
/// The visitor is threaded through the visits.
pub trait NodeVisitorMut<Item: View>: Sized {
    type Output: View;

    /// What `visit_mut` makes of the visitor and of the item, and gives.
    closed spec fn spec_visit_mut(
        self,
        item: Item::V,
        children: Seq<<Self::Output as View>::V>,
        key: NodeKey,
    ) -> (Self, Item::V, <Self::Output as View>::V) {
        arbitrary()
    }

    /// Visits `item`, after its children; `children` holds what the
    /// visits of those of them that are live gave, in order.
    fn visit_mut(&mut self, item: &mut Item, children: Vec<Self::Output>, key: NodeKey) -> (out:
        Self::Output)
        ensures
            (*final(self), final(item)@, out@) == old(self).spec_visit_mut(
                old(item)@,
                children@.map_values(|o: Self::Output| o@),
                key,
            ),
    ;
}

} // verus!
