//! The live counterpart of a host element.
use crate::element::DomNode;
use crate::flat_tree::{NodeChildren, NodeKey};
use vstd::prelude::*;

verus! {

/// A live host node: the payload it shows and the keys of its children.
pub struct HostNode<H> {
    pub element: H,
    pub children: NodeChildren,
}

/// A host node with its children as a sequence.
pub ghost struct HostNodeView<H> {
    pub element: H,
    pub children: Seq<NodeKey>,
}

impl<H> View for HostNode<H> {
    type V = HostNodeView<H>;

    open spec fn view(&self) -> HostNodeView<H> {
        HostNodeView { element: self.element, children: self.children@ }
    }
}

impl<H> HostNode<H> {
    /// The node for `element`, over `children`.
    pub fn mount(element: H, children: NodeChildren) -> (node: HostNode<H>)
        ensures
            node@ == (HostNodeView { element, children: children@ }),
    {
        HostNode { element, children }
    }

    /// Materializes the node from the outputs of the host nodes directly
    /// below it. A host node always has an output.
    pub fn render<'a, Dom: DomNode<'a, Widget = H>>(&'a self, children: Vec<Dom>) -> (out: Option<
        Dom,
    >)
        ensures
            out == Some(Dom::spec_new_dom_node(self.element, children@)),
    {
        Some(Dom::new_dom_node(&self.element, children))
    }
}

} // verus!
