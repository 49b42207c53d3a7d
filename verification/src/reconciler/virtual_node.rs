//! Live nodes of the three kinds, and what each does when it is mounted,
//! offered a new element, materialized or torn down.
use crate::component::Component;
use crate::element::{
    lemma_deep_view_of_list, DomNode, Element, ElementView, HostElement, StatefulElement,
};
use crate::flat_tree::{GetNodeChildren, NodeChildren, NodeKey, Update, UpdateView};
use crate::reconciler::host_node::{HostNode, HostNodeView};
use crate::reconciler::stateful_node::{StatefulNode, StatefulNodeView};
use crate::reconciler::{GenericStateUpdater, StateUpdater};
use vstd::prelude::*;

verus! {

/// A live node, owned by the store.
pub enum VirtualNode<H: HostElement, C: Component<H>> {
    Host(HostNode<H>),
    Stateful(StatefulNode<H, C>),
    Fragment(NodeChildren),
}

/// A live node with its children as a sequence.
pub ghost enum VirtualNodeView<H: HostElement, C: Component<H>> {
    Host(HostNodeView<H>),
    Stateful(StatefulNodeView<H, C>),
    Fragment(Seq<NodeKey>),
}

impl<H: HostElement, C: Component<H>> View for VirtualNode<H, C> {
    type V = VirtualNodeView<H, C>;

    open spec fn view(&self) -> VirtualNodeView<H, C> {
        match self {
            VirtualNode::Host(node) => VirtualNodeView::Host(node@),
            VirtualNode::Stateful(node) => VirtualNodeView::Stateful(node@),
            VirtualNode::Fragment(children) => VirtualNodeView::Fragment(children@),
        }
    }
}

impl<H: HostElement, C: Component<H>> GetNodeChildren for VirtualNode<H, C> {
    open spec fn children_of(item: VirtualNodeView<H, C>) -> Seq<NodeKey> {
        match item {
            VirtualNodeView::Host(node) => node.children,
            VirtualNodeView::Stateful(node) => node.children,
            VirtualNodeView::Fragment(children) => children,
        }
    }

    open spec fn with_children(
        item: VirtualNodeView<H, C>,
        children: Seq<NodeKey>,
    ) -> VirtualNodeView<H, C> {
        match item {
            VirtualNodeView::Host(node) => VirtualNodeView::Host(HostNodeView { children, ..node }),
            VirtualNodeView::Stateful(node) => VirtualNodeView::Stateful(
                StatefulNodeView { children, ..node },
            ),
            VirtualNodeView::Fragment(_) => VirtualNodeView::Fragment(children),
        }
    }

    fn get_children(&self) -> (list: &NodeChildren) {
        match self {
            VirtualNode::Host(node) => &node.children,
            VirtualNode::Stateful(node) => &node.children,
            VirtualNode::Fragment(children) => children,
        }
    }

    fn set_children(&mut self, children: NodeChildren) {
        match self {
            VirtualNode::Host(node) => {
                node.children = children;
            },
            VirtualNode::Stateful(node) => {
                node.children = children;
            },
            VirtualNode::Fragment(list) => {
                *list = children;
            },
        }
    }
}

/// The first `n` of `lists`, joined end to end.
pub open spec fn concat<T>(lists: Seq<Seq<T>>, n: nat) -> Seq<T>
    decreases n,
{
    if n == 0 || n > lists.len() {
        Seq::empty()
    } else {
        concat(lists, (n - 1) as nat) + lists[n - 1]
    }
}

/// Joins `lists` end to end.
pub fn flatten<T>(lists: Vec<Vec<T>>) -> (all: Vec<T>)
    ensures
        all@ == concat(lists@.map_values(|list: Vec<T>| list@), lists@.len()),
{
    let ghost views = lists@.map_values(|list: Vec<T>| list@);
    let mut all: Vec<T> = Vec::new();
    for list in it: lists
        invariant
            it.seq() == lists@,
            views == lists@.map_values(|list: Vec<T>| list@),
            all@ == concat(views, it.index() as nat),
    {
        let mut list = list;
        all.append(&mut list);
    }
    all
}

impl<H: HostElement, C: Component<H>> VirtualNodeView<H, C> {
    /// The node that mounting `value` makes, and the seeds of its children:
    /// a host or a fragment hands on the children of the element; a
    /// component is created and hands on the one element it renders.
    pub open spec fn mount(value: ElementView<H, C::Props>, updater: StateUpdater<C::State>) -> (
        Self,
        Seq<ElementView<H, C::Props>>,
    ) {
        match value {
            ElementView::Host { element, children } => (
                VirtualNodeView::Host(HostNodeView { element, children: Seq::empty() }),
                children,
            ),
            ElementView::Stateful { props } => {
                let node = StatefulNodeView::<H, C>::created(props);
                (VirtualNodeView::Stateful(node), seq![node.rendered(updater)])
            },
            ElementView::Fragment { children } => (
                VirtualNodeView::Fragment(Seq::empty()),
                children,
            ),
        }
    }

    /// Whether the node can take `value` and stay the node it is: a host
    /// takes a host element, a fragment a fragment, and a component an
    /// element of its own class.
    pub open spec fn agrees(self, value: ElementView<H, C::Props>) -> bool {
        match (self, value) {
            (VirtualNodeView::Host(_), ElementView::Host { .. }) => true,
            (VirtualNodeView::Stateful(node), ElementView::Stateful { props }) => C::spec_class(
                node.props,
            ) == C::spec_class(props),
            (VirtualNodeView::Fragment(_), ElementView::Fragment { .. }) => true,
            _ => false,
        }
    }

    /// What offering `value` to the node gives. A host whose payload is the
    /// same as the new one stays unchanged. A host with another payload
    /// takes it, a fragment stays, and a component of the same class takes
    /// the props, derives its state and renders again. A node of another
    /// kind or class is replaced.
    pub open spec fn update(
        self,
        value: ElementView<H, C::Props>,
        updater: StateUpdater<C::State>,
    ) -> UpdateView<Self, ElementView<H, C::Props>> {
        match (self, value) {
            (VirtualNodeView::Host(node), ElementView::Host { element, children }) => {
                if node.element.spec_same(&element) {
                    UpdateView::Unchanged(self)
                } else {
                    UpdateView::Changed(
                        VirtualNodeView::Host(HostNodeView { element, ..node }),
                        children,
                    )
                }
            },
            (VirtualNodeView::Stateful(node), ElementView::Stateful { props }) => {
                if C::spec_class(node.props) == C::spec_class(props) {
                    let next = StatefulNodeView {
                        props,
                        state: C::spec_derived_state(props, node.state),
                        ..node
                    };
                    UpdateView::Changed(
                        VirtualNodeView::Stateful(next),
                        seq![next.rendered(updater)],
                    )
                } else {
                    UpdateView::Replaced(self, value)
                }
            },
            (VirtualNodeView::Fragment(_), ElementView::Fragment { children }) => {
                UpdateView::Changed(self, children)
            },
            _ => UpdateView::Replaced(self, value),
        }
    }

    /// The node after it was told that it is mounted.
    pub open spec fn did_mount(self) -> Self {
        match self {
            VirtualNodeView::Stateful(node) => VirtualNodeView::Stateful(
                StatefulNodeView { component: node.component.spec_did_mount(), ..node },
            ),
            _ => self,
        }
    }

    /// The outputs that the node contributes to its parent, given the
    /// outputs of its children: a host node is materialized into one; a
    /// component or a fragment passes those of its children through.
    pub open spec fn outputs<'a, Dom: DomNode<'a, Widget = H>>(
        self,
        children: Seq<Seq<Dom>>,
    ) -> Seq<Dom> {
        match self {
            VirtualNodeView::Host(node) => seq![
                Dom::spec_new_dom_node(node.element, concat(children, children.len())),
            ],
            _ => concat(children, children.len()),
        }
    }
}

impl<H: HostElement, C: Component<H>> VirtualNode<H, C> {
    /// Makes the live node for `element`, and hands out the seeds of its
    /// children.
    pub fn mount(element: Element<H, C::Props>, updater: GenericStateUpdater<C::State>) -> (r: (
        Self,
        Vec<Element<H, C::Props>>,
    ))
        ensures
            (r.0@, r.1.deep_view()) == VirtualNodeView::<H, C>::mount(
                element.deep_view(),
                updater.typed(),
            ),
            forall|i: int|
                0 <= i < r.1.deep_view().len() ==> (#[trigger] r.1.deep_view()[i]).depth(
                    |props: C::Props| C::rank(props),
                ) < element.deep_view().depth(|props: C::Props| C::rank(props)),
    {
        let ghost rank = |props: C::Props| C::rank(props);
        match element {
            Element::Host { element, children } => {
                proof {
                    lemma_deep_view_of_list(children);
                    assert forall|i: int| 0 <= i < children.deep_view().len() implies (
                    #[trigger] children.deep_view()[i]).depth(rank) < 1 + ElementView::max_depth(
                        children.deep_view(),
                        children.deep_view().len(),
                        rank,
                    ) by {
                        ElementView::lemma_max_depth(
                            children.deep_view(),
                            children.deep_view().len(),
                            rank,
                            i,
                        );
                    }
                }
                (VirtualNode::Host(HostNode::mount(element, NodeChildren::new())), children)
            },
            Element::Stateful(stateful) => {
                let StatefulElement { props } = stateful;
                let node = StatefulNode::mount(props);
                let rendered = node.render(updater);
                let seeds = vec![rendered];
                proof {
                    assert(seeds.deep_view() =~= seq![rendered.deep_view()]);
                }
                (VirtualNode::Stateful(node), seeds)
            },
            Element::Fragment(children) => {
                proof {
                    lemma_deep_view_of_list(children);
                    assert forall|i: int| 0 <= i < children.deep_view().len() implies (
                    #[trigger] children.deep_view()[i]).depth(rank) < 1 + ElementView::max_depth(
                        children.deep_view(),
                        children.deep_view().len(),
                        rank,
                    ) by {
                        ElementView::lemma_max_depth(
                            children.deep_view(),
                            children.deep_view().len(),
                            rank,
                            i,
                        );
                    }
                }
                (VirtualNode::Fragment(NodeChildren::new()), children)
            },
        }
    }

    /// Offers `element` to the live node.
    pub fn update(
        self,
        element: Element<H, C::Props>,
        updater: GenericStateUpdater<C::State>,
    ) -> (r: Update<Self, Element<H, C::Props>>)
        ensures
            r@ == self@.update(element.deep_view(), updater.typed()),
    {
        match (self, element) {
            (VirtualNode::Host(node), Element::Host { element, children }) => {
                proof {
                    lemma_deep_view_of_list(children);
                }
                if node.element.same(&element) {
                    Update::Unchanged(VirtualNode::Host(node))
                } else {
                    let HostNode { element: _, children: keys } = node;
                    Update::Changed(VirtualNode::Host(HostNode::mount(element, keys)), children)
                }
            },
            (VirtualNode::Stateful(node), Element::Stateful(stateful)) => {
                if C::class(&node.props) == C::class(&stateful.props) {
                    let StatefulElement { props } = stateful;
                    let (node, rendered) = node.update_props(props, updater);
                    let seeds = vec![rendered];
                    proof {
                        assert(seeds.deep_view() =~= seq![rendered.deep_view()]);
                    }
                    Update::Changed(VirtualNode::Stateful(node), seeds)
                } else {
                    Update::Replaced(VirtualNode::Stateful(node), Element::Stateful(stateful))
                }
            },
            (VirtualNode::Fragment(keys), Element::Fragment(children)) => {
                proof {
                    lemma_deep_view_of_list(children);
                }
                Update::Changed(VirtualNode::Fragment(keys), children)
            },
            (node, element) => Update::Replaced(node, element),
        }
    }

    /// Tells the node that it and everything below it are mounted.
    pub fn did_mount(&mut self)
        ensures
            final(self)@ == old(self)@.did_mount(),
    {
        match self {
            VirtualNode::Stateful(node) => {
                node.component.did_mount();
            },
            _ => {},
        }
    }

    /// Tells the node that it leaves the tree, and drops it.
    pub fn unmount(self) {
        match self {
            VirtualNode::Stateful(node) => {
                let mut node = node;
                node.component.will_unmount();
            },
            _ => {},
        }
    }

    /// The outputs that the node contributes to its parent.
    pub fn render<'a, Dom: DomNode<'a, Widget = H>>(&'a self, children: Vec<Vec<Dom>>) -> (out: Vec<
        Dom,
    >)
        ensures
            out@ == self@.outputs::<Dom>(children@.map_values(|list: Vec<Dom>| list@)),
    {
        let below = flatten(children);
        match self {
            VirtualNode::Host(node) => {
                let made = node.render(below);
                let mut out: Vec<Dom> = Vec::new();
                if let Some(made) = made {
                    out.push(made);
                }
                assert(out@ =~= seq![made.unwrap()]);
                out
            },
            _ => below,
        }
    }
}

} // verus!
