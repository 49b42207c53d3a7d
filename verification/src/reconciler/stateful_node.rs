//! The live counterpart of a stateful element.
use crate::component::{Component, CreateContext, RenderContext};
use crate::element::{Element, ElementView, HostElement};
use crate::flat_tree::{GetNodeChildren, NodeChildren, NodeKey};
use crate::reconciler::{GenericStateUpdater, StateChange, StateUpdater};
use vstd::prelude::*;

verus! {

/// A live component: the instance, the props it was last given, its
/// state, and the key of the one child it rendered.
pub struct StatefulNode<H: HostElement, C: Component<H>> {
    pub component: C,
    pub props: C::Props,
    pub state: C::State,
    pub children: NodeChildren,
    pub host: core::marker::PhantomData<H>,
}

/// A live component with its children as a sequence.
pub ghost struct StatefulNodeView<H: HostElement, C: Component<H>> {
    pub component: C,
    pub props: C::Props,
    pub state: C::State,
    pub children: Seq<NodeKey>,
    pub host: core::marker::PhantomData<H>,
}

impl<H: HostElement, C: Component<H>> View for StatefulNode<H, C> {
    type V = StatefulNodeView<H, C>;

    open spec fn view(&self) -> StatefulNodeView<H, C> {
        StatefulNodeView {
            component: self.component,
            props: self.props,
            state: self.state,
            children: self.children@,
            host: self.host,
        }
    }
}

impl<H: HostElement, C: Component<H>> GetNodeChildren for StatefulNode<H, C> {
    open spec fn children_of(item: StatefulNodeView<H, C>) -> Seq<NodeKey> {
        item.children
    }

    open spec fn with_children(
        item: StatefulNodeView<H, C>,
        children: Seq<NodeKey>,
    ) -> StatefulNodeView<H, C> {
        StatefulNodeView { children, ..item }
    }

    fn get_children(&self) -> (list: &NodeChildren) {
        &self.children
    }

    fn set_children(&mut self, children: NodeChildren) {
        self.children = children;
    }
}

impl<H: HostElement, C: Component<H>> StatefulNodeView<H, C> {
    /// The node of a component that was just created from `props`.
    pub open spec fn created(props: C::Props) -> Self {
        StatefulNodeView {
            component: C::spec_create(props).0,
            props,
            state: C::spec_create(props).1,
            children: Seq::empty(),
            host: core::marker::PhantomData,
        }
    }

    /// What the node renders through the handle `updater`.
    pub open spec fn rendered(self, updater: StateUpdater<C::State>) -> ElementView<H, C::Props> {
        self.component.spec_render(self.props, self.state, updater)
    }
}

impl<H: HostElement, C: Component<H>> StatefulNode<H, C> {
    /// Creates the instance for `initial_props`, with no child yet.
    pub fn mount(initial_props: C::Props) -> (node: Self)
        ensures
            node@ == StatefulNodeView::<H, C>::created(initial_props),
    {
        let (component, state) = C::create(CreateContext { props: &initial_props });
        StatefulNode {
            component,
            props: initial_props,
            state,
            children: NodeChildren::new(),
            host: core::marker::PhantomData,
        }
    }

    /// What the node shows now.
    pub fn render(&self, updater: GenericStateUpdater<C::State>) -> (element: Element<H, C::Props>)
        ensures
            element.deep_view() == self@.rendered(updater.typed()),
            element.deep_view().depth(|props: C::Props| C::rank(props)) <= C::rank(self.props),
    {
        self.component.render(
            RenderContext { props: &self.props, state: &self.state, updater: updater.specialize() },
        )
    }

    /// Applies `change` to the state and renders again, with the props the
    /// node has.
    pub fn update_state(
        self,
        change: &Box<dyn StateChange<C::State>>,
        updater: GenericStateUpdater<C::State>,
    ) -> (r: (Self, Element<H, C::Props>))
        ensures
            r.0@ == (StatefulNodeView { state: change.spec_apply(self.state), ..self@ }),
            r.1.deep_view() == r.0@.rendered(updater.typed()),
            r.1.deep_view().depth(|props: C::Props| C::rank(props)) <= C::rank(self.props),
    {
        let StatefulNode { component, props, state, children, host } = self;
        let node = StatefulNode { component, props, state: change.apply(state), children, host };
        let element = node.render(updater);
        (node, element)
    }

    /// Takes the props of a new element: the state is derived from them,
    /// and the node renders again.
    pub fn update_props(self, next_props: C::Props, updater: GenericStateUpdater<C::State>) -> (r: (
        Self,
        Element<H, C::Props>,
    ))
        ensures
            r.0@ == (StatefulNodeView {
                props: next_props,
                state: C::spec_derived_state(next_props, self.state),
                ..self@
            }),
            r.1.deep_view() == r.0@.rendered(updater.typed()),
            r.1.deep_view().depth(|props: C::Props| C::rank(props)) <= C::rank(next_props),
    {
        let StatefulNode { component, props, state, children, host } = self;
        let state = C::get_derived_state_from_props(&next_props, state);
        let node = StatefulNode { component, props: next_props, state, children, host };
        let element = node.render(updater);
        (node, element)
    }
}

} // verus!
