//! The capability that user code implements: a component makes an instance
//! from props, renders one element from props and state, and is told when
//! it enters and when it leaves the tree.
use crate::element::{Element, ElementView, HostElement};
use crate::reconciler::StateUpdater;
use vstd::prelude::*;

verus! {

/// What `create` is handed.
pub struct CreateContext<'a, P> {
    pub props: &'a P,
}

/// What `render` is handed: the current props and state, and the handle
/// through which the instance may ask for a change of its state.
#[verifier::reject_recursive_types(S)]
pub struct RenderContext<'a, P, S> {
    pub props: &'a P,
    pub state: &'a S,
    pub updater: StateUpdater<S>,
}

/// A family of component classes. One implementing type stands for every
/// class of an application; `class` tells them apart by the props.
pub trait Component<H: HostElement>: Sized {
    type Props;

    type State;

    /// The class that an element with these props describes.
    closed spec fn spec_class(props: Self::Props) -> u64 {
        arbitrary()
    }

    /// A bound on the depth of whatever a component with these props
    /// renders: it makes mounting end.
    closed spec fn rank(props: Self::Props) -> nat {
        arbitrary()
    }

    /// What `create` makes of these props: the instance and its first state.
    closed spec fn spec_create(props: Self::Props) -> (Self, Self::State) {
        arbitrary()
    }

    /// What the instance renders for these props and state, holding this
    /// handle.
    closed spec fn spec_render(
        &self,
        props: Self::Props,
        state: Self::State,
        updater: StateUpdater<Self::State>,
    ) -> ElementView<H, Self::Props> {
        arbitrary()
    }

    /// The state that `get_derived_state_from_props` derives.
    closed spec fn spec_derived_state(
        next_props: Self::Props,
        last_state: Self::State,
    ) -> Self::State {
        arbitrary()
    }

    /// The instance after `did_mount`.
    closed spec fn spec_did_mount(self) -> Self {
        arbitrary()
    }

    /// The class that an element with these props describes. A live
    /// component takes new props only of its own class.
    fn class(props: &Self::Props) -> (class: u64)
        ensures
            class == Self::spec_class(*props),
    ;

    /// Makes the instance and its first state.
    fn create(ctx: CreateContext<Self::Props>) -> (made: (Self, Self::State))
        ensures
            made == Self::spec_create(*ctx.props),
    ;

    /// The one element that the instance shows for these props and state.
    fn render(&self, ctx: RenderContext<Self::Props, Self::State>) -> (element: Element<
        H,
        Self::Props,
    >)
        ensures
            element.deep_view() == self.spec_render(*ctx.props, *ctx.state, ctx.updater),
            element.deep_view().depth(|props: Self::Props| Self::rank(props)) <= Self::rank(
                *ctx.props,
            ),
    ;

    /// The state with which an instance goes on when it is given new props.
    fn get_derived_state_from_props(next_props: &Self::Props, last_state: Self::State) -> (state:
        Self::State)
        ensures
            state == Self::spec_derived_state(*next_props, last_state),
    ;

    /// Called once the instance and everything it rendered are in the tree.
    fn did_mount(&mut self)
        ensures
            *final(self) == old(self).spec_did_mount(),
    ;

    /// Called when the instance is about to leave the tree.
    fn will_unmount(&mut self) {
    }
}

} // verus!
