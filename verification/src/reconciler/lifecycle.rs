//! The handler that the reconciler hands to the store: it makes, updates
//! and tears down live nodes, and keeps the journal of what it told the
//! components.
use crate::component::Component;
use crate::element::{Element, ElementView, HostElement};
use crate::flat_tree::{NodeKey, NodeLifecycle, Update, UpdateView};
use crate::reconciler::virtual_node::{VirtualNode, VirtualNodeView};
use crate::reconciler::{GenericStateUpdater, StateUpdater, UpdateQueue};
use vstd::prelude::*;

verus! {

/// One call into a component, by the key of its node.
pub ghost enum LifecycleEvent {
    /// `create` made the instance.
    Created(NodeKey),
    /// `render` was asked for the element to show.
    Rendered(NodeKey),
    /// `did_mount` was called.
    DidMount(NodeKey),
    /// `will_unmount` was called.
    WillUnmount(NodeKey),
}

/// The handler of a virtual tree. Its journal lists every call into a
/// component since the tree was mounted, in the order of the calls.
#[verifier::reject_recursive_types(H)]
#[verifier::reject_recursive_types(C)]
pub struct Reconciler<H: HostElement, C: Component<H>> {
    pub queue: UpdateQueue<C::State>,
    pub journal: Ghost<Seq<LifecycleEvent>>,
    pub host: core::marker::PhantomData<H>,
}

impl<H: HostElement, C: Component<H>> Reconciler<H, C> {
    /// The handler on `queue` that has made no call yet.
    pub open spec fn fresh(queue: UpdateQueue<C::State>) -> Self {
        Reconciler { queue, journal: Ghost(Seq::empty()), host: core::marker::PhantomData }
    }

    /// The handler after one more call.
    pub open spec fn logged(self, event: LifecycleEvent) -> Self {
        Reconciler { journal: Ghost(self.journal@.push(event)), ..self }
    }

    /// The handle that the component of the node at `key` is given.
    pub open spec fn updater(self, key: NodeKey) -> StateUpdater<C::State> {
        StateUpdater { queue: self.queue, node: key }
    }

    /// The handler on `queue` that has made no call yet.
    pub(crate) fn new(queue: UpdateQueue<C::State>) -> (handler: Self)
        ensures
            handler == Self::fresh(queue),
    {
        Reconciler { queue, journal: Ghost(Seq::empty()), host: core::marker::PhantomData }
    }
}

impl<H: HostElement, C: Component<H>> NodeLifecycle<VirtualNode<H, C>> for Reconciler<H, C> {
    type Value = Element<H, C::Props>;

    open spec fn depth(value: ElementView<H, C::Props>) -> nat {
        value.depth(|props: C::Props| C::rank(props))
    }

    open spec fn spec_mount(self, value: ElementView<H, C::Props>, key: NodeKey) -> (
        Self,
        VirtualNodeView<H, C>,
        Seq<ElementView<H, C::Props>>,
    ) {
        let (item, seeds) = VirtualNodeView::<H, C>::mount(value, self.updater(key));
        let handler = if value is Stateful {
            self.logged(LifecycleEvent::Created(key)).logged(LifecycleEvent::Rendered(key))
        } else {
            self
        };
        (handler, item, seeds)
    }

    open spec fn spec_mounted(self, item: VirtualNodeView<H, C>, key: NodeKey) -> (
        Self,
        VirtualNodeView<H, C>,
    ) {
        let handler = if item is Stateful {
            self.logged(LifecycleEvent::DidMount(key))
        } else {
            self
        };
        (handler, item.did_mount())
    }

    open spec fn spec_update(
        self,
        item: VirtualNodeView<H, C>,
        value: ElementView<H, C::Props>,
        key: NodeKey,
    ) -> (Self, UpdateView<VirtualNodeView<H, C>, ElementView<H, C::Props>>) {
        let update = item.update(value, self.updater(key));
        let handler = if item is Stateful && update is Changed {
            self.logged(LifecycleEvent::Rendered(key))
        } else {
            self
        };
        (handler, update)
    }

    open spec fn spec_unmount(self, item: VirtualNodeView<H, C>, key: NodeKey) -> Self {
        if item is Stateful {
            self.logged(LifecycleEvent::WillUnmount(key))
        } else {
            self
        }
    }

    fn mount(&mut self, value: Element<H, C::Props>, key: NodeKey) -> (r: (
        VirtualNode<H, C>,
        Vec<Element<H, C::Props>>,
    )) {
        let ghost stateful = value.deep_view() is Stateful;
        let made = VirtualNode::mount(value, GenericStateUpdater::new(&self.queue, key));
        self.journal = Ghost(
            if stateful {
                self.journal@.push(LifecycleEvent::Created(key)).push(
                    LifecycleEvent::Rendered(key),
                )
            } else {
                self.journal@
            },
        );
        made
    }

    fn mounted(&mut self, item: &mut VirtualNode<H, C>, key: NodeKey) {
        let ghost stateful = item@ is Stateful;
        item.did_mount();
        self.journal = Ghost(
            if stateful {
                self.journal@.push(LifecycleEvent::DidMount(key))
            } else {
                self.journal@
            },
        );
    }

    fn update(&mut self, item: VirtualNode<H, C>, value: Element<H, C::Props>, key: NodeKey) -> (r:
        Update<VirtualNode<H, C>, Element<H, C::Props>>) {
        let ghost stateful = item@ is Stateful;
        let update = item.update(value, GenericStateUpdater::new(&self.queue, key));
        self.journal = Ghost(
            if stateful && update@ is Changed {
                self.journal@.push(LifecycleEvent::Rendered(key))
            } else {
                self.journal@
            },
        );
        update
    }

    fn unmount(&mut self, item: VirtualNode<H, C>, key: NodeKey) {
        let ghost stateful = item@ is Stateful;
        item.unmount();
        self.journal = Ghost(
            if stateful {
                self.journal@.push(LifecycleEvent::WillUnmount(key))
            } else {
                self.journal@
            },
        );
    }
}

} // verus!
