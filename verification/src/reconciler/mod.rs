//! The reconciler: the tree of live nodes that elements are mounted into and
//! diffed against, with the queue of the state changes that its components
//! have asked for.
use crate::component::Component;
use crate::element::{DomNode, Element, ElementView, HostElement};
use crate::flat_tree::store::child_keys;
use crate::flat_tree::{
    build_node, diff_children, empty_stage, fold_node, unbuild_node, update_root, FlatTree,
    GetNodeChildren, NodeChildren, NodeKey, NodeVisitor, Stage,
};
use crate::reconciler::laws::{
    lemma_apply_all_shaped, lemma_apply_shaped, lemma_mount_shaped, lemma_update_grows,
    lemma_update_shaped,
};
use crate::reconciler::stateful_node::StatefulNodeView;
use crate::reconciler::virtual_node::VirtualNodeView;
use vstd::prelude::*;

pub mod host_node;
pub mod laws;
pub mod lifecycle;
pub mod outputs;
pub mod queue;
pub mod stateful_node;
pub mod virtual_node;

pub use self::host_node::HostNode;
pub use self::lifecycle::{LifecycleEvent, Reconciler};
pub use self::queue::{
    GenericStateUpdater, QueuedUpdate, StateChange, StateUpdater, UpdateInbox, UpdateQueue,
};
pub use self::stateful_node::StatefulNode;
pub use self::virtual_node::VirtualNode;

verus! {

/// The visitor that materializes a tree: what a node hands up is the list
/// of outputs that it contributes to its parent.
pub struct Materializer<Dom> {
    pub output: core::marker::PhantomData<Dom>,
}

impl<'a, H: HostElement + 'a, C: Component<H> + 'a, Dom: DomNode<'a, Widget = H>> NodeVisitor<
    'a,
    VirtualNode<H, C>,
> for Materializer<Dom> {
    type Output = Vec<Dom>;

    open spec fn spec_visit(
        &self,
        item: VirtualNodeView<H, C>,
        children: Seq<Seq<Dom>>,
    ) -> Seq<Dom> {
        item.outputs::<Dom>(children)
    }

    fn visit(&self, item: &'a VirtualNode<H, C>, children: Vec<Vec<Dom>>) -> (out: Vec<Dom>) {
        item.render(children)
    }
}

/// What a virtual tree is: its live nodes, the index of the next key, the
/// key of its root, and the journal of the calls into its components.
pub ghost struct TreeView<H: HostElement, C: Component<H>> {
    pub nodes: Map<usize, VirtualNodeView<H, C>>,
    pub next_key: usize,
    pub root: Option<NodeKey>,
    pub journal: Seq<LifecycleEvent>,
}

impl<H: HostElement, C: Component<H>> TreeView<H, C> {
    /// The tree in which a traversal ended at `stage`, with the root
    /// `root`.
    pub open spec fn at(
        stage: Stage<Reconciler<H, C>, VirtualNodeView<H, C>>,
        root: Option<NodeKey>,
    ) -> Self {
        TreeView {
            nodes: stage.nodes,
            next_key: stage.next_key,
            root,
            journal: stage.handler.journal@,
        }
    }

    /// The stage at which a traversal of this tree starts, with handles on
    /// `queue`.
    pub open spec fn stage(self, queue: UpdateQueue<C::State>) -> Stage<
        Reconciler<H, C>,
        VirtualNodeView<H, C>,
    > {
        Stage {
            handler: Reconciler {
                queue,
                journal: Ghost(self.journal),
                host: core::marker::PhantomData,
            },
            nodes: self.nodes,
            next_key: self.next_key,
        }
    }

    /// The tree that mounting `element` makes.
    pub open spec fn mount(
        element: ElementView<H, C::Props>,
        queue: UpdateQueue<C::State>,
    ) -> Self {
        let (stage, root) = build_node::<VirtualNode<H, C>, Reconciler<H, C>>(
            empty_stage(Reconciler::fresh(queue)),
            element,
        );
        Self::at(stage, Some(root))
    }

    /// The tree after one queued state change. A change for a key that is
    /// no longer live, or that is not the key of a component, does
    /// nothing. Otherwise the state of the component is changed, the
    /// component renders again with the props it has, and what it rendered
    /// is diffed against its child.
    pub open spec fn apply(
        self,
        update: QueuedUpdate<C::State>,
        queue: UpdateQueue<C::State>,
    ) -> Self {
        let key = update.node;
        if self.nodes.contains_key(key.index) && self.nodes[key.index] is Stateful {
            let node = self.nodes[key.index]->Stateful_0;
            let next = StatefulNodeView { state: update.change.spec_apply(node.state), ..node };
            let start = self.stage(queue);
            let (stage, keys) = diff_children::<VirtualNode<H, C>, Reconciler<H, C>>(
                Stage {
                    handler: start.handler.logged(LifecycleEvent::Rendered(key)),
                    nodes: self.nodes.remove(key.index),
                    next_key: self.next_key,
                },
                node.children,
                seq![next.rendered(start.handler.updater(key))],
                key,
            );
            Self::at(
                Stage {
                    nodes: stage.nodes.insert(
                        key.index,
                        VirtualNodeView::Stateful(StatefulNodeView { children: keys, ..next }),
                    ),
                    ..stage
                },
                self.root,
            )
        } else {
            self
        }
    }

    /// The tree after the first `n` of `updates`, applied in order.
    pub open spec fn apply_all(
        self,
        updates: Seq<QueuedUpdate<C::State>>,
        n: nat,
        queue: UpdateQueue<C::State>,
    ) -> Self
        decreases n,
    {
        if n == 0 || n > updates.len() {
            self
        } else {
            self.apply_all(updates, (n - 1) as nat, queue).apply(updates[n - 1], queue)
        }
    }

    /// The tree after a diff against `element`.
    pub open spec fn update(
        self,
        element: ElementView<H, C::Props>,
        queue: UpdateQueue<C::State>,
    ) -> Self {
        let (stage, root) = update_root::<VirtualNode<H, C>, Reconciler<H, C>>(
            self.stage(queue),
            self.root,
            element,
        );
        Self::at(stage, Some(root))
    }

    /// The journal at the end of a teardown of the whole tree.
    pub open spec fn unmount(self, queue: UpdateQueue<C::State>) -> Seq<LifecycleEvent> {
        match self.root {
            Some(root) => unbuild_node::<VirtualNode<H, C>, Reconciler<H, C>>(
                self.stage(queue),
                root,
            ).handler.journal@,
            None => self.journal,
        }
    }

    /// The outputs of the root: what the tree materializes into.
    pub open spec fn outputs<'a, Dom: DomNode<'a, Widget = H>>(self) -> Seq<Dom> where
        H: 'a,
        C: 'a,
     {
        match self.root {
            Some(root) => if self.nodes.contains_key(root.index) {
                fold_node::<VirtualNode<H, C>, Materializer<Dom>>(
                    Materializer { output: core::marker::PhantomData },
                    self.nodes,
                    root,
                )
            } else {
                Seq::empty()
            },
            None => Seq::empty(),
        }
    }
}

/// A mounted tree of live nodes, with the queue of the state changes that
/// its components have asked for.
#[verifier::reject_recursive_types(H)]
#[verifier::reject_recursive_types(C)]
pub struct VirtualTree<H: HostElement, C: Component<H>> {
    tree: FlatTree<VirtualNode<H, C>>,
    update_queue: UpdateQueue<C::State>,
    inbox: UpdateInbox<C::State>,
    journal: Ghost<Seq<LifecycleEvent>>,
}

impl<H: HostElement, C: Component<H>> View for VirtualTree<H, C> {
    type V = TreeView<H, C>;

    closed spec fn view(&self) -> TreeView<H, C> {
        TreeView {
            nodes: self.tree.nodes(),
            next_key: self.tree.next_key(),
            root: self.tree.root(),
            journal: self.journal@,
        }
    }
}

impl<H: HostElement, C: Component<H>> VirtualTree<H, C> {
    /// The queue that the handles of this tree append to.
    pub closed spec fn queue(&self) -> UpdateQueue<C::State> {
        self.update_queue
    }

    /// The queue of this tree.
    pub fn updates(&self) -> (queue: &UpdateQueue<C::State>)
        ensures
            *queue == self.queue(),
    {
        &self.update_queue
    }

    /// The key of the root node, if a tree is mounted.
    pub fn root_key(&self) -> (root: Option<NodeKey>)
        ensures
            root == self@.root,
    {
        self.tree.root_key()
    }

    /// Whether a live node stands under `key`.
    pub fn contains(&self, key: NodeKey) -> (found: bool)
        ensures
            found == self@.nodes.contains_key(key.index),
    {
        self.tree.contains(key)
    }

    /// The handler with which a traversal of this tree starts.
    fn handler(&self) -> (handler: Reconciler<H, C>)
        ensures
            self.tree.stage(handler) == self@.stage(self.queue()),
    {
        Reconciler {
            queue: self.update_queue.share(),
            journal: self.journal,
            host: core::marker::PhantomData,
        }
    }

    /// Mounts `element`: every node is created before its children, and
    /// every component is told that it is mounted after its child is.
    pub fn mount(element: Element<H, C::Props>) -> (tree: Self)
        ensures
            tree@ == TreeView::<H, C>::mount(element.deep_view(), tree.queue()),
            tree@.next_key < usize::MAX ==> tree@.shaped(),
    {
        let (queue, inbox) = UpdateQueue::new();
        let mut handler = Reconciler::new(queue.share());
        let tree = FlatTree::build(element, &mut handler);
        proof {
            if tree.next_key() < usize::MAX {
                lemma_mount_shaped::<H, C>(element.deep_view(), queue);
            }
        }
        VirtualTree { tree, update_queue: queue, inbox, journal: handler.journal }
    }

    /// Applies one queued state change.
    pub fn apply_update(&mut self, update: QueuedUpdate<C::State>)
        ensures
            final(self)@ == old(self)@.apply(update, old(self).queue()),
            final(self).queue() == old(self).queue(),
            old(self)@.shaped() && final(self)@.next_key < usize::MAX ==> final(self)@.shaped(),
    {
        proof {
            let after = self@.apply(update, self.queue());
            if self@.shaped() && after.next_key < usize::MAX {
                lemma_apply_shaped(self@, update, self.queue());
            }
        }
        let key = update.node;
        let mut handler = self.handler();
        match self.tree.take(key) {
            None => {},
            Some(VirtualNode::Stateful(node)) => {
                let keys = child_keys(&node);
                let (node, rendered) = node.update_state(
                    &update.change,
                    GenericStateUpdater::new(&handler.queue, key),
                );
                handler.journal = Ghost(handler.journal@.push(LifecycleEvent::Rendered(key)));
                let seeds = vec![rendered];
                proof {
                    assert(seeds.deep_view() =~= seq![rendered.deep_view()]);
                }
                let keys = self.tree.diff_children(keys, seeds, key, &mut handler);
                let mut item = VirtualNode::Stateful(node);
                item.set_children(NodeChildren { children: keys });
                self.tree.insert(key, item);
                self.journal = handler.journal;
            },
            Some(other) => {
                self.tree.insert(key, other);
                assert(self.tree.nodes() =~= old(self).tree.nodes());
            },
        }
    }

    /// Applies queued state changes, first in, first out.
    pub fn apply_updates(&mut self, updates: Vec<QueuedUpdate<C::State>>)
        ensures
            final(self)@ == old(self)@.apply_all(updates@, updates@.len(), old(self).queue()),
            final(self).queue() == old(self).queue(),
            old(self)@.shaped() && final(self)@.next_key < usize::MAX ==> final(self)@.shaped(),
    {
        proof {
            let after = self@.apply_all(updates@, updates@.len(), self.queue());
            if self@.shaped() && after.next_key < usize::MAX {
                lemma_apply_all_shaped(self@, updates@, updates@.len(), self.queue());
            }
        }
        for update in it: updates
            invariant
                it.seq() == updates@,
                self@ == old(self)@.apply_all(updates@, it.index() as nat, old(self).queue()),
                self.queue() == old(self).queue(),
        {
            self.apply_update(update);
        }
    }

    /// Applies the state changes that are queued, first in, first out.
    /// Which changes these are is up to the handles: whatever they have
    /// appended since the queue was last drained.
    pub fn flush(&mut self)
        ensures
            exists|updates: Seq<QueuedUpdate<C::State>>|
                final(self)@ == #[trigger] old(self)@.apply_all(
                    updates,
                    updates.len(),
                    old(self).queue(),
                ),
            final(self).queue() == old(self).queue(),
            old(self)@.shaped() && final(self)@.next_key < usize::MAX ==> final(self)@.shaped(),
    {
        let updates = self.inbox.take_all();
        self.apply_updates(updates);
    }

    /// Applies `pending`, first in, first out, and only then diffs the
    /// whole tree against `element`.
    pub fn update_after(
        &mut self,
        pending: Vec<QueuedUpdate<C::State>>,
        element: Element<H, C::Props>,
    )
        ensures
            final(self)@ == old(self)@.apply_all(
                pending@,
                pending@.len(),
                old(self).queue(),
            ).update(element.deep_view(), old(self).queue()),
            final(self).queue() == old(self).queue(),
            old(self)@.shaped() && final(self)@.next_key < usize::MAX ==> final(self)@.shaped(),
    {
        self.apply_updates(pending);
        proof {
            let after = self@.update(element.deep_view(), self.queue());
            lemma_update_grows(self@, element.deep_view(), self.queue());
            if old(self)@.shaped() && after.next_key < usize::MAX {
                lemma_update_shaped(self@, element.deep_view(), self.queue());
            }
        }
        let mut handler = self.handler();
        self.tree.update_tree(element, &mut handler);
        self.journal = handler.journal;
    }

    /// Diffs the whole tree against `element`, after the state changes that
    /// are queued have been applied.
    pub fn update(&mut self, element: Element<H, C::Props>)
        ensures
            exists|pending: Seq<QueuedUpdate<C::State>>|
                final(self)@ == (#[trigger] old(self)@.apply_all(
                    pending,
                    pending.len(),
                    old(self).queue(),
                )).update(element.deep_view(), old(self).queue()),
            final(self).queue() == old(self).queue(),
            old(self)@.shaped() && final(self)@.next_key < usize::MAX ==> final(self)@.shaped(),
    {
        let pending = self.inbox.take_all();
        self.update_after(pending, element);
    }

    /// Tears the whole tree down: every component is told that it leaves,
    /// those deepest in the tree first. The result is the journal at the
    /// end.
    pub fn unmount(self) -> (journal: Ghost<Seq<LifecycleEvent>>)
        ensures
            journal@ == self@.unmount(self.queue()),
    {
        let mut handler = self.handler();
        let VirtualTree { tree, update_queue: _, inbox: _, journal: _ } = self;
        tree.unbuild(&mut handler);
        handler.journal
    }

    /// Every output of the root, in order. The store is not changed.
    pub fn render_all<'a, Dom: DomNode<'a, Widget = H>>(&'a self) -> (out: Vec<Dom>) where
        H: 'a,
        C: 'a,

        ensures
            out@ == self@.outputs::<Dom>(),
    {
        let visitor: Materializer<Dom> = Materializer { output: core::marker::PhantomData };
        match self.tree.recurse(&visitor) {
            Some(out) => out,
            None => Vec::new(),
        }
    }

    /// The output of the tree, if it has one. The root must not
    /// materialize into more than one output.
    pub fn render<'a, Dom: DomNode<'a, Widget = H>>(&'a self) -> (out: Option<Dom>) where
        H: 'a,
        C: 'a,

        requires
            self@.outputs::<Dom>().len() <= 1,
        ensures
            out == if self@.outputs::<Dom>().len() == 1 {
                Some(self@.outputs::<Dom>()[0])
            } else {
                None
            },
    {
        let mut all = self.render_all::<Dom>();
        all.pop()
    }
}

} // verus!
