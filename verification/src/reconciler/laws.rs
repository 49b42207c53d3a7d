//! What holds of every mount, update and flush of a virtual tree.
use crate::component::Component;
use crate::element::{ElementView, HostElement};
use crate::flat_tree::laws::{
    any_handler, handler_keeps, in_range, keeps_children, keeps_ok, keeps_shape, lemma_build_list,
    lemma_build_node, lemma_diff_children, lemma_diff_children_well_formed, lemma_keeps_shape,
    lemma_unbuild_list, lemma_update_node, related, update_keeps,
};
use crate::flat_tree::shape::{
    closed_except, lemma_build_node_shape, lemma_diff_children_shape, lemma_insert_shape,
    lemma_take_shape, lemma_tree_shaped_at, lemma_update_node_shape, tree_shaped, unreferenced,
};
use crate::flat_tree::{
    build_node, diff_children, empty_stage, following, unbuild_list, unbuild_node, update_node,
    GetNodeChildren, NodeKey, NodeLifecycle, Stage,
};
use crate::reconciler::stateful_node::StatefulNodeView;
use crate::reconciler::virtual_node::VirtualNodeView;
use crate::reconciler::{
    LifecycleEvent, QueuedUpdate, Reconciler, TreeView, UpdateQueue, VirtualNode,
};
use vstd::prelude::*;

verus! {

/// The handlers whose journal begins with `base`.
pub open spec fn extends<H: HostElement, C: Component<H>>(base: Seq<LifecycleEvent>) -> spec_fn(
    Reconciler<H, C>,
) -> bool {
    |handler: Reconciler<H, C>| base.is_prefix_of(handler.journal@)
}

/// The handlers whose journal begins with `base` and goes on with nothing
/// but renders.
pub open spec fn only_renders<H: HostElement, C: Component<H>>(
    base: Seq<LifecycleEvent>,
) -> spec_fn(Reconciler<H, C>) -> bool {
    |handler: Reconciler<H, C>|
        base.is_prefix_of(handler.journal@) && forall|i: int|
            base.len() <= i < handler.journal@.len() ==> #[trigger] handler.journal@[i] is Rendered
}

/// Whether `after` is the node `before` with its identity: of the same
/// kind and, for a component, with the same instance; where `state` is
/// set, with the same state too.
pub open spec fn survives<H: HostElement, C: Component<H>>(state: bool) -> spec_fn(
    VirtualNodeView<H, C>,
    VirtualNodeView<H, C>,
) -> bool {
    |before: VirtualNodeView<H, C>, after: VirtualNodeView<H, C>|
        match before {
            VirtualNodeView::Host(_) => after is Host,
            VirtualNodeView::Stateful(node) => after is Stateful && after->Stateful_0.component
                == node.component && (state ==> after->Stateful_0.state == node.state),
            VirtualNodeView::Fragment(_) => after is Fragment,
        }
}

/// Whether `get_derived_state_from_props` hands every state on as it is,
/// whatever the props.
pub open spec fn derives_nothing<H: HostElement, C: Component<H>>() -> bool {
    forall|props: C::Props, state: C::State| #[trigger]
        C::spec_derived_state(props, state) == state
}

/// The journal is only ever appended to.
pub proof fn lemma_journal_extends<H: HostElement, C: Component<H>>(base: Seq<LifecycleEvent>)
    ensures
        handler_keeps::<VirtualNode<H, C>, Reconciler<H, C>>(extends::<H, C>(base)),
{
}

/// A host node that is offered a payload that is the same as its own is
/// left exactly as it is, and so is the whole store: nothing below the node
/// is mounted, updated or torn down, whatever children the new element has.
pub proof fn lemma_same_payload_changes_nothing<H: HostElement, C: Component<H>>(
    s: Stage<Reconciler<H, C>, VirtualNodeView<H, C>>,
    key: NodeKey,
    payload: H,
    children: Seq<ElementView<H, C::Props>>,
)
    requires
        s.nodes.contains_key(key.index),
        s.nodes[key.index] is Host,
        s.nodes[key.index]->Host_0.element.spec_same(&payload),
    ensures
        update_node::<VirtualNode<H, C>, Reconciler<H, C>>(
            s,
            key,
            ElementView::Host { element: payload, children },
        ) == (s, key),
{
    let after = update_node::<VirtualNode<H, C>, Reconciler<H, C>>(
        s,
        key,
        ElementView::Host { element: payload, children },
    ).0;
    assert(after.nodes =~= s.nodes);
}

/// A node keeps its identity exactly where it agrees in kind with the
/// element that it is offered: the key at its position stays the same if a
/// host is offered a host element, a fragment a fragment, or a component an
/// element of its own class, and in no other case.
pub proof fn lemma_identity_iff_agrees<H: HostElement, C: Component<H>>(
    s: Stage<Reconciler<H, C>, VirtualNodeView<H, C>>,
    key: NodeKey,
    value: ElementView<H, C::Props>,
)
    requires
        s.nodes.contains_key(key.index),
        key.index < s.next_key,
    ensures
        update_node::<VirtualNode<H, C>, Reconciler<H, C>>(s, key, value).1 == key
            <==> s.nodes[key.index].agrees(value),
        s.nodes[key.index].agrees(value) <==> !(s.nodes[key.index].update(
            value,
            s.handler.updater(key),
        ) is Replaced),
{
    let item = s.nodes[key.index];
    let old_keys = VirtualNode::<H, C>::children_of(item);
    if !item.agrees(value) {
        lemma_unbuild_list::<VirtualNode<H, C>, Reconciler<H, C>>(
            Stage { nodes: s.nodes.remove(key.index), ..s },
            old_keys,
            old_keys.len(),
            key,
            any_handler::<Reconciler<H, C>>(),
        );
    }
}

/// Two queued changes are applied in the order in which they were queued:
/// the second meets the tree that the first has left.
pub proof fn lemma_changes_apply_in_order<H: HostElement, C: Component<H>>(
    tree: TreeView<H, C>,
    first: QueuedUpdate<C::State>,
    second: QueuedUpdate<C::State>,
    queue: UpdateQueue<C::State>,
)
    ensures
        tree.apply_all(seq![first, second], 2, queue) == tree.apply(first, queue).apply(
            second,
            queue,
        ),
{
    let updates = seq![first, second];
    assert(tree.apply_all(updates, 0, queue) == tree);
    assert(tree.apply_all(updates, 1, queue) == tree.apply(first, queue));
}

/// A change for a key under which no component lives does nothing.
pub proof fn lemma_stale_change_does_nothing<H: HostElement, C: Component<H>>(
    tree: TreeView<H, C>,
    update: QueuedUpdate<C::State>,
    queue: UpdateQueue<C::State>,
)
    requires
        !tree.nodes.contains_key(update.node.index) || !(tree.nodes[update.node.index] is Stateful),
    ensures
        tree.apply(update, queue) == tree,
{
}

/// Where a component is offered an element of another class, the node is
/// replaced: `will_unmount` is called on the old instance after everything
/// below it was torn down, and only then is the new instance created and
/// rendered. The new node stands under the key that was next to be issued,
/// with the instance and the state that `create` made for the new props;
/// the old key is no longer live.
pub proof fn lemma_other_class_remounts<H: HostElement, C: Component<H>>(
    s: Stage<Reconciler<H, C>, VirtualNodeView<H, C>>,
    key: NodeKey,
    props: C::Props,
)
    requires
        s.nodes.contains_key(key.index),
        s.nodes[key.index] is Stateful,
        C::spec_class(s.nodes[key.index]->Stateful_0.props) != C::spec_class(props),
        key.index < s.next_key,
    ensures
        ({
            let node = s.nodes[key.index]->Stateful_0;
            let torn = unbuild_list::<VirtualNode<H, C>, Reconciler<H, C>>(
                Stage { nodes: s.nodes.remove(key.index), ..s },
                node.children,
                node.children.len(),
                key,
            );
            let (after, at) = update_node::<VirtualNode<H, C>, Reconciler<H, C>>(
                s,
                key,
                ElementView::Stateful { props },
            );
            let journal = after.handler.journal@;
            let n = torn.handler.journal@.len() as int;
            &&& at.index == s.next_key
            &&& !after.nodes.contains_key(key.index)
            &&& after.nodes.contains_key(at.index)
            &&& after.nodes[at.index] is Stateful
            &&& after.nodes[at.index]->Stateful_0.component == C::spec_create(
                props,
            ).0.spec_did_mount()
            &&& after.nodes[at.index]->Stateful_0.state == C::spec_create(props).1
            &&& after.nodes[at.index]->Stateful_0.props == props
            &&& s.handler.journal@.is_prefix_of(torn.handler.journal@)
            &&& torn.handler.journal@.is_prefix_of(journal)
            &&& journal.len() >= n + 3
            &&& journal[n] == LifecycleEvent::WillUnmount(key)
            &&& journal[n + 1] == LifecycleEvent::Created(at)
            &&& journal[n + 2] == LifecycleEvent::Rendered(at)
        }),
{
    let node = s.nodes[key.index]->Stateful_0;
    let value = ElementView::<H, C::Props>::Stateful { props };
    let s1 = Stage { nodes: s.nodes.remove(key.index), ..s };
    lemma_journal_extends::<H, C>(s.handler.journal@);
    lemma_unbuild_list::<VirtualNode<H, C>, Reconciler<H, C>>(
        s1,
        node.children,
        node.children.len(),
        key,
        extends::<H, C>(s.handler.journal@),
    );
    let torn = unbuild_list::<VirtualNode<H, C>, Reconciler<H, C>>(
        s1,
        node.children,
        node.children.len(),
        key,
    );
    let s2 = Stage { handler: torn.handler.logged(LifecycleEvent::WillUnmount(key)), ..torn };
    let (after, at) = build_node::<VirtualNode<H, C>, Reconciler<H, C>>(s2, value);
    assert(update_node::<VirtualNode<H, C>, Reconciler<H, C>>(s, key, value) == (after, at));
    let (made, item, seeds) = s2.handler.spec_mount(value, at);
    let base = made.journal@;
    let s3 = Stage { handler: made, nodes: s2.nodes, next_key: following(s2.next_key) };
    lemma_journal_extends::<H, C>(base);
    lemma_build_list::<VirtualNode<H, C>, Reconciler<H, C>>(
        s3,
        seeds,
        seeds.len(),
        Reconciler::<H, C>::depth(value),
        extends::<H, C>(base),
    );
    lemma_build_node::<VirtualNode<H, C>, Reconciler<H, C>>(s2, value, extends::<H, C>(base.take(0)));
    let n = torn.handler.journal@.len() as int;
    assert(base.len() == n + 3);
    assert(base[n] == LifecycleEvent::WillUnmount(key));
    assert(base.is_prefix_of(after.handler.journal@));
    assert(after.handler.journal@[n] == base[n]);
    assert(after.handler.journal@[n + 1] == base[n + 1]);
    assert(after.handler.journal@[n + 2] == base[n + 2]);
    assert(torn.handler.journal@.is_prefix_of(after.handler.journal@));
    assert(!torn.nodes.contains_key(key.index));
}

/// Where the diff of the subtree at `key` keeps the shape, every key is
/// kept: no key is issued, the store holds a node under exactly the keys it
/// held one under, and `key` still stands at its position. Every component
/// lives on in the instance it had, and no component is created, told that
/// it is mounted, or told that it leaves: the journal goes on with renders
/// only. Where `get_derived_state_from_props` hands states on as they are,
/// every component has the state it had.
pub proof fn lemma_same_shape_keeps_identity<H: HostElement, C: Component<H>>(
    s: Stage<Reconciler<H, C>, VirtualNodeView<H, C>>,
    key: NodeKey,
    value: ElementView<H, C::Props>,
)
    requires
        keeps_shape::<VirtualNode<H, C>, Reconciler<H, C>>(s, key, value),
    ensures
        ({
            let (after, at) = update_node::<VirtualNode<H, C>, Reconciler<H, C>>(s, key, value);
            &&& at == key
            &&& after.next_key == s.next_key
            &&& only_renders::<H, C>(s.handler.journal@)(after.handler)
            &&& related(s.nodes, after.nodes, survives::<H, C>(false))
            &&& derives_nothing::<H, C>() ==> related(s.nodes, after.nodes, survives::<H, C>(true))
        }),
{
    let inv = only_renders::<H, C>(s.handler.journal@);
    assert(update_keeps::<VirtualNode<H, C>, Reconciler<H, C>>(inv, survives::<H, C>(false)));
    lemma_keeps_shape::<VirtualNode<H, C>, Reconciler<H, C>>(
        s,
        key,
        value,
        inv,
        survives::<H, C>(false),
    );
    if derives_nothing::<H, C>() {
        assert(update_keeps::<VirtualNode<H, C>, Reconciler<H, C>>(inv, survives::<H, C>(true)));
        lemma_keeps_shape::<VirtualNode<H, C>, Reconciler<H, C>>(
            s,
            key,
            value,
            inv,
            survives::<H, C>(true),
        );
    }
}


/// The nodes of which a component has at most one child.
pub open spec fn single_child<H: HostElement, C: Component<H>>() -> spec_fn(
    VirtualNodeView<H, C>,
) -> bool {
    |item: VirtualNodeView<H, C>| item is Stateful ==> item->Stateful_0.children.len() <= 1
}

impl<H: HostElement, C: Component<H>> TreeView<H, C> {
    /// The invariant of a virtual tree. Every live key was issued before
    /// the next key, and the children of a node have keys that were issued
    /// after the node's own, so that no node lies below itself. No key
    /// stands in the lists of children of two nodes, or twice in one, and
    /// every child that a list names is live. A component has at most one
    /// child. The root is live and the child of none.
    pub open spec fn shaped(self) -> bool {
        &&& tree_shaped::<VirtualNode<H, C>>(self.nodes, self.next_key, single_child::<H, C>(), 0)
        &&& match self.root {
            Some(root) => self.nodes.contains_key(root.index) && unreferenced::<VirtualNode<H, C>>(
                self.nodes,
                root.index,
            ),
            None => true,
        }
    }
}

/// What the shape of a tree says of one of its nodes: the keys of its
/// children were issued after its own, its children are live, and a
/// component has at most one.
pub proof fn lemma_shaped_at<H: HostElement, C: Component<H>>(tree: TreeView<H, C>, k: usize)
    requires
        tree.shaped(),
        tree.nodes.contains_key(k),
    ensures
        k < tree.next_key,
        tree.nodes[k] is Stateful ==> tree.nodes[k]->Stateful_0.children.len() <= 1,
        forall|i: int|
            0 <= i < VirtualNode::<H, C>::children_of(tree.nodes[k]).len() ==> {
                let child = (#[trigger] VirtualNode::<H, C>::children_of(tree.nodes[k])[i]).index;
                k < child < tree.next_key && tree.nodes.contains_key(child)
            },
{
    lemma_tree_shaped_at::<VirtualNode<H, C>>(
        tree.nodes,
        tree.next_key,
        single_child::<H, C>(),
        0,
        k,
    );
}

/// Live nodes carry the children they are given, and a component is never
/// given more than one.
pub proof fn lemma_nodes_keep_children<H: HostElement, C: Component<H>>()
    ensures
        keeps_children::<VirtualNode<H, C>, Reconciler<H, C>>(),
        keeps_ok::<VirtualNode<H, C>, Reconciler<H, C>>(single_child::<H, C>()),
{
}

/// A freshly mounted tree has the shape of a tree, with its root under the
/// first key, as long as the keys do not run out.
pub proof fn lemma_mount_shaped<H: HostElement, C: Component<H>>(
    element: ElementView<H, C::Props>,
    queue: UpdateQueue<C::State>,
)
    requires
        TreeView::<H, C>::mount(element, queue).next_key < usize::MAX,
    ensures
        TreeView::<H, C>::mount(element, queue).shaped(),
        TreeView::<H, C>::mount(element, queue).root == Some(NodeKey { index: 1 }),
{
    lemma_nodes_keep_children::<H, C>();
    let start = empty_stage::<Reconciler<H, C>, VirtualNodeView<H, C>>(Reconciler::fresh(queue));
    lemma_build_node_shape::<VirtualNode<H, C>, Reconciler<H, C>>(
        start,
        element,
        single_child::<H, C>(),
        0,
    );
}

/// An update keeps the shape of a tree, as long as the keys do not run out.
pub proof fn lemma_update_shaped<H: HostElement, C: Component<H>>(
    tree: TreeView<H, C>,
    element: ElementView<H, C::Props>,
    queue: UpdateQueue<C::State>,
)
    requires
        tree.shaped(),
        tree.update(element, queue).next_key < usize::MAX,
    ensures
        tree.update(element, queue).shaped(),
{
    lemma_nodes_keep_children::<H, C>();
    match tree.root {
        Some(root) => {
            lemma_update_node_shape::<VirtualNode<H, C>, Reconciler<H, C>>(
                tree.stage(queue),
                root,
                element,
                single_child::<H, C>(),
                0,
            );
        },
        None => {
            lemma_build_node_shape::<VirtualNode<H, C>, Reconciler<H, C>>(
                tree.stage(queue),
                element,
                single_child::<H, C>(),
                0,
            );
        },
    }
}

/// A queued state change keeps the shape of a tree, as long as the keys do
/// not run out.
pub proof fn lemma_apply_shaped<H: HostElement, C: Component<H>>(
    tree: TreeView<H, C>,
    update: QueuedUpdate<C::State>,
    queue: UpdateQueue<C::State>,
)
    requires
        tree.shaped(),
        tree.apply(update, queue).next_key < usize::MAX,
    ensures
        tree.apply(update, queue).shaped(),
{
    lemma_nodes_keep_children::<H, C>();
    let key = update.node;
    let ok = single_child::<H, C>();
    if tree.nodes.contains_key(key.index) && tree.nodes[key.index] is Stateful {
        let node = tree.nodes[key.index]->Stateful_0;
        let next = StatefulNodeView { state: update.change.spec_apply(node.state), ..node };
        let start = tree.stage(queue);
        let s1 = Stage {
            handler: start.handler.logged(LifecycleEvent::Rendered(key)),
            nodes: tree.nodes.remove(key.index),
            next_key: tree.next_key,
        };
        let seeds = seq![next.rendered(start.handler.updater(key))];
        let old_keys = node.children;
        assert(old_keys == VirtualNode::<H, C>::children_of(tree.nodes[key.index]));
        // While the node is out of the store, its key may be named without being live.
        assert(closed_except::<VirtualNode<H, C>>(tree.nodes, key.index));
        lemma_take_shape::<VirtualNode<H, C>>(tree.nodes, tree.next_key, ok, key.index, key.index);
        assert forall|i: int| 0 <= i < old_keys.len() implies (#[trigger] old_keys[i]).index
            < tree.next_key by {
            assert(in_range(
                VirtualNode::<H, C>::children_of(tree.nodes[key.index]),
                key.index,
                tree.next_key,
            ));
        }
        lemma_diff_children::<VirtualNode<H, C>, Reconciler<H, C>>(
            s1,
            old_keys,
            seeds,
            key,
            any_handler::<Reconciler<H, C>>(),
        );
        lemma_diff_children_well_formed::<VirtualNode<H, C>, Reconciler<H, C>>(
            s1,
            old_keys,
            seeds,
            key,
            ok,
        );
        lemma_diff_children_shape::<VirtualNode<H, C>, Reconciler<H, C>>(
            s1,
            old_keys,
            seeds,
            key,
            ok,
            key.index,
        );
        let (s2, keys) = diff_children::<VirtualNode<H, C>, Reconciler<H, C>>(
            s1,
            old_keys,
            seeds,
            key,
        );
        let made = VirtualNodeView::<H, C>::Stateful(StatefulNodeView { children: keys, ..next });
        let after = tree.apply(update, queue);
        assert(after.nodes == s2.nodes.insert(key.index, made));
        lemma_insert_shape::<VirtualNode<H, C>>(s2.nodes, s2.next_key, ok, key.index, key.index, made);
        assert forall|k: usize| #[trigger] after.nodes.contains_key(k) implies k < after.next_key
            && ok(after.nodes[k]) && in_range(
            VirtualNode::<H, C>::children_of(after.nodes[k]),
            k,
            after.next_key,
        ) by {
            if k != key.index {
                assert(s2.nodes.contains_key(k));
            }
        }
        assert forall|k: usize, i: int|
            after.nodes.contains_key(k) && 0 <= i < VirtualNode::<H, C>::children_of(
                after.nodes[k],
            ).len() implies {
            let child = (#[trigger] VirtualNode::<H, C>::children_of(after.nodes[k])[i]).index;
            child == 0 || after.nodes.contains_key(child)
        } by {
            let child = VirtualNode::<H, C>::children_of(after.nodes[k])[i].index;
            assert(child == key.index || after.nodes.contains_key(child));
        }
        match tree.root {
            Some(root) => {
                if root != key {
                    assert(s1.nodes.contains_key(root.index));
                    assert(unreferenced::<VirtualNode<H, C>>(s1.nodes, root.index));
                    assert forall|j: int| 0 <= j < old_keys.len() implies (
                    #[trigger] old_keys[j]).index != root.index by {
                        assert(VirtualNode::<H, C>::children_of(tree.nodes[key.index])[j].index
                            != root.index);
                    }
                    assert(s2.nodes.contains_key(root.index));
                    assert(unreferenced::<VirtualNode<H, C>>(s2.nodes, root.index));
                    assert forall|k: usize, i: int|
                        after.nodes.contains_key(k) && 0 <= i < VirtualNode::<H, C>::children_of(
                            after.nodes[k],
                        ).len() implies (#[trigger] VirtualNode::<H, C>::children_of(
                        after.nodes[k],
                    )[i]).index != root.index by {
                        if k == key.index {
                            if tree.next_key <= keys[i].index {
                            } else {
                                assert(keys[i] == old_keys[i]);
                            }
                        } else {
                            assert(VirtualNode::<H, C>::children_of(s2.nodes[k])[i].index
                                != root.index);
                        }
                    }
                } else {
                    assert(unreferenced::<VirtualNode<H, C>>(s1.nodes, key.index));
                    assert(unreferenced::<VirtualNode<H, C>>(s2.nodes, key.index));
                }
            },
            None => {},
        }
    }
}


/// Queued state changes never take a key back.
pub proof fn lemma_apply_all_grows<H: HostElement, C: Component<H>>(
    tree: TreeView<H, C>,
    updates: Seq<QueuedUpdate<C::State>>,
    n: nat,
    m: nat,
    queue: UpdateQueue<C::State>,
)
    requires
        n <= m <= updates.len(),
    ensures
        tree.next_key <= tree.apply_all(updates, n, queue).next_key <= tree.apply_all(
            updates,
            m,
            queue,
        ).next_key,
    decreases m,
{
    if m > 0 {
        let fewer = if n < m {
            n
        } else {
            (n - 1) as nat
        };
        lemma_apply_all_grows(tree, updates, fewer, (m - 1) as nat, queue);
        let before = tree.apply_all(updates, (m - 1) as nat, queue);
        let update = updates[m - 1];
        let key = update.node;
        if before.nodes.contains_key(key.index) && before.nodes[key.index] is Stateful {
            let node = before.nodes[key.index]->Stateful_0;
            let next = StatefulNodeView { state: update.change.spec_apply(node.state), ..node };
            let start = before.stage(queue);
            lemma_diff_children::<VirtualNode<H, C>, Reconciler<H, C>>(
                Stage {
                    handler: start.handler.logged(LifecycleEvent::Rendered(key)),
                    nodes: before.nodes.remove(key.index),
                    next_key: before.next_key,
                },
                node.children,
                seq![next.rendered(start.handler.updater(key))],
                key,
                any_handler::<Reconciler<H, C>>(),
            );
        }
    }
}

/// Queued state changes keep the shape of a tree, as long as the keys do
/// not run out.
pub proof fn lemma_apply_all_shaped<H: HostElement, C: Component<H>>(
    tree: TreeView<H, C>,
    updates: Seq<QueuedUpdate<C::State>>,
    n: nat,
    queue: UpdateQueue<C::State>,
)
    requires
        tree.shaped(),
        n <= updates.len(),
        tree.apply_all(updates, n, queue).next_key < usize::MAX,
    ensures
        tree.apply_all(updates, n, queue).shaped(),
    decreases n,
{
    if n > 0 {
        lemma_apply_all_grows(tree, updates, (n - 1) as nat, n, queue);
        lemma_apply_all_shaped(tree, updates, (n - 1) as nat, queue);
        lemma_apply_shaped(tree.apply_all(updates, (n - 1) as nat, queue), updates[n - 1], queue);
    }
}

/// An update never takes a key back.
pub proof fn lemma_update_grows<H: HostElement, C: Component<H>>(
    tree: TreeView<H, C>,
    element: ElementView<H, C::Props>,
    queue: UpdateQueue<C::State>,
)
    ensures
        tree.next_key <= tree.update(element, queue).next_key,
{
    match tree.root {
        Some(root) => {
            lemma_update_node::<VirtualNode<H, C>, Reconciler<H, C>>(
                tree.stage(queue),
                root,
                element,
                any_handler::<Reconciler<H, C>>(),
            );
        },
        None => {
            lemma_build_node::<VirtualNode<H, C>, Reconciler<H, C>>(
                tree.stage(queue),
                element,
                any_handler::<Reconciler<H, C>>(),
            );
        },
    }
}


/// A component is created, then rendered, then everything it rendered is
/// mounted, and only then is it told that it is mounted.
pub proof fn lemma_mount_order<H: HostElement, C: Component<H>>(
    s: Stage<Reconciler<H, C>, VirtualNodeView<H, C>>,
    props: C::Props,
)
    ensures
        ({
            let (after, at) = build_node::<VirtualNode<H, C>, Reconciler<H, C>>(
                s,
                ElementView::Stateful { props },
            );
            let journal = after.handler.journal@;
            let n = s.handler.journal@.len() as int;
            &&& s.handler.journal@.is_prefix_of(journal)
            &&& journal.len() >= n + 3
            &&& journal[n] == LifecycleEvent::Created(at)
            &&& journal[n + 1] == LifecycleEvent::Rendered(at)
            &&& journal.last() == LifecycleEvent::DidMount(at)
        }),
{
    let value = ElementView::<H, C::Props>::Stateful { props };
    let at = NodeKey { index: s.next_key };
    let (made, item, seeds) = s.handler.spec_mount(value, at);
    let base = made.journal@;
    lemma_journal_extends::<H, C>(base);
    lemma_build_list::<VirtualNode<H, C>, Reconciler<H, C>>(
        Stage { handler: made, nodes: s.nodes, next_key: following(s.next_key) },
        seeds,
        seeds.len(),
        Reconciler::<H, C>::depth(value),
        extends::<H, C>(base),
    );
    let after = build_node::<VirtualNode<H, C>, Reconciler<H, C>>(s, value).0;
    let n = s.handler.journal@.len() as int;
    assert(base.is_prefix_of(after.handler.journal@));
    assert(after.handler.journal@[n] == base[n]);
    assert(after.handler.journal@[n + 1] == base[n + 1]);
}

/// A component is told that it leaves only after everything below it was
/// torn down: of all that its teardown tells, this is the last.
pub proof fn lemma_unmount_order<H: HostElement, C: Component<H>>(
    s: Stage<Reconciler<H, C>, VirtualNodeView<H, C>>,
    key: NodeKey,
)
    requires
        s.nodes.contains_key(key.index),
        s.nodes[key.index] is Stateful,
    ensures
        ({
            let journal = unbuild_node::<VirtualNode<H, C>, Reconciler<H, C>>(
                s,
                key,
            ).handler.journal@;
            &&& s.handler.journal@.is_prefix_of(journal)
            &&& journal.len() > s.handler.journal@.len()
            &&& journal.last() == LifecycleEvent::WillUnmount(key)
        }),
{
    let node = s.nodes[key.index]->Stateful_0;
    lemma_journal_extends::<H, C>(s.handler.journal@);
    lemma_unbuild_list::<VirtualNode<H, C>, Reconciler<H, C>>(
        Stage { nodes: s.nodes.remove(key.index), ..s },
        node.children,
        node.children.len(),
        key,
        extends::<H, C>(s.handler.journal@),
    );
}

} // verus!
