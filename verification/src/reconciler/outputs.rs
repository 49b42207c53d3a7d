//! What a freshly mounted tree materializes into, told from the element
//! alone.
use crate::component::Component;
use crate::element::{DomNode, ElementView, HostElement};
use crate::flat_tree::laws::{
    any_handler, handler_keeps, in_range, lemma_build_list, lemma_build_list_well_formed,
    lemma_build_node, lemma_build_node_well_formed, lemma_well_formed_at, same_below,
    well_formed,
};
use crate::flat_tree::{
    build_list, build_node, fold_list, fold_node, following, room, GetNodeChildren, NodeKey,
    NodeLifecycle, NodeVisitor, Stage,
};
use crate::reconciler::laws::{lemma_nodes_keep_children, single_child};
use crate::reconciler::virtual_node::{concat, VirtualNodeView};
use crate::reconciler::{Materializer, Reconciler, StateUpdater, TreeView, UpdateQueue, VirtualNode};
use vstd::prelude::*;

verus! {

/// The visitor that materializes into `Dom`.
pub open spec fn materializer<Dom>() -> Materializer<Dom> {
    Materializer { output: core::marker::PhantomData }
}

/// The outputs that `element` contributes to its parent once it is mounted
/// under the key with index `next`, with handles on `queue`; and the index
/// of the key that is next after the mount. A host element materializes
/// into one output over those of its children; a fragment hands on those
/// of its children; a component hands on those of the element that it
/// renders when it was just created.
pub open spec fn mounted_outputs<'a, H: HostElement + 'a, C: Component<H> + 'a, Dom: DomNode<'a, Widget = H>>(
    element: ElementView<H, C::Props>,
    next: usize,
    queue: UpdateQueue<C::State>,
) -> (Seq<Dom>, usize)
    decreases Reconciler::<H, C>::depth(element) + 1, 0nat,
{
    let (item, seeds) = VirtualNodeView::<H, C>::mount(
        element,
        StateUpdater { queue, node: NodeKey { index: next } },
    );
    let (lists, after) = mounted_outputs_each::<H, C, Dom>(
        seeds,
        seeds.len(),
        following(next),
        queue,
        Reconciler::<H, C>::depth(element),
    );
    (item.outputs::<Dom>(lists), after)
}

/// The outputs of each of the first `n` of `seeds`, mounted one after the
/// other from the key with index `next` on.
pub open spec fn mounted_outputs_each<'a, H: HostElement + 'a, C: Component<H> + 'a, Dom: DomNode<'a, Widget = H>>(
    seeds: Seq<ElementView<H, C::Props>>,
    n: nat,
    next: usize,
    queue: UpdateQueue<C::State>,
    bound: nat,
) -> (Seq<Seq<Dom>>, usize)
    decreases bound, n + 1,
{
    if n == 0 || n > seeds.len() {
        (Seq::empty(), next)
    } else {
        let (lists, mid) = mounted_outputs_each::<H, C, Dom>(seeds, (n - 1) as nat, next, queue, bound);
        if Reconciler::<H, C>::depth(seeds[n - 1]) < bound {
            let (outs, after) = mounted_outputs::<H, C, Dom>(seeds[n - 1], mid, queue);
            (lists.push(outs), after)
        } else {
            (lists, mid)
        }
    }
}

/// The handlers on `queue`.
pub open spec fn on_queue<H: HostElement, C: Component<H>>(queue: UpdateQueue<C::State>) -> spec_fn(
    Reconciler<H, C>,
) -> bool {
    |handler: Reconciler<H, C>| handler.queue == queue
}

/// Whether `other` holds what `nodes` holds under every key index from
/// `from` up to `limit`, and nothing else under such an index.
pub open spec fn same_within<V>(nodes: Map<usize, V>, other: Map<usize, V>, from: usize, limit: usize) -> bool {
    forall|k: usize|
        from <= k < limit ==> (nodes.contains_key(k) <==> #[trigger] other.contains_key(k)) && (
        nodes.contains_key(k) ==> other[k] == nodes[k])
}

/// What a subtree materializes into depends on the nodes of the subtree
/// alone, and their keys lie from the key of its root up to the next key.
pub proof fn lemma_fold_within<'a, H: HostElement + 'a, C: Component<H> + 'a, Dom: DomNode<'a, Widget = H>>(
    nodes: Map<usize, VirtualNodeView<H, C>>,
    other: Map<usize, VirtualNodeView<H, C>>,
    key: NodeKey,
    limit: usize,
)
    requires
        well_formed::<VirtualNode<H, C>>(nodes, limit, single_child::<H, C>()),
        nodes.contains_key(key.index),
        same_within(nodes, other, key.index, limit),
    ensures
        fold_node::<VirtualNode<H, C>, Materializer<Dom>>(materializer::<Dom>(), other, key)
            == fold_node::<VirtualNode<H, C>, Materializer<Dom>>(materializer::<Dom>(), nodes, key),
    decreases room(key), 0nat,
{
    let keys = VirtualNode::<H, C>::children_of(nodes[key.index]);
    lemma_well_formed_at::<VirtualNode<H, C>>(nodes, limit, single_child::<H, C>(), key.index);
    assert(other.contains_key(key.index) && other[key.index] == nodes[key.index]);
    lemma_fold_list_within::<H, C, Dom>(nodes, other, keys, keys.len(), key, limit);
}

/// The same of the first `n` of the children of `parent`.
pub proof fn lemma_fold_list_within<'a, H: HostElement + 'a, C: Component<H> + 'a, Dom: DomNode<'a, Widget = H>>(
    nodes: Map<usize, VirtualNodeView<H, C>>,
    other: Map<usize, VirtualNodeView<H, C>>,
    keys: Seq<NodeKey>,
    n: nat,
    parent: NodeKey,
    limit: usize,
)
    requires
        well_formed::<VirtualNode<H, C>>(nodes, limit, single_child::<H, C>()),
        same_within(nodes, other, parent.index, limit),
        in_range(keys, parent.index, limit),
        n <= keys.len(),
    ensures
        fold_list::<VirtualNode<H, C>, Materializer<Dom>>(materializer::<Dom>(), other, keys, n, parent)
            == fold_list::<VirtualNode<H, C>, Materializer<Dom>>(
            materializer::<Dom>(),
            nodes,
            keys,
            n,
            parent,
        ),
    decreases room(parent) - 1, n + 1,
{
    if n > 0 {
        lemma_fold_list_within::<H, C, Dom>(nodes, other, keys, (n - 1) as nat, parent, limit);
        let key = keys[n - 1];
        assert(parent.index < key.index < limit);
        assert(nodes.contains_key(key.index) <==> other.contains_key(key.index));
        if nodes.contains_key(key.index) {
            assert forall|k: usize| key.index <= k < limit implies (nodes.contains_key(k)
                <==> #[trigger] other.contains_key(k)) && (nodes.contains_key(k) ==> other[k]
                == nodes[k]) by {}
            lemma_fold_within::<H, C, Dom>(nodes, other, key, limit);
        }
    }
}


/// Every call into a handler leaves it on its queue.
pub proof fn lemma_queue_kept<H: HostElement, C: Component<H>>(queue: UpdateQueue<C::State>)
    ensures
        handler_keeps::<VirtualNode<H, C>, Reconciler<H, C>>(on_queue::<H, C>(queue)),
{
}

/// The fold over children that are live and lie above their parent gives
/// what the fold gives for each of them, in order.
pub proof fn lemma_fold_list_is<'a, H: HostElement + 'a, C: Component<H> + 'a, Dom: DomNode<'a, Widget = H>>(
    nodes: Map<usize, VirtualNodeView<H, C>>,
    keys: Seq<NodeKey>,
    n: nat,
    parent: NodeKey,
    lists: Seq<Seq<Dom>>,
)
    requires
        n <= keys.len(),
        keys.len() == lists.len(),
        forall|i: int|
            0 <= i < keys.len() ==> parent.index < (#[trigger] keys[i]).index && nodes.contains_key(
                keys[i].index,
            ) && fold_node::<VirtualNode<H, C>, Materializer<Dom>>(
                materializer::<Dom>(),
                nodes,
                keys[i],
            ) == lists[i],
    ensures
        fold_list::<VirtualNode<H, C>, Materializer<Dom>>(
            materializer::<Dom>(),
            nodes,
            keys,
            n,
            parent,
        ) =~= lists.subrange(0, n as int),
    decreases n,
{
    if n > 0 {
        lemma_fold_list_is::<H, C, Dom>(nodes, keys, (n - 1) as nat, parent, lists);
        assert(parent.index < keys[n - 1].index);
    }
}

/// A freshly mounted subtree materializes into what its element says: the
/// fold over the subtree gives the outputs of the element, and the keys
/// that the mount issues are those that the element asks for.
pub proof fn lemma_mounted_outputs<'a, H: HostElement + 'a, C: Component<H> + 'a, Dom: DomNode<'a, Widget = H>>(
    s: Stage<Reconciler<H, C>, VirtualNodeView<H, C>>,
    element: ElementView<H, C::Props>,
)
    requires
        well_formed::<VirtualNode<H, C>>(s.nodes, s.next_key, single_child::<H, C>()),
        build_node::<VirtualNode<H, C>, Reconciler<H, C>>(s, element).0.next_key < usize::MAX,
    ensures
        ({
            let (after, at) = build_node::<VirtualNode<H, C>, Reconciler<H, C>>(s, element);
            let (outs, next) = mounted_outputs::<H, C, Dom>(element, s.next_key, s.handler.queue);
            &&& after.handler.queue == s.handler.queue
            &&& after.next_key == next
            &&& fold_node::<VirtualNode<H, C>, Materializer<Dom>>(
                materializer::<Dom>(),
                after.nodes,
                at,
            ) == outs
        }),
    decreases Reconciler::<H, C>::depth(element) + 1, 0nat,
{
    let ok = single_child::<H, C>();
    let queue = s.handler.queue;
    let key = NodeKey { index: s.next_key };
    let (handler, item, seeds) = s.handler.spec_mount(element, key);
    let bound = Reconciler::<H, C>::depth(element);
    let s1 = Stage { handler, nodes: s.nodes, next_key: following(s.next_key) };
    lemma_nodes_keep_children::<H, C>();
    lemma_queue_kept::<H, C>(queue);
    lemma_build_list::<VirtualNode<H, C>, Reconciler<H, C>>(
        s1,
        seeds,
        seeds.len(),
        bound,
        on_queue::<H, C>(queue),
    );
    lemma_build_node::<VirtualNode<H, C>, Reconciler<H, C>>(s, element, on_queue::<H, C>(queue));
    lemma_build_list_well_formed::<VirtualNode<H, C>, Reconciler<H, C>>(
        s1,
        seeds,
        seeds.len(),
        bound,
        ok,
    );
    lemma_mounted_outputs_each::<H, C, Dom>(s1, seeds, seeds.len(), bound);
    let (s2, keys) = build_list::<VirtualNode<H, C>, Reconciler<H, C>>(s1, seeds, seeds.len(), bound);
    let (lists, next) = mounted_outputs_each::<H, C, Dom>(
        seeds,
        seeds.len(),
        following(s.next_key),
        queue,
        bound,
    );
    let (after, at) = build_node::<VirtualNode<H, C>, Reconciler<H, C>>(s, element);
    let made = s2.handler.spec_mounted(VirtualNode::<H, C>::with_children(item, keys), key);
    assert(after.nodes == s2.nodes.insert(key.index, made.1));
    assert(VirtualNode::<H, C>::children_of(made.1) == keys);
    assert forall|i: int| 0 <= i < keys.len() implies key.index < (#[trigger] keys[i]).index
        && after.nodes.contains_key(keys[i].index) && fold_node::<
        VirtualNode<H, C>,
        Materializer<Dom>,
    >(materializer::<Dom>(), after.nodes, keys[i]) == lists[i] by {
        assert(s2.nodes.contains_key(keys[i].index));
        lemma_fold_within::<H, C, Dom>(s2.nodes, after.nodes, keys[i], s2.next_key);
    }
    lemma_fold_list_is::<H, C, Dom>(after.nodes, keys, keys.len(), key, lists);
    assert(lists.subrange(0, keys.len() as int) =~= lists);
    assert(made.1.outputs::<Dom>(lists) == item.outputs::<Dom>(lists));
}

/// The same of the first `n` of a list of seeds: each of the new subtrees
/// materializes into the outputs of its seed.
pub proof fn lemma_mounted_outputs_each<'a, H: HostElement + 'a, C: Component<H> + 'a, Dom: DomNode<'a, Widget = H>>(
    s: Stage<Reconciler<H, C>, VirtualNodeView<H, C>>,
    seeds: Seq<ElementView<H, C::Props>>,
    n: nat,
    bound: nat,
)
    requires
        well_formed::<VirtualNode<H, C>>(s.nodes, s.next_key, single_child::<H, C>()),
        build_list::<VirtualNode<H, C>, Reconciler<H, C>>(s, seeds, n, bound).0.next_key
            < usize::MAX,
        s.next_key > 0,
    ensures
        ({
            let (after, keys) = build_list::<VirtualNode<H, C>, Reconciler<H, C>>(
                s,
                seeds,
                n,
                bound,
            );
            let (lists, next) = mounted_outputs_each::<H, C, Dom>(
                seeds,
                n,
                s.next_key,
                s.handler.queue,
                bound,
            );
            &&& after.handler.queue == s.handler.queue
            &&& after.next_key == next
            &&& keys.len() == lists.len()
            &&& forall|i: int|
                0 <= i < keys.len() ==> s.next_key <= (#[trigger] keys[i]).index
                    && after.nodes.contains_key(keys[i].index) && fold_node::<
                    VirtualNode<H, C>,
                    Materializer<Dom>,
                >(materializer::<Dom>(), after.nodes, keys[i]) == lists[i]
        }),
    decreases bound, n + 1,
{
    let ok = single_child::<H, C>();
    let queue = s.handler.queue;
    if n == 0 || n > seeds.len() {
    } else {
        lemma_nodes_keep_children::<H, C>();
        lemma_queue_kept::<H, C>(queue);
        let (s1, keys) = build_list::<VirtualNode<H, C>, Reconciler<H, C>>(
            s,
            seeds,
            (n - 1) as nat,
            bound,
        );
        lemma_build_list::<VirtualNode<H, C>, Reconciler<H, C>>(
            s,
            seeds,
            (n - 1) as nat,
            bound,
            on_queue::<H, C>(queue),
        );
        if Reconciler::<H, C>::depth(seeds[n - 1]) < bound {
            lemma_build_node::<VirtualNode<H, C>, Reconciler<H, C>>(
                s1,
                seeds[n - 1],
                on_queue::<H, C>(queue),
            );
            lemma_build_list_well_formed::<VirtualNode<H, C>, Reconciler<H, C>>(
                s,
                seeds,
                (n - 1) as nat,
                bound,
                ok,
            );
            lemma_mounted_outputs_each::<H, C, Dom>(s, seeds, (n - 1) as nat, bound);
            lemma_mounted_outputs::<H, C, Dom>(s1, seeds[n - 1]);
            let (s2, at) = build_node::<VirtualNode<H, C>, Reconciler<H, C>>(s1, seeds[n - 1]);
            let (lists, mid) = mounted_outputs_each::<H, C, Dom>(
                seeds,
                (n - 1) as nat,
                s.next_key,
                queue,
                bound,
            );
            let (outs, next) = mounted_outputs::<H, C, Dom>(seeds[n - 1], mid, queue);
            let more = keys.push(at);
            let all = lists.push(outs);
            assert forall|i: int| 0 <= i < more.len() implies s.next_key <= (#[trigger] more[i]).index
                && s2.nodes.contains_key(more[i].index) && fold_node::<
                VirtualNode<H, C>,
                Materializer<Dom>,
            >(materializer::<Dom>(), s2.nodes, more[i]) == all[i] by {
                if i < keys.len() {
                    assert(more[i] == keys[i]);
                    assert(s1.nodes.contains_key(keys[i].index));
                    lemma_well_formed_at::<VirtualNode<H, C>>(
                        s1.nodes,
                        s1.next_key,
                        ok,
                        keys[i].index,
                    );
                    lemma_fold_within::<H, C, Dom>(s1.nodes, s2.nodes, keys[i], s1.next_key);
                }
            }
        } else {
            lemma_mounted_outputs_each::<H, C, Dom>(s, seeds, (n - 1) as nat, bound);
        }
    }
}

/// A freshly mounted tree materializes into the outputs of its element.
pub proof fn lemma_mount_outputs<'a, H: HostElement + 'a, C: Component<H> + 'a, Dom: DomNode<'a, Widget = H>>(
    element: ElementView<H, C::Props>,
    queue: UpdateQueue<C::State>,
)
    requires
        TreeView::<H, C>::mount(element, queue).next_key < usize::MAX,
    ensures
        TreeView::<H, C>::mount(element, queue).outputs::<Dom>() == mounted_outputs::<H, C, Dom>(
            element,
            1,
            queue,
        ).0,
{
    let start = crate::flat_tree::empty_stage::<Reconciler<H, C>, VirtualNodeView<H, C>>(
        Reconciler::fresh(queue),
    );
    lemma_well_formed_empty::<H, C>(start.nodes);
    lemma_mounted_outputs::<H, C, Dom>(start, element);
    lemma_build_node::<VirtualNode<H, C>, Reconciler<H, C>>(
        start,
        element,
        any_handler::<Reconciler<H, C>>(),
    );
}

/// A store without nodes is well formed.
pub proof fn lemma_well_formed_empty<H: HostElement, C: Component<H>>(
    nodes: Map<usize, VirtualNodeView<H, C>>,
)
    requires
        nodes == Map::<usize, VirtualNodeView<H, C>>::empty(),
    ensures
        well_formed::<VirtualNode<H, C>>(nodes, 1, single_child::<H, C>()),
{
}

} // verus!
