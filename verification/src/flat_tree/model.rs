//! What the traversals of the store compute, as functions on the nodes of
//! a store, the index of its next key, and the handler or visitor that is
//! threaded through the traversal.
use crate::flat_tree::{
    GetNodeChildren, NodeKey, NodeLifecycle, NodeVisitor, NodeVisitorMut, UpdateView,
};
use vstd::prelude::*;

verus! {

/// The state that a traversal threads through the store: the handler, the
/// nodes by key index, and the index of the next key to issue.
pub ghost struct Stage<L, V> {
    pub handler: L,
    pub nodes: Map<usize, V>,
    pub next_key: usize,
}

/// The index of the key that is issued after the one with index `next`. The
/// key space ends at `usize::MAX`: a store that has come that far keeps
/// issuing its last key.
pub open spec fn following(next: usize) -> usize {
    if next < usize::MAX {
        (next + 1) as usize
    } else {
        next
    }
}

/// The largest distance a key can have from the end of the key space, plus
/// one: what the traversals of the store decrease.
pub open spec fn room(key: NodeKey) -> nat {
    (usize::MAX - key.index + 1) as nat
}

/// Mounts `seed` and everything below it: the node takes the next key, its
/// children are mounted after it, in order, and it enters the store last.
pub open spec fn build_node<Item: GetNodeChildren, L: NodeLifecycle<Item>>(
    s: Stage<L, Item::V>,
    seed: <L::Value as DeepView>::V,
) -> (Stage<L, Item::V>, NodeKey)
    decreases L::depth(seed) + 1, 0nat,
{
    let key = NodeKey { index: s.next_key };
    let (handler, item, seeds) = s.handler.spec_mount(seed, key);
    let (s2, keys) = build_list::<Item, L>(
        Stage { handler, nodes: s.nodes, next_key: following(s.next_key) },
        seeds,
        seeds.len(),
        L::depth(seed),
    );
    let (handler, item) = s2.handler.spec_mounted(Item::with_children(item, keys), key);
    (Stage { handler, nodes: s2.nodes.insert(key.index, item), next_key: s2.next_key }, key)
}

/// Mounts the first `n` of `seeds`, left to right. A seed that is not below
/// `bound` is passed over; a handler that keeps its word yields none.
pub open spec fn build_list<Item: GetNodeChildren, L: NodeLifecycle<Item>>(
    s: Stage<L, Item::V>,
    seeds: Seq<<L::Value as DeepView>::V>,
    n: nat,
    bound: nat,
) -> (Stage<L, Item::V>, Seq<NodeKey>)
    decreases bound, n + 1,
{
    if n == 0 || n > seeds.len() {
        (s, Seq::empty())
    } else {
        let (s1, keys) = build_list::<Item, L>(s, seeds, (n - 1) as nat, bound);
        if L::depth(seeds[n - 1]) < bound {
            let (s2, key) = build_node::<Item, L>(s1, seeds[n - 1]);
            (s2, keys.push(key))
        } else {
            (s1, keys)
        }
    }
}

/// Mounts the first `n` of `seeds`, left to right.
pub open spec fn build_each<Item: GetNodeChildren, L: NodeLifecycle<Item>>(
    s: Stage<L, Item::V>,
    seeds: Seq<<L::Value as DeepView>::V>,
    n: nat,
) -> (Stage<L, Item::V>, Seq<NodeKey>)
    decreases n,
{
    if n == 0 || n > seeds.len() {
        (s, Seq::empty())
    } else {
        let (s1, keys) = build_each::<Item, L>(s, seeds, (n - 1) as nat);
        let (s2, key) = build_node::<Item, L>(s1, seeds[n - 1]);
        (s2, keys.push(key))
    }
}

/// Tears down the node at `key` and everything below it: the node leaves the
/// store, then each child is torn down in order, and only then is the
/// handler told of the node itself. A key that is not in the store is
/// passed over.
pub open spec fn unbuild_node<Item: GetNodeChildren, L: NodeLifecycle<Item>>(
    s: Stage<L, Item::V>,
    key: NodeKey,
) -> Stage<L, Item::V>
    decreases room(key), 0nat,
{
    if s.nodes.contains_key(key.index) {
        let item = s.nodes[key.index];
        let s1 = unbuild_list::<Item, L>(
            Stage { nodes: s.nodes.remove(key.index), ..s },
            Item::children_of(item),
            Item::children_of(item).len(),
            key,
        );
        Stage { handler: s1.handler.spec_unmount(item, key), ..s1 }
    } else {
        s
    }
}

/// Tears down the first `n` of `keys`, the children of `parent`, left to
/// right. Keys are issued in increasing order, so a child's key lies above
/// its parent's; one that does not is passed over.
pub open spec fn unbuild_list<Item: GetNodeChildren, L: NodeLifecycle<Item>>(
    s: Stage<L, Item::V>,
    keys: Seq<NodeKey>,
    n: nat,
    parent: NodeKey,
) -> Stage<L, Item::V>
    decreases room(parent) - 1, n + 1,
{
    if n == 0 || n > keys.len() {
        s
    } else {
        let s1 = unbuild_list::<Item, L>(s, keys, (n - 1) as nat, parent);
        if keys[n - 1].index > parent.index {
            unbuild_node::<Item, L>(s1, keys[n - 1])
        } else {
            s1
        }
    }
}

/// The positional diff. The node at `key` is offered `value`. If it stays
/// unchanged, nothing below it is visited. If it changed, its children are
/// diffed by position against the new seeds. If it cannot take the value,
/// its whole subtree is torn down and the value is mounted under a fresh
/// key. The result is the key that now stands at this position.
pub open spec fn update_node<Item: GetNodeChildren, L: NodeLifecycle<Item>>(
    s: Stage<L, Item::V>,
    key: NodeKey,
    value: <L::Value as DeepView>::V,
) -> (Stage<L, Item::V>, NodeKey)
    decreases room(key), 0nat,
{
    if s.nodes.contains_key(key.index) {
        let item = s.nodes[key.index];
        let old_keys = Item::children_of(item);
        let (handler, update) = s.handler.spec_update(item, value, key);
        let s1 = Stage { handler, nodes: s.nodes.remove(key.index), next_key: s.next_key };
        match update {
            UpdateView::Unchanged(item) => (
                Stage { nodes: s1.nodes.insert(key.index, item), ..s1 },
                key,
            ),
            UpdateView::Changed(item, seeds) => {
                let (s2, keys) = diff_children::<Item, L>(s1, old_keys, seeds, key);
                (
                    Stage {
                        nodes: s2.nodes.insert(key.index, Item::with_children(item, keys)),
                        ..s2
                    },
                    key,
                )
            },
            UpdateView::Replaced(item, value) => {
                let s2 = unbuild_list::<Item, L>(s1, old_keys, old_keys.len(), key);
                build_node::<Item, L>(
                    Stage { handler: s2.handler.spec_unmount(item, key), ..s2 },
                    value,
                )
            },
        }
    } else {
        build_node::<Item, L>(s, value)
    }
}

/// Diffs the children `old_keys` of `parent` against `seeds`, by index: the
/// common prefix is updated pair by pair, then the old children beyond it
/// are torn down, or the seeds beyond it are mounted.
pub open spec fn diff_children<Item: GetNodeChildren, L: NodeLifecycle<Item>>(
    s: Stage<L, Item::V>,
    old_keys: Seq<NodeKey>,
    seeds: Seq<<L::Value as DeepView>::V>,
    parent: NodeKey,
) -> (Stage<L, Item::V>, Seq<NodeKey>)
    decreases room(parent) - 1, old_keys.len() + 2,
{
    let common = if old_keys.len() < seeds.len() {
        old_keys.len()
    } else {
        seeds.len()
    };
    let (s1, keys) = update_list::<Item, L>(s, old_keys, seeds, common, parent);
    if common < old_keys.len() {
        let rest = old_keys.subrange(common as int, old_keys.len() as int);
        (unbuild_list::<Item, L>(s1, rest, rest.len(), parent), keys)
    } else {
        let rest = seeds.subrange(common as int, seeds.len() as int);
        let (s2, fresh) = build_each::<Item, L>(s1, rest, rest.len());
        (s2, keys + fresh)
    }
}

/// Updates the first `n` pairs of `old_keys` and `seeds`, left to right. A
/// child whose key does not lie above its parent's is replaced by a fresh
/// mount of its seed.
pub open spec fn update_list<Item: GetNodeChildren, L: NodeLifecycle<Item>>(
    s: Stage<L, Item::V>,
    old_keys: Seq<NodeKey>,
    seeds: Seq<<L::Value as DeepView>::V>,
    n: nat,
    parent: NodeKey,
) -> (Stage<L, Item::V>, Seq<NodeKey>)
    decreases room(parent) - 1, n + 1,
{
    if n == 0 || n > old_keys.len() || n > seeds.len() {
        (s, Seq::empty())
    } else {
        let (s1, keys) = update_list::<Item, L>(s, old_keys, seeds, (n - 1) as nat, parent);
        let (s2, key) = if old_keys[n - 1].index > parent.index {
            update_node::<Item, L>(s1, old_keys[n - 1], seeds[n - 1])
        } else {
            build_node::<Item, L>(s1, seeds[n - 1])
        };
        (s2, keys.push(key))
    }
}

/// The diff of a whole tree: the root is offered `value`; where no tree is
/// mounted, `value` is mounted as the root.
pub open spec fn update_root<Item: GetNodeChildren, L: NodeLifecycle<Item>>(
    s: Stage<L, Item::V>,
    root: Option<NodeKey>,
    value: <L::Value as DeepView>::V,
) -> (Stage<L, Item::V>, NodeKey) {
    match root {
        Some(root) => update_node::<Item, L>(s, root, value),
        None => build_node::<Item, L>(s, value),
    }
}

/// The stage at which the first tree of a store is built.
pub open spec fn empty_stage<L, V>(handler: L) -> Stage<L, V> {
    Stage { handler, nodes: Map::empty(), next_key: 1 }
}

/// What the fold gives for the node at `key`, which is in the store.
pub open spec fn fold_node<'a, Item: GetNodeChildren + 'a, F: NodeVisitor<'a, Item>>(
    visitor: F,
    nodes: Map<usize, Item::V>,
    key: NodeKey,
) -> <F::Output as View>::V
    decreases room(key), 0nat,
{
    let item = nodes[key.index];
    visitor.spec_visit(
        item,
        fold_list::<Item, F>(
            visitor,
            nodes,
            Item::children_of(item),
            Item::children_of(item).len(),
            key,
        ),
    )
}

/// What the fold gives for the first `n` of `keys`, the children of
/// `parent`, left to right. A key that does not lie above its parent's, or
/// that is not in the store, contributes nothing.
pub open spec fn fold_list<'a, Item: GetNodeChildren + 'a, F: NodeVisitor<'a, Item>>(
    visitor: F,
    nodes: Map<usize, Item::V>,
    keys: Seq<NodeKey>,
    n: nat,
    parent: NodeKey,
) -> Seq<<F::Output as View>::V>
    decreases room(parent) - 1, n + 1,
{
    if n == 0 || n > keys.len() {
        Seq::empty()
    } else {
        let outs = fold_list::<Item, F>(visitor, nodes, keys, (n - 1) as nat, parent);
        let key = keys[n - 1];
        if key.index > parent.index && nodes.contains_key(key.index) {
            outs.push(fold_node::<Item, F>(visitor, nodes, key))
        } else {
            outs
        }
    }
}

/// What the changing fold leaves of the store and of the visitor, and what
/// it gives, for the node at `key`, which is in the store: the children
/// that the node has at the start are visited first, then the node as it
/// stands in the store by then.
pub open spec fn fold_mut_node<Item: GetNodeChildren, F: NodeVisitorMut<Item>>(
    visitor: F,
    nodes: Map<usize, Item::V>,
    key: NodeKey,
) -> (F, Map<usize, Item::V>, <F::Output as View>::V)
    decreases room(key), 0nat,
{
    let keys = Item::children_of(nodes[key.index]);
    let (visitor, nodes, outs) = fold_mut_list::<Item, F>(visitor, nodes, keys, keys.len(), key);
    let (visitor, item, out) = visitor.spec_visit_mut(nodes[key.index], outs, key);
    (visitor, nodes.insert(key.index, item), out)
}

/// The changing fold over the first `n` of `keys`, the children of
/// `parent`, left to right. A key that does not lie above its parent's, or
/// that is not in the store, is passed over.
pub open spec fn fold_mut_list<Item: GetNodeChildren, F: NodeVisitorMut<Item>>(
    visitor: F,
    nodes: Map<usize, Item::V>,
    keys: Seq<NodeKey>,
    n: nat,
    parent: NodeKey,
) -> (F, Map<usize, Item::V>, Seq<<F::Output as View>::V>)
    decreases room(parent) - 1, n + 1,
{
    if n == 0 || n > keys.len() {
        (visitor, nodes, Seq::empty())
    } else {
        let (visitor, nodes, outs) = fold_mut_list::<Item, F>(
            visitor,
            nodes,
            keys,
            (n - 1) as nat,
            parent,
        );
        let key = keys[n - 1];
        if key.index > parent.index && nodes.contains_key(key.index) {
            let (visitor, nodes, out) = fold_mut_node::<Item, F>(visitor, nodes, key);
            (visitor, nodes, outs.push(out))
        } else {
            (visitor, nodes, outs)
        }
    }
}

} // verus!
