//! The store holds a forest: no key stands in two lists of children, or
//! twice in one, and what a list names is live.
use crate::flat_tree::laws::{
    any_handler, in_range, keeps_children, keeps_ok, lemma_build_each, lemma_build_list,
    lemma_build_list_well_formed, lemma_build_node, lemma_build_node_well_formed,
    lemma_diff_children, lemma_diff_children_well_formed, lemma_unbuild_list,
    lemma_unbuild_node, lemma_update_list, lemma_update_list_well_formed, lemma_update_node,
    lemma_update_node_well_formed, only_removed, same_below, well_formed,
};
use crate::flat_tree::model::{
    build_each, build_list, build_node, diff_children, following, room, unbuild_list,
    unbuild_node, update_list, update_node, Stage,
};
use crate::flat_tree::{GetNodeChildren, NodeKey, NodeLifecycle, UpdateView};
use vstd::prelude::*;

verus! {

/// Whether no node of `nodes` has a child with the key index `r`.
pub open spec fn unreferenced<Item: GetNodeChildren>(nodes: Map<usize, Item::V>, r: usize) -> bool {
    forall|k: usize, i: int|
        nodes.contains_key(k) && 0 <= i < Item::children_of(nodes[k]).len() ==> (
        #[trigger] Item::children_of(nodes[k])[i]).index != r
}

/// Whether no key stands in the lists of children of two nodes, or twice
/// in the list of one.
pub open spec fn no_sharing<Item: GetNodeChildren>(nodes: Map<usize, Item::V>) -> bool {
    forall|k1: usize, i1: int, k2: usize, i2: int|
        nodes.contains_key(k1) && 0 <= i1 < Item::children_of(nodes[k1]).len()
            && nodes.contains_key(k2) && 0 <= i2 < Item::children_of(nodes[k2]).len() && (k1 != k2
            || i1 != i2) ==> (#[trigger] Item::children_of(nodes[k1])[i1]).index != (
        #[trigger] Item::children_of(nodes[k2])[i2]).index
}

/// Whether every child that a node of `nodes` names is live, but for the
/// key index `hole`, which may be named while its node is out of the store.
pub open spec fn closed_except<Item: GetNodeChildren>(
    nodes: Map<usize, Item::V>,
    hole: usize,
) -> bool {
    forall|k: usize, i: int|
        nodes.contains_key(k) && 0 <= i < Item::children_of(nodes[k]).len() ==> {
            let child = (#[trigger] Item::children_of(nodes[k])[i]).index;
            child == hole || nodes.contains_key(child)
        }
}

/// The invariant of the shape of a store: it is well formed, no key is
/// shared, and every child that is named is live, but for `hole`.
pub open spec fn tree_shaped<Item: GetNodeChildren>(
    nodes: Map<usize, Item::V>,
    next_key: usize,
    ok: spec_fn(Item::V) -> bool,
    hole: usize,
) -> bool {
    &&& well_formed::<Item>(nodes, next_key, ok)
    &&& no_sharing::<Item>(nodes)
    &&& closed_except::<Item>(nodes, hole)
    &&& hole < next_key
}

/// What a shaped store says of one of its nodes: its key was issued before
/// the next key, the keys of its children after its own, and its children
/// are live, but for `hole`.
pub proof fn lemma_tree_shaped_at<Item: GetNodeChildren>(
    nodes: Map<usize, Item::V>,
    next_key: usize,
    ok: spec_fn(Item::V) -> bool,
    hole: usize,
    k: usize,
)
    requires
        tree_shaped::<Item>(nodes, next_key, ok, hole),
        nodes.contains_key(k),
    ensures
        k < next_key,
        ok(nodes[k]),
        in_range(Item::children_of(nodes[k]), k, next_key),
        forall|i: int|
            0 <= i < Item::children_of(nodes[k]).len() ==> (#[trigger] Item::children_of(
                nodes[k],
            )[i]).index == hole || nodes.contains_key(Item::children_of(nodes[k])[i].index),
{
}

/// Whether the keys of `keys` differ from one another.
pub open spec fn distinct(keys: Seq<NodeKey>) -> bool {
    forall|i: int, j: int|
        0 <= i < keys.len() && 0 <= j < keys.len() && i != j ==> (#[trigger] keys[i]).index != (
        #[trigger] keys[j]).index
}

/// Whether every key of `keys` is live in `nodes`, and the child of none.
pub open spec fn loose<Item: GetNodeChildren>(nodes: Map<usize, Item::V>, keys: Seq<NodeKey>) -> bool {
    forall|i: int|
        0 <= i < keys.len() ==> nodes.contains_key((#[trigger] keys[i]).index)
            && unreferenced::<Item>(nodes, keys[i].index)
}

/// Whether a traversal from `before` to `after` has made no key that was
/// issued before `limit` a child where it was none.
pub open spec fn names_no_more<Item: GetNodeChildren>(
    before: Map<usize, Item::V>,
    after: Map<usize, Item::V>,
    limit: usize,
) -> bool {
    forall|r: usize|
        r < limit && unreferenced::<Item>(before, r) ==> #[trigger] unreferenced::<Item>(after, r)
}

/// Whether a traversal from `before` to `after` has left live every node
/// that was live and the child of none, but for those under `targets`.
pub open spec fn spares<Item: GetNodeChildren>(
    before: Map<usize, Item::V>,
    after: Map<usize, Item::V>,
    targets: Seq<NodeKey>,
) -> bool {
    forall|r: usize|
        before.contains_key(r) && unreferenced::<Item>(before, r) && (forall|j: int|
            0 <= j < targets.len() ==> (#[trigger] targets[j]).index != r)
            ==> #[trigger] after.contains_key(r)
}

/// Mounting keeps the shape: the new subtree hangs on keys of its own, and
/// its root is live and the child of none.
pub proof fn lemma_build_node_shape<Item: GetNodeChildren, L: NodeLifecycle<Item>>(
    s: Stage<L, Item::V>,
    seed: <L::Value as DeepView>::V,
    ok: spec_fn(Item::V) -> bool,
    hole: usize,
)
    requires
        keeps_children::<Item, L>(),
        keeps_ok::<Item, L>(ok),
        tree_shaped::<Item>(s.nodes, s.next_key, ok, hole),
        build_node::<Item, L>(s, seed).0.next_key < usize::MAX,
    ensures
        ({
            let (after, at) = build_node::<Item, L>(s, seed);
            &&& tree_shaped::<Item>(after.nodes, after.next_key, ok, hole)
            &&& at.index == s.next_key
            &&& after.nodes.contains_key(at.index)
            &&& unreferenced::<Item>(after.nodes, at.index)
            &&& names_no_more::<Item>(s.nodes, after.nodes, s.next_key)
            &&& same_below(s.nodes, after.nodes, s.next_key)
        }),
    decreases L::depth(seed) + 1, 0nat,
{
    let key = NodeKey { index: s.next_key };
    let (handler, item, seeds) = s.handler.spec_mount(seed, key);
    let s1 = Stage { handler, nodes: s.nodes, next_key: following(s.next_key) };
    lemma_build_list::<Item, L>(s1, seeds, seeds.len(), L::depth(seed), any_handler::<L>());
    lemma_build_node::<Item, L>(s, seed, any_handler::<L>());
    lemma_build_node_well_formed::<Item, L>(s, seed, ok);
    lemma_build_list_well_formed::<Item, L>(s1, seeds, seeds.len(), L::depth(seed), ok);
    lemma_build_list_shape::<Item, L>(s1, seeds, seeds.len(), L::depth(seed), ok, hole);
    let (s2, keys) = build_list::<Item, L>(s1, seeds, seeds.len(), L::depth(seed));
    let made = s2.handler.spec_mounted(Item::with_children(item, keys), key);
    let after = build_node::<Item, L>(s, seed).0;
    assert(Item::children_of(made.1) == keys);
    assert(after.nodes == s2.nodes.insert(key.index, made.1));
    assert(unreferenced::<Item>(s.nodes, key.index));
    assert(unreferenced::<Item>(s2.nodes, key.index));
    lemma_insert_shape::<Item>(s2.nodes, s2.next_key, ok, hole, key.index, made.1);
    assert forall|r: usize| r < s.next_key && unreferenced::<Item>(s.nodes, r) implies #[trigger] unreferenced::<
        Item,
    >(after.nodes, r) by {
        assert(unreferenced::<Item>(s2.nodes, r));
    }
}

/// Putting a node into a shaped store keeps the shape, where the node goes
/// under a key that is the child of none, and its children are live, the
/// children of none, and differ from one another.
pub proof fn lemma_insert_shape<Item: GetNodeChildren>(
    nodes: Map<usize, Item::V>,
    next_key: usize,
    ok: spec_fn(Item::V) -> bool,
    hole: usize,
    key: usize,
    item: Item::V,
)
    requires
        no_sharing::<Item>(nodes),
        closed_except::<Item>(nodes, hole),
        loose::<Item>(nodes, Item::children_of(item)),
        distinct(Item::children_of(item)),
        forall|i: int|
            0 <= i < Item::children_of(item).len() ==> (#[trigger] Item::children_of(
                item,
            )[i]).index != key,
    ensures
        no_sharing::<Item>(nodes.insert(key, item)),
        closed_except::<Item>(nodes.insert(key, item), hole),
        unreferenced::<Item>(nodes, key) ==> unreferenced::<Item>(nodes.insert(key, item), key),
{
    let after = nodes.insert(key, item);
    let keys = Item::children_of(item);
    assert forall|k1: usize, i1: int, k2: usize, i2: int|
        after.contains_key(k1) && 0 <= i1 < Item::children_of(after[k1]).len()
            && after.contains_key(k2) && 0 <= i2 < Item::children_of(after[k2]).len() && (k1 != k2
            || i1 != i2) implies (#[trigger] Item::children_of(after[k1])[i1]).index != (
    #[trigger] Item::children_of(after[k2])[i2]).index by {
        if k1 == key && k2 == key {
        } else if k1 == key {
            assert(unreferenced::<Item>(nodes, keys[i1].index));
            assert(Item::children_of(nodes[k2])[i2].index != keys[i1].index);
        } else if k2 == key {
            assert(unreferenced::<Item>(nodes, keys[i2].index));
            assert(Item::children_of(nodes[k1])[i1].index != keys[i2].index);
        } else {
        }
    }
    assert forall|k: usize, i: int|
        after.contains_key(k) && 0 <= i < Item::children_of(after[k]).len() implies {
        let child = (#[trigger] Item::children_of(after[k])[i]).index;
        child == hole || after.contains_key(child)
    } by {
        if k == key {
            assert(nodes.contains_key(keys[i].index));
        } else {
            let child = Item::children_of(nodes[k])[i].index;
            assert(child == hole || nodes.contains_key(child));
        }
    }
    if unreferenced::<Item>(nodes, key) {
        assert forall|k: usize, i: int|
            after.contains_key(k) && 0 <= i < Item::children_of(after[k]).len() implies (
        #[trigger] Item::children_of(after[k])[i]).index != key by {
            if k != key {
                assert(Item::children_of(nodes[k])[i].index != key);
            }
        }
    }
}

/// The same of the first `n` of a list of seeds: the roots of the new
/// subtrees are live, the children of none, and differ from one another.
pub proof fn lemma_build_list_shape<Item: GetNodeChildren, L: NodeLifecycle<Item>>(
    s: Stage<L, Item::V>,
    seeds: Seq<<L::Value as DeepView>::V>,
    n: nat,
    bound: nat,
    ok: spec_fn(Item::V) -> bool,
    hole: usize,
)
    requires
        keeps_children::<Item, L>(),
        keeps_ok::<Item, L>(ok),
        tree_shaped::<Item>(s.nodes, s.next_key, ok, hole),
        build_list::<Item, L>(s, seeds, n, bound).0.next_key < usize::MAX,
    ensures
        ({
            let (after, keys) = build_list::<Item, L>(s, seeds, n, bound);
            &&& tree_shaped::<Item>(after.nodes, after.next_key, ok, hole)
            &&& loose::<Item>(after.nodes, keys)
            &&& distinct(keys)
            &&& forall|i: int| 0 <= i < keys.len() ==> s.next_key <= (#[trigger] keys[i]).index
            &&& names_no_more::<Item>(s.nodes, after.nodes, s.next_key)
            &&& same_below(s.nodes, after.nodes, s.next_key)
        }),
    decreases bound, n + 1,
{
    if n == 0 || n > seeds.len() {
    } else {
        let (s1, keys) = build_list::<Item, L>(s, seeds, (n - 1) as nat, bound);
        lemma_build_list::<Item, L>(s, seeds, (n - 1) as nat, bound, any_handler::<L>());
        if L::depth(seeds[n - 1]) < bound {
            lemma_build_node::<Item, L>(s1, seeds[n - 1], any_handler::<L>());
            lemma_build_list_shape::<Item, L>(s, seeds, (n - 1) as nat, bound, ok, hole);
            lemma_build_list_well_formed::<Item, L>(s, seeds, (n - 1) as nat, bound, ok);
            lemma_build_node_shape::<Item, L>(s1, seeds[n - 1], ok, hole);
            let (s2, at) = build_node::<Item, L>(s1, seeds[n - 1]);
            lemma_push_fresh::<Item>(
                s.nodes,
                s.next_key,
                s1.nodes,
                s1.next_key,
                s2.nodes,
                keys,
                at,
                ok,
            );
        } else {
            lemma_build_list_shape::<Item, L>(s, seeds, (n - 1) as nat, bound, ok, hole);
        }
    }
    let (after, keys) = build_list::<Item, L>(s, seeds, n, bound);
    assert(tree_shaped::<Item>(after.nodes, after.next_key, ok, hole));
    assert(loose::<Item>(after.nodes, keys));
    assert(distinct(keys));
    assert(names_no_more::<Item>(s.nodes, after.nodes, s.next_key));
    assert(same_below(s.nodes, after.nodes, s.next_key));
}


/// The same of the first `n` of a list of seeds: the roots of the new
/// subtrees are live, the children of none, and differ from one another.
pub proof fn lemma_build_each_shape<Item: GetNodeChildren, L: NodeLifecycle<Item>>(
    s: Stage<L, Item::V>,
    seeds: Seq<<L::Value as DeepView>::V>,
    n: nat,
    ok: spec_fn(Item::V) -> bool,
    hole: usize,
)
    requires
        keeps_children::<Item, L>(),
        keeps_ok::<Item, L>(ok),
        tree_shaped::<Item>(s.nodes, s.next_key, ok, hole),
        build_each::<Item, L>(s, seeds, n).0.next_key < usize::MAX,
        n <= seeds.len(),
    ensures
        ({
            let (after, keys) = build_each::<Item, L>(s, seeds, n);
            &&& tree_shaped::<Item>(after.nodes, after.next_key, ok, hole)
            &&& loose::<Item>(after.nodes, keys)
            &&& distinct(keys)
            &&& forall|i: int| 0 <= i < keys.len() ==> s.next_key <= (#[trigger] keys[i]).index
            &&& names_no_more::<Item>(s.nodes, after.nodes, s.next_key)
            &&& same_below(s.nodes, after.nodes, s.next_key)
        }),
    decreases n,
{
    if n > 0 {
        let (s1, keys) = build_each::<Item, L>(s, seeds, (n - 1) as nat);
        lemma_build_each::<Item, L>(s, seeds, (n - 1) as nat, any_handler::<L>());
        lemma_build_node::<Item, L>(s1, seeds[n - 1], any_handler::<L>());
        lemma_build_each_shape::<Item, L>(s, seeds, (n - 1) as nat, ok, hole);
        lemma_build_node_shape::<Item, L>(s1, seeds[n - 1], ok, hole);
        let (s2, at) = build_node::<Item, L>(s1, seeds[n - 1]);
        lemma_push_fresh::<Item>(s.nodes, s.next_key, s1.nodes, s1.next_key, s2.nodes, keys, at, ok);
    }
    let (after, keys) = build_each::<Item, L>(s, seeds, n);
    assert(tree_shaped::<Item>(after.nodes, after.next_key, ok, hole));
    assert(loose::<Item>(after.nodes, keys));
    assert(distinct(keys));
    assert(names_no_more::<Item>(s.nodes, after.nodes, s.next_key));
    assert(same_below(s.nodes, after.nodes, s.next_key));
}

/// After one more subtree was mounted, under `at`, the keys of the
/// subtrees that were mounted before it are still live, the children of
/// none, and differ from one another and from `at`.
pub proof fn lemma_push_fresh<Item: GetNodeChildren>(
    start: Map<usize, Item::V>,
    start_key: usize,
    before: Map<usize, Item::V>,
    before_key: usize,
    after: Map<usize, Item::V>,
    keys: Seq<NodeKey>,
    at: NodeKey,
    ok: spec_fn(Item::V) -> bool,
)
    requires
        start_key <= before_key,
        well_formed::<Item>(before, before_key, ok),
        loose::<Item>(before, keys),
        distinct(keys),
        at.index == before_key,
        after.contains_key(at.index),
        unreferenced::<Item>(after, at.index),
        names_no_more::<Item>(start, before, start_key),
        same_below(start, before, start_key),
        names_no_more::<Item>(before, after, before_key),
        same_below(before, after, before_key),
    ensures
        loose::<Item>(after, keys.push(at)),
        distinct(keys.push(at)),
        names_no_more::<Item>(start, after, start_key),
        same_below(start, after, start_key),
{
    let more = keys.push(at);
    assert forall|i: int| 0 <= i < more.len() implies after.contains_key((#[trigger] more[i]).index)
        && unreferenced::<Item>(after, more[i].index) by {
        if i < keys.len() {
            assert(more[i] == keys[i]);
            assert(before.contains_key(keys[i].index));
            assert(unreferenced::<Item>(before, keys[i].index));
        }
    }
    assert forall|i: int, j: int|
        0 <= i < more.len() && 0 <= j < more.len() && i != j implies (#[trigger] more[i]).index != (
    #[trigger] more[j]).index by {
        if i < keys.len() {
            assert(before.contains_key(keys[i].index));
        }
        if j < keys.len() {
            assert(before.contains_key(keys[j].index));
        }
    }
    assert forall|r: usize| r < start_key && unreferenced::<Item>(start, r) implies #[trigger] unreferenced::<
        Item,
    >(after, r) by {
        assert(unreferenced::<Item>(before, r));
    }
    assert forall|k: usize| k < start_key implies (start.contains_key(k)
        <==> #[trigger] after.contains_key(k)) && (start.contains_key(k) ==> after[k] == start[k]) by {
        assert(before.contains_key(k) <==> start.contains_key(k));
    }
}

/// Whether none of `keys` is the child of a node of `nodes`.
pub open spec fn unnamed<Item: GetNodeChildren>(nodes: Map<usize, Item::V>, keys: Seq<NodeKey>) -> bool {
    forall|i: int| 0 <= i < keys.len() ==> unreferenced::<Item>(nodes, (#[trigger] keys[i]).index)
}

/// A store from which nodes were taken names no key that it did not name
/// before, and shares none.
pub proof fn lemma_removed<Item: GetNodeChildren>(
    before: Map<usize, Item::V>,
    after: Map<usize, Item::V>,
    next_key: usize,
    ok: spec_fn(Item::V) -> bool,
)
    requires
        only_removed(before, after),
    ensures
        forall|r: usize| unreferenced::<Item>(before, r) ==> #[trigger] unreferenced::<Item>(after, r),
        no_sharing::<Item>(before) ==> no_sharing::<Item>(after),
        well_formed::<Item>(before, next_key, ok) ==> well_formed::<Item>(after, next_key, ok),
{
    assert forall|r: usize| unreferenced::<Item>(before, r) implies #[trigger] unreferenced::<Item>(
        after,
        r,
    ) by {
        assert forall|k: usize, i: int|
            after.contains_key(k) && 0 <= i < Item::children_of(after[k]).len() implies (
        #[trigger] Item::children_of(after[k])[i]).index != r by {
            assert(before.contains_key(k));
            assert(Item::children_of(before[k])[i].index != r);
        }
    }
    if no_sharing::<Item>(before) {
        assert forall|k1: usize, i1: int, k2: usize, i2: int|
            after.contains_key(k1) && 0 <= i1 < Item::children_of(after[k1]).len()
                && after.contains_key(k2) && 0 <= i2 < Item::children_of(after[k2]).len() && (k1
                != k2 || i1 != i2) implies (#[trigger] Item::children_of(after[k1])[i1]).index != (
        #[trigger] Item::children_of(after[k2])[i2]).index by {
            assert(before.contains_key(k1) && before.contains_key(k2));
            assert(Item::children_of(before[k1])[i1].index != Item::children_of(
                before[k2],
            )[i2].index);
        }
    }
    if well_formed::<Item>(before, next_key, ok) {
        assert forall|k: usize| #[trigger] after.contains_key(k) implies k < next_key && ok(after[k])
            && in_range(Item::children_of(after[k]), k, next_key) by {
            assert(before.contains_key(k));
        }
    }
}

/// Taking a node that is the child of none out of a shaped store leaves a
/// shaped store, of which the children of the node are the children of
/// none.
pub proof fn lemma_take_shape<Item: GetNodeChildren>(
    nodes: Map<usize, Item::V>,
    next_key: usize,
    ok: spec_fn(Item::V) -> bool,
    hole: usize,
    key: usize,
)
    requires
        tree_shaped::<Item>(nodes, next_key, ok, hole),
        nodes.contains_key(key),
        unreferenced::<Item>(nodes, key) || key == hole,
    ensures
        tree_shaped::<Item>(nodes.remove(key), next_key, ok, hole),
        unnamed::<Item>(nodes.remove(key), Item::children_of(nodes[key])),
        distinct(Item::children_of(nodes[key])),
        forall|r: usize| unreferenced::<Item>(nodes, r) ==> #[trigger] unreferenced::<Item>(
            nodes.remove(key),
            r,
        ),
        forall|i: int|
            0 <= i < Item::children_of(nodes[key]).len() ==> !unreferenced::<Item>(
                nodes,
                (#[trigger] Item::children_of(nodes[key])[i]).index,
            ),
{
    let after = nodes.remove(key);
    let keys = Item::children_of(nodes[key]);
    assert(only_removed(nodes, after));
    lemma_removed::<Item>(nodes, after, next_key, ok);
    assert forall|k: usize, i: int|
        after.contains_key(k) && 0 <= i < Item::children_of(after[k]).len() implies {
        let child = (#[trigger] Item::children_of(after[k])[i]).index;
        child == hole || after.contains_key(child)
    } by {
        let child = Item::children_of(nodes[k])[i].index;
        assert(child == hole || nodes.contains_key(child));
        assert(child != key || key == hole);
    }
    assert forall|i: int| 0 <= i < keys.len() implies unreferenced::<Item>(
        after,
        (#[trigger] keys[i]).index,
    ) by {
        assert forall|k: usize, j: int|
            after.contains_key(k) && 0 <= j < Item::children_of(after[k]).len() implies (
        #[trigger] Item::children_of(after[k])[j]).index != keys[i].index by {
            assert(Item::children_of(nodes[k])[j].index != Item::children_of(nodes[key])[i].index);
        }
    }
    assert forall|i: int, j: int|
        0 <= i < keys.len() && 0 <= j < keys.len() && i != j implies (#[trigger] keys[i]).index != (
    #[trigger] keys[j]).index by {
        assert(Item::children_of(nodes[key])[i].index != Item::children_of(nodes[key])[j].index);
    }
    assert forall|i: int| 0 <= i < keys.len() implies !unreferenced::<Item>(
        nodes,
        (#[trigger] Item::children_of(nodes[key])[i]).index,
    ) by {
        let r = Item::children_of(nodes[key])[i].index;
        if unreferenced::<Item>(nodes, r) {
            assert(Item::children_of(nodes[key])[i].index != r);
        }
    }
}

/// Tearing a subtree down keeps the shape, where the root of the subtree
/// is the child of none; and what was live and the child of none stays
/// live, but for that root.
pub proof fn lemma_unbuild_node_shape<Item: GetNodeChildren, L: NodeLifecycle<Item>>(
    s: Stage<L, Item::V>,
    key: NodeKey,
    ok: spec_fn(Item::V) -> bool,
    hole: usize,
)
    requires
        tree_shaped::<Item>(s.nodes, s.next_key, ok, hole),
        unreferenced::<Item>(s.nodes, key.index),
    ensures
        ({
            let after = unbuild_node::<Item, L>(s, key);
            &&& tree_shaped::<Item>(after.nodes, after.next_key, ok, hole)
            &&& after.next_key == s.next_key
            &&& only_removed(s.nodes, after.nodes)
            &&& spares::<Item>(s.nodes, after.nodes, seq![key])
        }),
    decreases room(key), 0nat,
{
    lemma_unbuild_node::<Item, L>(s, key, any_handler::<L>());
    let after = unbuild_node::<Item, L>(s, key);
    if s.nodes.contains_key(key.index) {
        let item = s.nodes[key.index];
        let keys = Item::children_of(item);
        let s1 = Stage { nodes: s.nodes.remove(key.index), ..s };
        lemma_take_shape::<Item>(s.nodes, s.next_key, ok, hole, key.index);
        lemma_unbuild_list_shape::<Item, L>(s1, keys, keys.len(), key, ok, hole);
        let s2 = unbuild_list::<Item, L>(s1, keys, keys.len(), key);
        assert(after.nodes == s2.nodes);
        assert forall|r: usize|
            s.nodes.contains_key(r) && unreferenced::<Item>(s.nodes, r) && (forall|j: int|
                0 <= j < seq![key].len() ==> (#[trigger] seq![key][j]).index != r)
                implies #[trigger] after.nodes.contains_key(r) by {
            assert(seq![key][0].index != r);
            assert(s1.nodes.contains_key(r));
            assert(unreferenced::<Item>(s1.nodes, r));
            assert forall|j: int| 0 <= j < keys.len() implies (#[trigger] keys[j]).index != r by {
                assert(!unreferenced::<Item>(s.nodes, Item::children_of(s.nodes[key.index])[j].index));
            }
        }
    } else {
        assert(after == s);
    }
    assert(spares::<Item>(s.nodes, after.nodes, seq![key]));
}

/// The same of the first `n` of a list of children, none of which is the
/// child of a node in the store.
pub proof fn lemma_unbuild_list_shape<Item: GetNodeChildren, L: NodeLifecycle<Item>>(
    s: Stage<L, Item::V>,
    keys: Seq<NodeKey>,
    n: nat,
    parent: NodeKey,
    ok: spec_fn(Item::V) -> bool,
    hole: usize,
)
    requires
        tree_shaped::<Item>(s.nodes, s.next_key, ok, hole),
        unnamed::<Item>(s.nodes, keys),
    ensures
        ({
            let after = unbuild_list::<Item, L>(s, keys, n, parent);
            &&& tree_shaped::<Item>(after.nodes, after.next_key, ok, hole)
            &&& after.next_key == s.next_key
            &&& only_removed(s.nodes, after.nodes)
            &&& spares::<Item>(s.nodes, after.nodes, keys)
        }),
    decreases room(parent) - 1, n + 1,
{
    lemma_unbuild_list::<Item, L>(s, keys, n, parent, any_handler::<L>());
    let after = unbuild_list::<Item, L>(s, keys, n, parent);
    if n == 0 || n > keys.len() {
    } else {
        let s1 = unbuild_list::<Item, L>(s, keys, (n - 1) as nat, parent);
        lemma_unbuild_list_shape::<Item, L>(s, keys, (n - 1) as nat, parent, ok, hole);
        lemma_removed::<Item>(s.nodes, s1.nodes, s.next_key, ok);
        if keys[n - 1].index > parent.index {
            assert(unreferenced::<Item>(s.nodes, keys[n - 1].index));
            assert(unreferenced::<Item>(s1.nodes, keys[n - 1].index));
            lemma_unbuild_node_shape::<Item, L>(s1, keys[n - 1], ok, hole);
            assert forall|r: usize|
                s.nodes.contains_key(r) && unreferenced::<Item>(s.nodes, r) && (forall|j: int|
                    0 <= j < keys.len() ==> (#[trigger] keys[j]).index != r)
                    implies #[trigger] after.nodes.contains_key(r) by {
                assert(s1.nodes.contains_key(r));
                assert(unreferenced::<Item>(s1.nodes, r));
                assert(keys[n - 1].index != r);
                assert(seq![keys[n - 1]][0] == keys[n - 1]);
                assert forall|j: int| 0 <= j < seq![keys[n - 1]].len() implies (
                #[trigger] seq![keys[n - 1]][j]).index != r by {}
            }
        }
    }
    assert(spares::<Item>(s.nodes, after.nodes, keys));
}


/// Whether each of `keys` stands where it stood in `old_keys`, or was
/// issued at or after `limit`.
pub open spec fn kept_or_fresh(keys: Seq<NodeKey>, old_keys: Seq<NodeKey>, limit: usize) -> bool {
    forall|i: int|
        0 <= i < keys.len() ==> limit <= (#[trigger] keys[i]).index || (i < old_keys.len()
            && keys[i] == old_keys[i])
}

/// Putting another item with the same children in the place of a node keeps
/// the shape, and what is named.
pub proof fn lemma_swap_shape<Item: GetNodeChildren>(
    nodes: Map<usize, Item::V>,
    next_key: usize,
    ok: spec_fn(Item::V) -> bool,
    hole: usize,
    key: usize,
    left: Item::V,
)
    requires
        tree_shaped::<Item>(nodes, next_key, ok, hole),
        nodes.contains_key(key),
        Item::children_of(left) == Item::children_of(nodes[key]),
        ok(left),
    ensures
        tree_shaped::<Item>(nodes.insert(key, left), next_key, ok, hole),
        forall|r: usize| unreferenced::<Item>(nodes, r) ==> #[trigger] unreferenced::<Item>(
            nodes.insert(key, left),
            r,
        ),
{
    let after = nodes.insert(key, left);
    assert forall|k: usize| #[trigger] after.contains_key(k) implies nodes.contains_key(k)
        && Item::children_of(after[k]) == Item::children_of(nodes[k]) by {}
    assert forall|k: usize| #[trigger] after.contains_key(k) implies k < next_key && ok(after[k])
        && in_range(Item::children_of(after[k]), k, next_key) by {
        assert(nodes.contains_key(k));
    }
    assert forall|k1: usize, i1: int, k2: usize, i2: int|
        after.contains_key(k1) && 0 <= i1 < Item::children_of(after[k1]).len()
            && after.contains_key(k2) && 0 <= i2 < Item::children_of(after[k2]).len() && (k1 != k2
            || i1 != i2) implies (#[trigger] Item::children_of(after[k1])[i1]).index != (
    #[trigger] Item::children_of(after[k2])[i2]).index by {
        assert(Item::children_of(nodes[k1])[i1].index != Item::children_of(nodes[k2])[i2].index);
    }
    assert forall|k: usize, i: int|
        after.contains_key(k) && 0 <= i < Item::children_of(after[k]).len() implies {
        let child = (#[trigger] Item::children_of(after[k])[i]).index;
        child == hole || after.contains_key(child)
    } by {
        let child = Item::children_of(nodes[k])[i].index;
        assert(child == hole || nodes.contains_key(child));
    }
    assert forall|r: usize| unreferenced::<Item>(nodes, r) implies #[trigger] unreferenced::<Item>(
        after,
        r,
    ) by {
        assert forall|k: usize, i: int|
            after.contains_key(k) && 0 <= i < Item::children_of(after[k]).len() implies (
        #[trigger] Item::children_of(after[k])[i]).index != r by {
            assert(Item::children_of(nodes[k])[i].index != r);
        }
    }
}

/// After one more child was diffed, the keys that the diffs before it have
/// left are still live, the children of none, and differ from one another
/// and from the key that this diff has left.
pub proof fn lemma_push_updated<Item: GetNodeChildren>(
    start: Map<usize, Item::V>,
    start_key: usize,
    before: Map<usize, Item::V>,
    before_key: usize,
    after: Map<usize, Item::V>,
    old_keys: Seq<NodeKey>,
    keys: Seq<NodeKey>,
    at: NodeKey,
    ok: spec_fn(Item::V) -> bool,
)
    requires
        start_key <= before_key,
        well_formed::<Item>(start, start_key, ok),
        well_formed::<Item>(before, before_key, ok),
        keys.len() < old_keys.len(),
        distinct(old_keys),
        forall|i: int| 0 <= i < old_keys.len() ==> (#[trigger] old_keys[i]).index < start_key,
        loose::<Item>(before, keys),
        distinct(keys),
        kept_or_fresh(keys, old_keys, start_key),
        names_no_more::<Item>(start, before, start_key),
        spares::<Item>(start, before, old_keys),
        after.contains_key(at.index),
        unreferenced::<Item>(after, at.index),
        at == old_keys[keys.len() as int] || before_key <= at.index,
        names_no_more::<Item>(before, after, before_key),
        spares::<Item>(before, after, seq![old_keys[keys.len() as int]]),
    ensures
        loose::<Item>(after, keys.push(at)),
        distinct(keys.push(at)),
        kept_or_fresh(keys.push(at), old_keys, start_key),
        names_no_more::<Item>(start, after, start_key),
        spares::<Item>(start, after, old_keys),
{
    let more = keys.push(at);
    let target = old_keys[keys.len() as int];
    assert(seq![target][0] == target);
    assert forall|i: int| 0 <= i < keys.len() implies (#[trigger] keys[i]).index != target.index by {
        assert(before.contains_key(keys[i].index));
        if start_key <= keys[i].index {
        } else {
            assert(keys[i] == old_keys[i]);
        }
    }
    assert forall|i: int| 0 <= i < more.len() implies after.contains_key((#[trigger] more[i]).index)
        && unreferenced::<Item>(after, more[i].index) by {
        if i < keys.len() {
            assert(more[i] == keys[i]);
            assert(before.contains_key(keys[i].index));
            assert(unreferenced::<Item>(before, keys[i].index));
            assert(keys[i].index != target.index);
            assert forall|j: int| 0 <= j < seq![target].len() implies (
            #[trigger] seq![target][j]).index != keys[i].index by {}
        }
    }
    assert forall|i: int, j: int|
        0 <= i < more.len() && 0 <= j < more.len() && i != j implies (#[trigger] more[i]).index != (
    #[trigger] more[j]).index by {
        if i < keys.len() {
            assert(before.contains_key(keys[i].index));
            assert(keys[i].index != target.index);
        }
        if j < keys.len() {
            assert(before.contains_key(keys[j].index));
            assert(keys[j].index != target.index);
        }
    }
    assert forall|i: int| 0 <= i < more.len() implies start_key <= (#[trigger] more[i]).index || (i
        < old_keys.len() && more[i] == old_keys[i]) by {
        if i < keys.len() {
            assert(more[i] == keys[i]);
        }
    }
    assert forall|r: usize| r < start_key && unreferenced::<Item>(start, r) implies #[trigger] unreferenced::<
        Item,
    >(after, r) by {
        assert(unreferenced::<Item>(before, r));
    }
    assert forall|r: usize|
        start.contains_key(r) && unreferenced::<Item>(start, r) && (forall|j: int|
            0 <= j < old_keys.len() ==> (#[trigger] old_keys[j]).index != r)
            implies #[trigger] after.contains_key(r) by {
        assert(before.contains_key(r));
        assert(unreferenced::<Item>(before, r));
        assert(target.index != r);
        assert forall|j: int| 0 <= j < seq![target].len() implies (#[trigger] seq![target][j]).index
            != r by {}
    }
}

/// A diff keeps the shape, where the node it starts from is the child of
/// none: the key that it leaves at the position is live and the child of
/// none, and what was live and the child of none stays live, but for the
/// node it started from.
pub proof fn lemma_update_node_shape<Item: GetNodeChildren, L: NodeLifecycle<Item>>(
    s: Stage<L, Item::V>,
    key: NodeKey,
    value: <L::Value as DeepView>::V,
    ok: spec_fn(Item::V) -> bool,
    hole: usize,
)
    requires
        keeps_children::<Item, L>(),
        keeps_ok::<Item, L>(ok),
        tree_shaped::<Item>(s.nodes, s.next_key, ok, hole),
        unreferenced::<Item>(s.nodes, key.index),
        update_node::<Item, L>(s, key, value).0.next_key < usize::MAX,
    ensures
        ({
            let (after, at) = update_node::<Item, L>(s, key, value);
            &&& tree_shaped::<Item>(after.nodes, after.next_key, ok, hole)
            &&& after.nodes.contains_key(at.index)
            &&& unreferenced::<Item>(after.nodes, at.index)
            &&& at == key || s.next_key <= at.index
            &&& s.next_key <= after.next_key
            &&& names_no_more::<Item>(s.nodes, after.nodes, s.next_key)
            &&& spares::<Item>(s.nodes, after.nodes, seq![key])
        }),
    decreases room(key), 0nat,
{
    lemma_update_node_well_formed::<Item, L>(s, key, value, ok);
    lemma_update_node::<Item, L>(s, key, value, any_handler::<L>());
    let (after, at) = update_node::<Item, L>(s, key, value);
    assert(seq![key][0] == key);
    if s.nodes.contains_key(key.index) {
        let item = s.nodes[key.index];
        let old_keys = Item::children_of(item);
        let (handler, update) = s.handler.spec_update(item, value, key);
        let s1 = Stage { handler, nodes: s.nodes.remove(key.index), next_key: s.next_key };
        lemma_take_shape::<Item>(s.nodes, s.next_key, ok, hole, key.index);
        match update {
            UpdateView::Unchanged(left) => {
                assert(after.nodes =~= s.nodes.insert(key.index, left));
                lemma_swap_shape::<Item>(s.nodes, s.next_key, ok, hole, key.index, left);
            },
            UpdateView::Changed(left, seeds) => {
                assert forall|i: int| 0 <= i < old_keys.len() implies (#[trigger] old_keys[i]).index
                    < s.next_key by {
                    assert(in_range(Item::children_of(s.nodes[key.index]), key.index, s.next_key));
                }
                lemma_diff_children::<Item, L>(s1, old_keys, seeds, key, any_handler::<L>());
                lemma_diff_children_well_formed::<Item, L>(s1, old_keys, seeds, key, ok);
                lemma_diff_children_shape::<Item, L>(s1, old_keys, seeds, key, ok, hole);
                let (s2, keys) = diff_children::<Item, L>(s1, old_keys, seeds, key);
                let made = Item::with_children(left, keys);
                assert(Item::children_of(made) == keys);
                assert(unreferenced::<Item>(s1.nodes, key.index));
                assert(unreferenced::<Item>(s2.nodes, key.index));
                lemma_insert_shape::<Item>(s2.nodes, s2.next_key, ok, hole, key.index, made);
                assert(after.nodes == s2.nodes.insert(key.index, made));
                assert forall|r: usize|
                    r < s.next_key && unreferenced::<Item>(s.nodes, r) implies #[trigger] unreferenced::<
                    Item,
                >(after.nodes, r) by {
                    assert(unreferenced::<Item>(s1.nodes, r));
                    assert(unreferenced::<Item>(s2.nodes, r));
                    assert forall|k: usize, i: int|
                        after.nodes.contains_key(k) && 0 <= i < Item::children_of(
                            after.nodes[k],
                        ).len() implies (#[trigger] Item::children_of(after.nodes[k])[i]).index
                        != r by {
                        if k == key.index {
                            if s.next_key <= keys[i].index {
                            } else {
                                assert(keys[i] == old_keys[i]);
                                assert(!unreferenced::<Item>(
                                    s.nodes,
                                    Item::children_of(s.nodes[key.index])[i].index,
                                ));
                            }
                        } else {
                            assert(Item::children_of(s2.nodes[k])[i].index != r);
                        }
                    }
                }
                assert forall|r: usize|
                    s.nodes.contains_key(r) && unreferenced::<Item>(s.nodes, r) && (forall|j: int|
                        0 <= j < seq![key].len() ==> (#[trigger] seq![key][j]).index != r)
                        implies #[trigger] after.nodes.contains_key(r) by {
                    assert(seq![key][0].index != r);
                    assert(s1.nodes.contains_key(r));
                    assert(unreferenced::<Item>(s1.nodes, r));
                    assert forall|j: int| 0 <= j < old_keys.len() implies (
                    #[trigger] old_keys[j]).index != r by {
                        assert(!unreferenced::<Item>(
                            s.nodes,
                            Item::children_of(s.nodes[key.index])[j].index,
                        ));
                    }
                    assert(s2.nodes.contains_key(r));
                }
            },
            UpdateView::Replaced(left, fresh) => {
                lemma_unbuild_list::<Item, L>(s1, old_keys, old_keys.len(), key, any_handler::<L>());
                lemma_unbuild_list_shape::<Item, L>(s1, old_keys, old_keys.len(), key, ok, hole);
                let s2 = unbuild_list::<Item, L>(s1, old_keys, old_keys.len(), key);
                let s3 = Stage { handler: s2.handler.spec_unmount(left, key), ..s2 };
                lemma_removed::<Item>(s1.nodes, s2.nodes, s.next_key, ok);
                lemma_build_node_shape::<Item, L>(s3, fresh, ok, hole);
                assert forall|r: usize|
                    r < s.next_key && unreferenced::<Item>(s.nodes, r) implies #[trigger] unreferenced::<
                    Item,
                >(after.nodes, r) by {
                    assert(unreferenced::<Item>(s1.nodes, r));
                    assert(unreferenced::<Item>(s2.nodes, r));
                }
                assert forall|r: usize|
                    s.nodes.contains_key(r) && unreferenced::<Item>(s.nodes, r) && (forall|j: int|
                        0 <= j < seq![key].len() ==> (#[trigger] seq![key][j]).index != r)
                        implies #[trigger] after.nodes.contains_key(r) by {
                    assert(seq![key][0].index != r);
                    assert(s1.nodes.contains_key(r));
                    assert(unreferenced::<Item>(s1.nodes, r));
                    assert forall|j: int| 0 <= j < old_keys.len() implies (
                    #[trigger] old_keys[j]).index != r by {
                        assert(!unreferenced::<Item>(
                            s.nodes,
                            Item::children_of(s.nodes[key.index])[j].index,
                        ));
                    }
                    assert(s2.nodes.contains_key(r));
                    assert(r < s.next_key);
                }
            },
        }
    } else {
        lemma_build_node_shape::<Item, L>(s, value, ok, hole);
        assert forall|r: usize|
            s.nodes.contains_key(r) && unreferenced::<Item>(s.nodes, r) && (forall|j: int|
                0 <= j < seq![key].len() ==> (#[trigger] seq![key][j]).index != r)
                implies #[trigger] after.nodes.contains_key(r) by {
            assert(r < s.next_key);
        }
    }
    assert(tree_shaped::<Item>(after.nodes, after.next_key, ok, hole));
    assert(unreferenced::<Item>(after.nodes, at.index));
    assert(names_no_more::<Item>(s.nodes, after.nodes, s.next_key));
    assert(spares::<Item>(s.nodes, after.nodes, seq![key]));
}

/// A diff of children keeps the shape, where the old children are the
/// children of none: the keys that it leaves are live, the children of
/// none, and differ from one another.
pub proof fn lemma_diff_children_shape<Item: GetNodeChildren, L: NodeLifecycle<Item>>(
    s: Stage<L, Item::V>,
    old_keys: Seq<NodeKey>,
    seeds: Seq<<L::Value as DeepView>::V>,
    parent: NodeKey,
    ok: spec_fn(Item::V) -> bool,
    hole: usize,
)
    requires
        keeps_children::<Item, L>(),
        keeps_ok::<Item, L>(ok),
        tree_shaped::<Item>(s.nodes, s.next_key, ok, hole),
        unnamed::<Item>(s.nodes, old_keys),
        distinct(old_keys),
        forall|i: int| 0 <= i < old_keys.len() ==> (#[trigger] old_keys[i]).index < s.next_key,
        parent.index < s.next_key,
        diff_children::<Item, L>(s, old_keys, seeds, parent).0.next_key < usize::MAX,
    ensures
        ({
            let (after, keys) = diff_children::<Item, L>(s, old_keys, seeds, parent);
            &&& tree_shaped::<Item>(after.nodes, after.next_key, ok, hole)
            &&& loose::<Item>(after.nodes, keys)
            &&& distinct(keys)
            &&& kept_or_fresh(keys, old_keys, s.next_key)
            &&& names_no_more::<Item>(s.nodes, after.nodes, s.next_key)
            &&& spares::<Item>(s.nodes, after.nodes, old_keys)
        }),
    decreases room(parent) - 1, old_keys.len() + 2,
{
    let common = if old_keys.len() < seeds.len() {
        old_keys.len()
    } else {
        seeds.len()
    };
    lemma_update_list::<Item, L>(s, old_keys, seeds, common, parent, any_handler::<L>());
    let (s1, keys) = update_list::<Item, L>(s, old_keys, seeds, common, parent);
    let (after, all) = diff_children::<Item, L>(s, old_keys, seeds, parent);
    if common < old_keys.len() {
        let rest = old_keys.subrange(common as int, old_keys.len() as int);
        lemma_unbuild_list::<Item, L>(s1, rest, rest.len(), parent, any_handler::<L>());
        lemma_update_list_shape::<Item, L>(s, old_keys, seeds, common, parent, ok, hole);
        assert forall|i: int| 0 <= i < rest.len() implies unreferenced::<Item>(
            s1.nodes,
            (#[trigger] rest[i]).index,
        ) by {
            assert(rest[i] == old_keys[common + i]);
            assert(unreferenced::<Item>(s.nodes, old_keys[common + i].index));
        }
        lemma_unbuild_list_shape::<Item, L>(s1, rest, rest.len(), parent, ok, hole);
        lemma_removed::<Item>(s1.nodes, after.nodes, s1.next_key, ok);
        assert forall|i: int| 0 <= i < keys.len() implies after.nodes.contains_key(
            (#[trigger] keys[i]).index,
        ) && unreferenced::<Item>(after.nodes, keys[i].index) by {
            assert(s1.nodes.contains_key(keys[i].index));
            assert(unreferenced::<Item>(s1.nodes, keys[i].index));
            assert forall|j: int| 0 <= j < rest.len() implies (#[trigger] rest[j]).index
                != keys[i].index by {
                assert(rest[j] == old_keys[common + j]);
                if s.next_key <= keys[i].index {
                } else {
                    assert(keys[i] == old_keys[i]);
                }
            }
        }
        assert forall|r: usize|
            r < s.next_key && unreferenced::<Item>(s.nodes, r) implies #[trigger] unreferenced::<
            Item,
        >(after.nodes, r) by {
            assert(unreferenced::<Item>(s1.nodes, r));
        }
        assert forall|r: usize|
            s.nodes.contains_key(r) && unreferenced::<Item>(s.nodes, r) && (forall|j: int|
                0 <= j < old_keys.len() ==> (#[trigger] old_keys[j]).index != r)
                implies #[trigger] after.nodes.contains_key(r) by {
            assert(s1.nodes.contains_key(r));
            assert(r < s.next_key);
            assert(unreferenced::<Item>(s1.nodes, r));
            assert forall|j: int| 0 <= j < rest.len() implies (#[trigger] rest[j]).index != r by {
                assert(rest[j] == old_keys[common + j]);
            }
        }
    } else {
        let rest = seeds.subrange(common as int, seeds.len() as int);
        lemma_build_each::<Item, L>(s1, rest, rest.len(), any_handler::<L>());
        lemma_update_list_shape::<Item, L>(s, old_keys, seeds, common, parent, ok, hole);
        lemma_update_list_well_formed::<Item, L>(s, old_keys, seeds, common, parent, ok);
        lemma_build_each_shape::<Item, L>(s1, rest, rest.len(), ok, hole);
        let (s2, fresh) = build_each::<Item, L>(s1, rest, rest.len());
        assert(all == keys + fresh);
        assert forall|i: int| 0 <= i < all.len() implies after.nodes.contains_key(
            (#[trigger] all[i]).index,
        ) && unreferenced::<Item>(after.nodes, all[i].index) by {
            if i < keys.len() {
                assert(all[i] == keys[i]);
                assert(s1.nodes.contains_key(keys[i].index));
                assert(unreferenced::<Item>(s1.nodes, keys[i].index));
            } else {
                assert(all[i] == fresh[i - keys.len()]);
            }
        }
        assert forall|i: int, j: int|
            0 <= i < all.len() && 0 <= j < all.len() && i != j implies (#[trigger] all[i]).index != (
        #[trigger] all[j]).index by {
            if i < keys.len() {
                assert(all[i] == keys[i]);
                assert(s1.nodes.contains_key(keys[i].index));
            } else {
                assert(all[i] == fresh[i - keys.len()]);
            }
            if j < keys.len() {
                assert(all[j] == keys[j]);
                assert(s1.nodes.contains_key(keys[j].index));
            } else {
                assert(all[j] == fresh[j - keys.len()]);
            }
        }
        assert forall|i: int| 0 <= i < all.len() implies s.next_key <= (#[trigger] all[i]).index || (i
            < old_keys.len() && all[i] == old_keys[i]) by {
            if i < keys.len() {
                assert(all[i] == keys[i]);
            } else {
                assert(all[i] == fresh[i - keys.len()]);
            }
        }
        assert forall|r: usize|
            r < s.next_key && unreferenced::<Item>(s.nodes, r) implies #[trigger] unreferenced::<
            Item,
        >(after.nodes, r) by {
            assert(unreferenced::<Item>(s1.nodes, r));
        }
        assert forall|r: usize|
            s.nodes.contains_key(r) && unreferenced::<Item>(s.nodes, r) && (forall|j: int|
                0 <= j < old_keys.len() ==> (#[trigger] old_keys[j]).index != r)
                implies #[trigger] after.nodes.contains_key(r) by {
            assert(s1.nodes.contains_key(r));
        }
    }
    assert(tree_shaped::<Item>(after.nodes, after.next_key, ok, hole));
    assert(loose::<Item>(after.nodes, all));
    assert(distinct(all));
    assert(kept_or_fresh(all, old_keys, s.next_key));
    assert(names_no_more::<Item>(s.nodes, after.nodes, s.next_key));
    assert(spares::<Item>(s.nodes, after.nodes, old_keys));
}

/// The same of the diffs of the first `n` children.
pub proof fn lemma_update_list_shape<Item: GetNodeChildren, L: NodeLifecycle<Item>>(
    s: Stage<L, Item::V>,
    old_keys: Seq<NodeKey>,
    seeds: Seq<<L::Value as DeepView>::V>,
    n: nat,
    parent: NodeKey,
    ok: spec_fn(Item::V) -> bool,
    hole: usize,
)
    requires
        keeps_children::<Item, L>(),
        keeps_ok::<Item, L>(ok),
        tree_shaped::<Item>(s.nodes, s.next_key, ok, hole),
        unnamed::<Item>(s.nodes, old_keys),
        distinct(old_keys),
        forall|i: int| 0 <= i < old_keys.len() ==> (#[trigger] old_keys[i]).index < s.next_key,
        parent.index < s.next_key,
        update_list::<Item, L>(s, old_keys, seeds, n, parent).0.next_key < usize::MAX,
        n <= old_keys.len(),
        n <= seeds.len(),
    ensures
        ({
            let (after, keys) = update_list::<Item, L>(s, old_keys, seeds, n, parent);
            &&& tree_shaped::<Item>(after.nodes, after.next_key, ok, hole)
            &&& s.next_key <= after.next_key
            &&& keys.len() == n
            &&& loose::<Item>(after.nodes, keys)
            &&& distinct(keys)
            &&& kept_or_fresh(keys, old_keys, s.next_key)
            &&& names_no_more::<Item>(s.nodes, after.nodes, s.next_key)
            &&& spares::<Item>(s.nodes, after.nodes, old_keys)
        }),
    decreases room(parent) - 1, n + 1,
{
    let (after, all) = update_list::<Item, L>(s, old_keys, seeds, n, parent);
    lemma_update_list::<Item, L>(s, old_keys, seeds, n, parent, any_handler::<L>());
    if n > 0 {
        let (s1, keys) = update_list::<Item, L>(s, old_keys, seeds, (n - 1) as nat, parent);
        lemma_update_list::<Item, L>(s, old_keys, seeds, (n - 1) as nat, parent, any_handler::<L>());
        let target = old_keys[n - 1];
        assert(seq![target][0] == target);
        if target.index > parent.index {
            lemma_update_node::<Item, L>(s1, target, seeds[n - 1], any_handler::<L>());
            lemma_update_list_shape::<Item, L>(s, old_keys, seeds, (n - 1) as nat, parent, ok, hole);
            lemma_update_list_well_formed::<Item, L>(s, old_keys, seeds, (n - 1) as nat, parent, ok);
            assert(unreferenced::<Item>(s.nodes, target.index));
            assert(unreferenced::<Item>(s1.nodes, target.index));
            lemma_update_node_shape::<Item, L>(s1, target, seeds[n - 1], ok, hole);
            let (s2, at) = update_node::<Item, L>(s1, target, seeds[n - 1]);
            assert forall|r: usize|
                r < s1.next_key && unreferenced::<Item>(s1.nodes, r) implies #[trigger] unreferenced::<
                Item,
            >(s2.nodes, r) by {}
            lemma_push_updated::<Item>(
                s.nodes,
                s.next_key,
                s1.nodes,
                s1.next_key,
                s2.nodes,
                old_keys,
                keys,
                at,
                ok,
            );
        } else {
            lemma_build_node::<Item, L>(s1, seeds[n - 1], any_handler::<L>());
            lemma_update_list_shape::<Item, L>(s, old_keys, seeds, (n - 1) as nat, parent, ok, hole);
            lemma_update_list_well_formed::<Item, L>(s, old_keys, seeds, (n - 1) as nat, parent, ok);
            lemma_build_node_shape::<Item, L>(s1, seeds[n - 1], ok, hole);
            let (s2, at) = build_node::<Item, L>(s1, seeds[n - 1]);
            assert forall|r: usize|
                s1.nodes.contains_key(r) && unreferenced::<Item>(s1.nodes, r) && (forall|j: int|
                    0 <= j < seq![target].len() ==> (#[trigger] seq![target][j]).index != r)
                    implies #[trigger] s2.nodes.contains_key(r) by {
                assert(r < s1.next_key);
            }
            lemma_push_updated::<Item>(
                s.nodes,
                s.next_key,
                s1.nodes,
                s1.next_key,
                s2.nodes,
                old_keys,
                keys,
                at,
                ok,
            );
        }
    }
    assert(tree_shaped::<Item>(after.nodes, after.next_key, ok, hole));
    assert(loose::<Item>(after.nodes, all));
    assert(distinct(all));
    assert(kept_or_fresh(all, old_keys, s.next_key));
    assert(names_no_more::<Item>(s.nodes, after.nodes, s.next_key));
    assert(spares::<Item>(s.nodes, after.nodes, old_keys));
}

} // verus!
