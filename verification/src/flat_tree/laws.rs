//! What holds of every traversal of the store, whatever the handler.
use crate::flat_tree::{
    build_each, build_list, build_node, diff_children, unbuild_list, unbuild_node, update_list,
    update_node, GetNodeChildren, NodeKey, NodeLifecycle, Stage, UpdateView, room,
};
use vstd::prelude::*;

verus! {

/// Whether every call into a handler keeps `inv`.
pub open spec fn handler_keeps<Item: GetNodeChildren, L: NodeLifecycle<Item>>(
    inv: spec_fn(L) -> bool,
) -> bool {
    &&& forall|l: L, value: <L::Value as DeepView>::V, key: NodeKey|
        inv(l) ==> inv(#[trigger] l.spec_mount(value, key).0)
    &&& forall|l: L, item: Item::V, key: NodeKey|
        inv(l) ==> inv(#[trigger] l.spec_mounted(item, key).0)
    &&& forall|l: L, item: Item::V, value: <L::Value as DeepView>::V, key: NodeKey|
        inv(l) ==> inv(#[trigger] l.spec_update(item, value, key).0)
    &&& forall|l: L, item: Item::V, key: NodeKey| inv(l) ==> inv(#[trigger] l.spec_unmount(item, key))
}

/// Whether `after` holds everything that `before` holds under a key index
/// below `limit`, and nothing else under such an index.
pub open spec fn same_below<V>(before: Map<usize, V>, after: Map<usize, V>, limit: usize) -> bool {
    forall|k: usize|
        k < limit ==> (before.contains_key(k) <==> #[trigger] after.contains_key(k)) && (
        before.contains_key(k) ==> after[k] == before[k])
}

/// Whether `after` holds nothing that `before` does not hold.
pub open spec fn only_removed<V>(before: Map<usize, V>, after: Map<usize, V>) -> bool {
    forall|k: usize| #[trigger]
        after.contains_key(k) ==> before.contains_key(k) && after[k] == before[k]
}

/// Mounting a subtree issues at least one key, touches no node under a key
/// that was issued before, and keeps what every call into the handler
/// keeps.
pub proof fn lemma_build_node<Item: GetNodeChildren, L: NodeLifecycle<Item>>(
    s: Stage<L, Item::V>,
    seed: <L::Value as DeepView>::V,
    inv: spec_fn(L) -> bool,
)
    requires
        handler_keeps::<Item, L>(inv),
        inv(s.handler),
    ensures
        inv(build_node::<Item, L>(s, seed).0.handler),
        build_node::<Item, L>(s, seed).0.next_key >= s.next_key,
        s.next_key < usize::MAX ==> build_node::<Item, L>(s, seed).0.next_key > s.next_key,
        build_node::<Item, L>(s, seed).1.index == s.next_key,
        build_node::<Item, L>(s, seed).0.nodes.contains_key(s.next_key),
        same_below(s.nodes, build_node::<Item, L>(s, seed).0.nodes, s.next_key),
    decreases L::depth(seed) + 1, 0nat,
{
    let key = NodeKey { index: s.next_key };
    let (handler, item, seeds) = s.handler.spec_mount(seed, key);
    let s1 = Stage { handler, nodes: s.nodes, next_key: crate::flat_tree::following(s.next_key) };
    lemma_build_list::<Item, L>(s1, seeds, seeds.len(), L::depth(seed), inv);
    let s2 = build_list::<Item, L>(s1, seeds, seeds.len(), L::depth(seed)).0;
    let after = build_node::<Item, L>(s, seed).0.nodes;
    assert forall|k: usize| k < s.next_key implies (s.nodes.contains_key(k)
        <==> #[trigger] after.contains_key(k)) && (s.nodes.contains_key(k) ==> after[k]
        == s.nodes[k]) by {
        assert(s2.nodes.contains_key(k) <==> s.nodes.contains_key(k));
    }
    assert(same_below(s.nodes, after, s.next_key));
}

/// The same of the first `n` of a list of seeds; it gives at most `n` keys.
pub proof fn lemma_build_list<Item: GetNodeChildren, L: NodeLifecycle<Item>>(
    s: Stage<L, Item::V>,
    seeds: Seq<<L::Value as DeepView>::V>,
    n: nat,
    bound: nat,
    inv: spec_fn(L) -> bool,
)
    requires
        handler_keeps::<Item, L>(inv),
        inv(s.handler),
    ensures
        inv(build_list::<Item, L>(s, seeds, n, bound).0.handler),
        build_list::<Item, L>(s, seeds, n, bound).0.next_key >= s.next_key,
        build_list::<Item, L>(s, seeds, n, bound).1.len() <= n,
        same_below(s.nodes, build_list::<Item, L>(s, seeds, n, bound).0.nodes, s.next_key),
    decreases bound, n + 1,
{
    if n == 0 || n > seeds.len() {
    } else {
        lemma_build_list::<Item, L>(s, seeds, (n - 1) as nat, bound, inv);
        if L::depth(seeds[n - 1]) < bound {
            let s1 = build_list::<Item, L>(s, seeds, (n - 1) as nat, bound).0;
            lemma_build_node::<Item, L>(s1, seeds[n - 1], inv);
        }
    }
}

/// The same of the first `n` of a list of seeds; it gives `n` keys.
pub proof fn lemma_build_each<Item: GetNodeChildren, L: NodeLifecycle<Item>>(
    s: Stage<L, Item::V>,
    seeds: Seq<<L::Value as DeepView>::V>,
    n: nat,
    inv: spec_fn(L) -> bool,
)
    requires
        handler_keeps::<Item, L>(inv),
        inv(s.handler),
        n <= seeds.len(),
    ensures
        inv(build_each::<Item, L>(s, seeds, n).0.handler),
        build_each::<Item, L>(s, seeds, n).0.next_key >= s.next_key,
        build_each::<Item, L>(s, seeds, n).1.len() == n,
        same_below(s.nodes, build_each::<Item, L>(s, seeds, n).0.nodes, s.next_key),
    decreases n,
{
    if n > 0 {
        lemma_build_each::<Item, L>(s, seeds, (n - 1) as nat, inv);
        let s1 = build_each::<Item, L>(s, seeds, (n - 1) as nat).0;
        lemma_build_node::<Item, L>(s1, seeds[n - 1], inv);
    }
}

/// Tearing a subtree down issues no key, takes its root out of the store,
/// adds and changes no node, and keeps what every call into the handler
/// keeps.
pub proof fn lemma_unbuild_node<Item: GetNodeChildren, L: NodeLifecycle<Item>>(
    s: Stage<L, Item::V>,
    key: NodeKey,
    inv: spec_fn(L) -> bool,
)
    requires
        handler_keeps::<Item, L>(inv),
        inv(s.handler),
    ensures
        inv(unbuild_node::<Item, L>(s, key).handler),
        unbuild_node::<Item, L>(s, key).next_key == s.next_key,
        !unbuild_node::<Item, L>(s, key).nodes.contains_key(key.index),
        only_removed(s.nodes, unbuild_node::<Item, L>(s, key).nodes),
    decreases room(key), 0nat,
{
    if s.nodes.contains_key(key.index) {
        let item = s.nodes[key.index];
        lemma_unbuild_list::<Item, L>(
            Stage { nodes: s.nodes.remove(key.index), ..s },
            Item::children_of(item),
            Item::children_of(item).len(),
            key,
            inv,
        );
    }
}

/// The same of the first `n` of a list of children.
pub proof fn lemma_unbuild_list<Item: GetNodeChildren, L: NodeLifecycle<Item>>(
    s: Stage<L, Item::V>,
    keys: Seq<NodeKey>,
    n: nat,
    parent: NodeKey,
    inv: spec_fn(L) -> bool,
)
    requires
        handler_keeps::<Item, L>(inv),
        inv(s.handler),
    ensures
        inv(unbuild_list::<Item, L>(s, keys, n, parent).handler),
        unbuild_list::<Item, L>(s, keys, n, parent).next_key == s.next_key,
        only_removed(s.nodes, unbuild_list::<Item, L>(s, keys, n, parent).nodes),
    decreases room(parent) - 1, n + 1,
{
    if n == 0 || n > keys.len() {
    } else {
        lemma_unbuild_list::<Item, L>(s, keys, (n - 1) as nat, parent, inv);
        if keys[n - 1].index > parent.index {
            lemma_unbuild_node::<Item, L>(
                unbuild_list::<Item, L>(s, keys, (n - 1) as nat, parent),
                keys[n - 1],
                inv,
            );
        }
    }
}

/// A diff never takes a key back, and keeps what every call into the
/// handler keeps.
pub proof fn lemma_update_node<Item: GetNodeChildren, L: NodeLifecycle<Item>>(
    s: Stage<L, Item::V>,
    key: NodeKey,
    value: <L::Value as DeepView>::V,
    inv: spec_fn(L) -> bool,
)
    requires
        handler_keeps::<Item, L>(inv),
        inv(s.handler),
    ensures
        inv(update_node::<Item, L>(s, key, value).0.handler),
        update_node::<Item, L>(s, key, value).0.next_key >= s.next_key,
    decreases room(key), 0nat,
{
    if s.nodes.contains_key(key.index) {
        let item = s.nodes[key.index];
        let old_keys = Item::children_of(item);
        let (handler, update) = s.handler.spec_update(item, value, key);
        let s1 = Stage { handler, nodes: s.nodes.remove(key.index), next_key: s.next_key };
        match update {
            UpdateView::Unchanged(item) => {},
            UpdateView::Changed(item, seeds) => {
                lemma_diff_children::<Item, L>(s1, old_keys, seeds, key, inv);
            },
            UpdateView::Replaced(item, value) => {
                lemma_unbuild_list::<Item, L>(s1, old_keys, old_keys.len(), key, inv);
                let s2 = unbuild_list::<Item, L>(s1, old_keys, old_keys.len(), key);
                lemma_build_node::<Item, L>(
                    Stage { handler: s2.handler.spec_unmount(item, key), ..s2 },
                    value,
                    inv,
                );
            },
        }
    } else {
        lemma_build_node::<Item, L>(s, value, inv);
    }
}

/// A diff of children gives one key for each seed.
pub proof fn lemma_diff_children<Item: GetNodeChildren, L: NodeLifecycle<Item>>(
    s: Stage<L, Item::V>,
    old_keys: Seq<NodeKey>,
    seeds: Seq<<L::Value as DeepView>::V>,
    parent: NodeKey,
    inv: spec_fn(L) -> bool,
)
    requires
        handler_keeps::<Item, L>(inv),
        inv(s.handler),
    ensures
        inv(diff_children::<Item, L>(s, old_keys, seeds, parent).0.handler),
        diff_children::<Item, L>(s, old_keys, seeds, parent).0.next_key >= s.next_key,
        diff_children::<Item, L>(s, old_keys, seeds, parent).1.len() == seeds.len(),
    decreases room(parent) - 1, old_keys.len() + 2,
{
    let common = if old_keys.len() < seeds.len() {
        old_keys.len()
    } else {
        seeds.len()
    };
    lemma_update_list::<Item, L>(s, old_keys, seeds, common, parent, inv);
    let (s1, keys) = update_list::<Item, L>(s, old_keys, seeds, common, parent);
    if common < old_keys.len() {
        let rest = old_keys.subrange(common as int, old_keys.len() as int);
        lemma_unbuild_list::<Item, L>(s1, rest, rest.len(), parent, inv);
    } else {
        let rest = seeds.subrange(common as int, seeds.len() as int);
        lemma_build_each::<Item, L>(s1, rest, rest.len(), inv);
    }
}

/// The diffs of the first `n` children give `n` keys.
pub proof fn lemma_update_list<Item: GetNodeChildren, L: NodeLifecycle<Item>>(
    s: Stage<L, Item::V>,
    old_keys: Seq<NodeKey>,
    seeds: Seq<<L::Value as DeepView>::V>,
    n: nat,
    parent: NodeKey,
    inv: spec_fn(L) -> bool,
)
    requires
        handler_keeps::<Item, L>(inv),
        inv(s.handler),
        n <= old_keys.len(),
        n <= seeds.len(),
    ensures
        inv(update_list::<Item, L>(s, old_keys, seeds, n, parent).0.handler),
        update_list::<Item, L>(s, old_keys, seeds, n, parent).0.next_key >= s.next_key,
        update_list::<Item, L>(s, old_keys, seeds, n, parent).1.len() == n,
    decreases room(parent) - 1, n + 1,
{
    if n > 0 {
        lemma_update_list::<Item, L>(s, old_keys, seeds, (n - 1) as nat, parent, inv);
        let s1 = update_list::<Item, L>(s, old_keys, seeds, (n - 1) as nat, parent).0;
        if old_keys[n - 1].index > parent.index {
            lemma_update_node::<Item, L>(s1, old_keys[n - 1], seeds[n - 1], inv);
        } else {
            lemma_build_node::<Item, L>(s1, seeds[n - 1], inv);
        }
    }
}


/// Whether the diff of the subtree at `key` against `value` finds, at every
/// position it visits, a live node that takes the value offered to it, with
/// as many children as the value has seeds.
pub open spec fn keeps_shape<Item: GetNodeChildren, L: NodeLifecycle<Item>>(
    s: Stage<L, Item::V>,
    key: NodeKey,
    value: <L::Value as DeepView>::V,
) -> bool
    decreases room(key), 0nat,
{
    s.nodes.contains_key(key.index) && {
        let item = s.nodes[key.index];
        let old_keys = Item::children_of(item);
        let (handler, update) = s.handler.spec_update(item, value, key);
        let s1 = Stage { handler, nodes: s.nodes.remove(key.index), next_key: s.next_key };
        match update {
            UpdateView::Unchanged(_) => true,
            UpdateView::Changed(_, seeds) => seeds.len() == old_keys.len() && keeps_shape_list::<
                Item,
                L,
            >(s1, old_keys, seeds, seeds.len(), key),
            UpdateView::Replaced(_, _) => false,
        }
    }
}

/// Whether the diffs of the first `n` children keep the shape, each at the
/// stage that the diffs before it have left.
pub open spec fn keeps_shape_list<Item: GetNodeChildren, L: NodeLifecycle<Item>>(
    s: Stage<L, Item::V>,
    old_keys: Seq<NodeKey>,
    seeds: Seq<<L::Value as DeepView>::V>,
    n: nat,
    parent: NodeKey,
) -> bool
    decreases room(parent) - 1, n + 1,
{
    if n == 0 || n > old_keys.len() || n > seeds.len() {
        true
    } else {
        &&& keeps_shape_list::<Item, L>(s, old_keys, seeds, (n - 1) as nat, parent)
        &&& old_keys[n - 1].index > parent.index
        &&& keeps_shape::<Item, L>(
            update_list::<Item, L>(s, old_keys, seeds, (n - 1) as nat, parent).0,
            old_keys[n - 1],
            seeds[n - 1],
        )
    }
}

/// Whether an update that does not replace an item keeps `inv` of the
/// handler and leaves an item that is in `rel` to the one before, whatever
/// children it is then given; `rel` being reflexive and transitive.
pub open spec fn update_keeps<Item: GetNodeChildren, L: NodeLifecycle<Item>>(
    inv: spec_fn(L) -> bool,
    rel: spec_fn(Item::V, Item::V) -> bool,
) -> bool {
    &&& forall|item: Item::V| #[trigger] rel(item, item)
    &&& forall|a: Item::V, b: Item::V, c: Item::V|
        #![trigger rel(a, b), rel(b, c)]
        rel(a, b) && rel(b, c) ==> rel(a, c)
    &&& forall|l: L, item: Item::V, value: <L::Value as DeepView>::V, key: NodeKey|
        inv(l) ==> match #[trigger] l.spec_update(item, value, key) {
            (after, UpdateView::Unchanged(left)) => inv(after) && rel(item, left),
            (after, UpdateView::Changed(left, _)) => inv(after) && forall|keys: Seq<NodeKey>|
                rel(item, #[trigger] Item::with_children(left, keys)),
            (_, UpdateView::Replaced(_, _)) => true,
        }
}

/// Whether `after` holds a node under exactly the keys of `before`, each in
/// `rel` to the node that `before` holds there.
pub open spec fn related<V>(before: Map<usize, V>, after: Map<usize, V>, rel: spec_fn(V, V) -> bool) -> bool {
    &&& before.dom() =~= after.dom()
    &&& forall|k: usize| #[trigger] before.contains_key(k) ==> rel(before[k], after[k])
}

/// Identity is preserved where the shape is kept: the diff issues no key,
/// leaves a node under every key that had one and under no other, keeps
/// the key at the position it started from, and leaves every node in
/// `rel` to what it was.
pub proof fn lemma_keeps_shape<Item: GetNodeChildren, L: NodeLifecycle<Item>>(
    s: Stage<L, Item::V>,
    key: NodeKey,
    value: <L::Value as DeepView>::V,
    inv: spec_fn(L) -> bool,
    rel: spec_fn(Item::V, Item::V) -> bool,
)
    requires
        keeps_shape::<Item, L>(s, key, value),
        update_keeps::<Item, L>(inv, rel),
        inv(s.handler),
    ensures
        update_node::<Item, L>(s, key, value).1 == key,
        update_node::<Item, L>(s, key, value).0.next_key == s.next_key,
        inv(update_node::<Item, L>(s, key, value).0.handler),
        related(s.nodes, update_node::<Item, L>(s, key, value).0.nodes, rel),
    decreases room(key), 0nat,
{
    let item = s.nodes[key.index];
    let old_keys = Item::children_of(item);
    let (handler, update) = s.handler.spec_update(item, value, key);
    let s1 = Stage { handler, nodes: s.nodes.remove(key.index), next_key: s.next_key };
    let after = update_node::<Item, L>(s, key, value).0;
    match update {
        UpdateView::Unchanged(left) => {
            assert forall|k: usize| #[trigger] s.nodes.contains_key(k) implies rel(
                s.nodes[k],
                after.nodes[k],
            ) by {}
        },
        UpdateView::Changed(left, seeds) => {
            lemma_keeps_shape_list::<Item, L>(s1, old_keys, seeds, seeds.len(), key, inv, rel);
            let (s2, keys) = update_list::<Item, L>(s1, old_keys, seeds, seeds.len(), key);
            let rest = seeds.subrange(seeds.len() as int, seeds.len() as int);
            assert(build_each::<Item, L>(s2, rest, rest.len()) == (s2, Seq::<NodeKey>::empty()));
            assert(diff_children::<Item, L>(s1, old_keys, seeds, key).0 == s2);
            assert(rel(item, Item::with_children(left, diff_children::<Item, L>(s1, old_keys, seeds, key).1)));
            assert forall|k: usize| #[trigger] s.nodes.contains_key(k) implies rel(
                s.nodes[k],
                after.nodes[k],
            ) by {
                if k != key.index {
                    assert(s1.nodes.contains_key(k));
                }
            }
        },
        UpdateView::Replaced(_, _) => {},
    }
}

/// The same of the first `n` children: each of them keeps its key.
pub proof fn lemma_keeps_shape_list<Item: GetNodeChildren, L: NodeLifecycle<Item>>(
    s: Stage<L, Item::V>,
    old_keys: Seq<NodeKey>,
    seeds: Seq<<L::Value as DeepView>::V>,
    n: nat,
    parent: NodeKey,
    inv: spec_fn(L) -> bool,
    rel: spec_fn(Item::V, Item::V) -> bool,
)
    requires
        keeps_shape_list::<Item, L>(s, old_keys, seeds, n, parent),
        update_keeps::<Item, L>(inv, rel),
        inv(s.handler),
        n <= old_keys.len(),
        n <= seeds.len(),
    ensures
        update_list::<Item, L>(s, old_keys, seeds, n, parent).1 =~= old_keys.subrange(0, n as int),
        update_list::<Item, L>(s, old_keys, seeds, n, parent).0.next_key == s.next_key,
        inv(update_list::<Item, L>(s, old_keys, seeds, n, parent).0.handler),
        related(s.nodes, update_list::<Item, L>(s, old_keys, seeds, n, parent).0.nodes, rel),
    decreases room(parent) - 1, n + 1,
{
    if n > 0 {
        lemma_keeps_shape_list::<Item, L>(s, old_keys, seeds, (n - 1) as nat, parent, inv, rel);
        let s1 = update_list::<Item, L>(s, old_keys, seeds, (n - 1) as nat, parent).0;
        lemma_keeps_shape::<Item, L>(s1, old_keys[n - 1], seeds[n - 1], inv, rel);
        let s2 = update_list::<Item, L>(s, old_keys, seeds, n, parent).0;
        assert forall|k: usize| #[trigger] s.nodes.contains_key(k) implies rel(
            s.nodes[k],
            s2.nodes[k],
        ) by {
            assert(s1.nodes.contains_key(k));
            assert(rel(s.nodes[k], s1.nodes[k]));
            assert(rel(s1.nodes[k], s2.nodes[k]));
        }
    } else {
        assert forall|k: usize| #[trigger] s.nodes.contains_key(k) implies rel(
            s.nodes[k],
            s.nodes[k],
        ) by {}
    }
}


/// Whether the items carry the children they are given, and the handler
/// leaves the children of an item alone where the store does not set them.
pub open spec fn keeps_children<Item: GetNodeChildren, L: NodeLifecycle<Item>>() -> bool {
    &&& forall|item: Item::V, keys: Seq<NodeKey>|
        Item::children_of(#[trigger] Item::with_children(item, keys)) == keys
    &&& forall|l: L, item: Item::V, key: NodeKey|
        Item::children_of((#[trigger] l.spec_mounted(item, key)).1) == Item::children_of(item)
    &&& forall|l: L, item: Item::V, value: <L::Value as DeepView>::V, key: NodeKey|
        (#[trigger] l.spec_update(item, value, key)).1 matches UpdateView::Unchanged(left)
            ==> Item::children_of(left) == Item::children_of(item)
}

/// Whether every item that the handler hands to the store is `ok`, given
/// that it gets at most one child for each seed when it is mounted, and
/// exactly one for each seed when it is updated.
pub open spec fn keeps_ok<Item: GetNodeChildren, L: NodeLifecycle<Item>>(
    ok: spec_fn(Item::V) -> bool,
) -> bool {
    &&& forall|l: L, after: L, value: <L::Value as DeepView>::V, key: NodeKey, keys: Seq<NodeKey>|
        keys.len() <= l.spec_mount(value, key).2.len() ==> ok(
            (#[trigger] after.spec_mounted(
                Item::with_children(l.spec_mount(value, key).1, keys),
                key,
            )).1,
        )
    &&& forall|l: L, item: Item::V, value: <L::Value as DeepView>::V, key: NodeKey|
        ok(item) ==> match (#[trigger] l.spec_update(item, value, key)).1 {
            UpdateView::Unchanged(left) => ok(left),
            UpdateView::Changed(left, seeds) => forall|keys: Seq<NodeKey>|
                keys.len() == seeds.len() ==> ok(#[trigger] Item::with_children(left, keys)),
            UpdateView::Replaced(_, _) => true,
        }
}

/// The invariant of a store: every key in it was issued before `next_key`,
/// every item is `ok`, and the children of a node have keys that were
/// issued after the node's own.
pub open spec fn well_formed<Item: GetNodeChildren>(
    nodes: Map<usize, Item::V>,
    next_key: usize,
    ok: spec_fn(Item::V) -> bool,
) -> bool {
    forall|k: usize| #[trigger]
        nodes.contains_key(k) ==> k < next_key && ok(nodes[k]) && in_range(
            Item::children_of(nodes[k]),
            k,
            next_key,
        )
}

/// Whether every key of `keys` was issued after the one with index `above`
/// and before `next_key`.
pub open spec fn in_range(keys: Seq<NodeKey>, above: usize, next_key: usize) -> bool {
    forall|i: int| 0 <= i < keys.len() ==> above < (#[trigger] keys[i]).index < next_key
}

/// What a well-formed store says of one of its nodes.
pub proof fn lemma_well_formed_at<Item: GetNodeChildren>(
    nodes: Map<usize, Item::V>,
    next_key: usize,
    ok: spec_fn(Item::V) -> bool,
    k: usize,
)
    requires
        well_formed::<Item>(nodes, next_key, ok),
        nodes.contains_key(k),
    ensures
        k < next_key,
        ok(nodes[k]),
        in_range(Item::children_of(nodes[k]), k, next_key),
{
}

/// The handlers: all of them.
pub open spec fn any_handler<L>() -> spec_fn(L) -> bool {
    |handler: L| true
}

/// Mounting keeps the store well formed, and issues keys that no live node
/// has, as long as the keys do not run out.
pub proof fn lemma_build_node_well_formed<Item: GetNodeChildren, L: NodeLifecycle<Item>>(
    s: Stage<L, Item::V>,
    seed: <L::Value as DeepView>::V,
    ok: spec_fn(Item::V) -> bool,
)
    requires
        keeps_children::<Item, L>(),
        keeps_ok::<Item, L>(ok),
        well_formed::<Item>(s.nodes, s.next_key, ok),
        build_node::<Item, L>(s, seed).0.next_key < usize::MAX,
    ensures
        well_formed::<Item>(
            build_node::<Item, L>(s, seed).0.nodes,
            build_node::<Item, L>(s, seed).0.next_key,
            ok,
        ),
        s.next_key == build_node::<Item, L>(s, seed).1.index < build_node::<Item, L>(
            s,
            seed,
        ).0.next_key,
    decreases L::depth(seed) + 1, 0nat,
{
    let key = NodeKey { index: s.next_key };
    let (handler, item, seeds) = s.handler.spec_mount(seed, key);
    let s1 = Stage { handler, nodes: s.nodes, next_key: crate::flat_tree::following(s.next_key) };
    lemma_build_list::<Item, L>(s1, seeds, seeds.len(), L::depth(seed), any_handler::<L>());
    lemma_build_list_well_formed::<Item, L>(s1, seeds, seeds.len(), L::depth(seed), ok);
    let (s2, keys) = build_list::<Item, L>(s1, seeds, seeds.len(), L::depth(seed));
    let made = s2.handler.spec_mounted(Item::with_children(item, keys), key);
    let after = build_node::<Item, L>(s, seed).0;
    assert(Item::children_of(made.1) == keys);
    assert(ok(made.1));
    assert forall|k: usize| #[trigger] after.nodes.contains_key(k) implies k < after.next_key && ok(
        after.nodes[k],
    ) && in_range(Item::children_of(after.nodes[k]), k, after.next_key) by {
        if k != key.index {
            assert(s2.nodes.contains_key(k));
        }
    }
}

/// The same of the first `n` of a list of seeds: every key that it gives
/// was issued on the way.
pub proof fn lemma_build_list_well_formed<Item: GetNodeChildren, L: NodeLifecycle<Item>>(
    s: Stage<L, Item::V>,
    seeds: Seq<<L::Value as DeepView>::V>,
    n: nat,
    bound: nat,
    ok: spec_fn(Item::V) -> bool,
)
    requires
        keeps_children::<Item, L>(),
        keeps_ok::<Item, L>(ok),
        well_formed::<Item>(s.nodes, s.next_key, ok),
        build_list::<Item, L>(s, seeds, n, bound).0.next_key < usize::MAX,
    ensures
        well_formed::<Item>(
            build_list::<Item, L>(s, seeds, n, bound).0.nodes,
            build_list::<Item, L>(s, seeds, n, bound).0.next_key,
            ok,
        ),
        s.next_key > 0 ==> in_range(
            build_list::<Item, L>(s, seeds, n, bound).1,
            (s.next_key - 1) as usize,
            build_list::<Item, L>(s, seeds, n, bound).0.next_key,
        ),
    decreases bound, n + 1,
{
    if n == 0 || n > seeds.len() {
    } else {
        let (s1, keys) = build_list::<Item, L>(s, seeds, (n - 1) as nat, bound);
        lemma_build_list::<Item, L>(s, seeds, (n - 1) as nat, bound, any_handler::<L>());
        if L::depth(seeds[n - 1]) < bound {
            lemma_build_node::<Item, L>(s1, seeds[n - 1], any_handler::<L>());
            lemma_build_list_well_formed::<Item, L>(s, seeds, (n - 1) as nat, bound, ok);
            lemma_build_node_well_formed::<Item, L>(s1, seeds[n - 1], ok);
        } else {
            lemma_build_list_well_formed::<Item, L>(s, seeds, (n - 1) as nat, bound, ok);
        }
    }
}

/// The same of the first `n` of a list of seeds: every key that it gives
/// was issued on the way.
pub proof fn lemma_build_each_well_formed<Item: GetNodeChildren, L: NodeLifecycle<Item>>(
    s: Stage<L, Item::V>,
    seeds: Seq<<L::Value as DeepView>::V>,
    n: nat,
    ok: spec_fn(Item::V) -> bool,
)
    requires
        keeps_children::<Item, L>(),
        keeps_ok::<Item, L>(ok),
        well_formed::<Item>(s.nodes, s.next_key, ok),
        build_each::<Item, L>(s, seeds, n).0.next_key < usize::MAX,
        n <= seeds.len(),
    ensures
        well_formed::<Item>(
            build_each::<Item, L>(s, seeds, n).0.nodes,
            build_each::<Item, L>(s, seeds, n).0.next_key,
            ok,
        ),
        s.next_key > 0 ==> in_range(
            build_each::<Item, L>(s, seeds, n).1,
            (s.next_key - 1) as usize,
            build_each::<Item, L>(s, seeds, n).0.next_key,
        ),
    decreases n,
{
    if n > 0 {
        let (s1, keys) = build_each::<Item, L>(s, seeds, (n - 1) as nat);
        lemma_build_each::<Item, L>(s, seeds, (n - 1) as nat, any_handler::<L>());
        lemma_build_node::<Item, L>(s1, seeds[n - 1], any_handler::<L>());
        lemma_build_each_well_formed::<Item, L>(s, seeds, (n - 1) as nat, ok);
        lemma_build_node_well_formed::<Item, L>(s1, seeds[n - 1], ok);
    }
}

/// Tearing down keeps the store well formed.
pub proof fn lemma_unbuild_list_well_formed<Item: GetNodeChildren, L: NodeLifecycle<Item>>(
    s: Stage<L, Item::V>,
    keys: Seq<NodeKey>,
    n: nat,
    parent: NodeKey,
    ok: spec_fn(Item::V) -> bool,
)
    requires
        well_formed::<Item>(s.nodes, s.next_key, ok),
    ensures
        well_formed::<Item>(
            unbuild_list::<Item, L>(s, keys, n, parent).nodes,
            unbuild_list::<Item, L>(s, keys, n, parent).next_key,
            ok,
        ),
{
    lemma_unbuild_list::<Item, L>(s, keys, n, parent, any_handler::<L>());
}

/// Tearing down keeps the store well formed.
pub proof fn lemma_unbuild_node_well_formed<Item: GetNodeChildren, L: NodeLifecycle<Item>>(
    s: Stage<L, Item::V>,
    key: NodeKey,
    ok: spec_fn(Item::V) -> bool,
)
    requires
        well_formed::<Item>(s.nodes, s.next_key, ok),
    ensures
        well_formed::<Item>(
            unbuild_node::<Item, L>(s, key).nodes,
            unbuild_node::<Item, L>(s, key).next_key,
            ok,
        ),
{
    lemma_unbuild_node::<Item, L>(s, key, any_handler::<L>());
}

/// A diff keeps the store well formed, as long as the keys do not run out:
/// the key that ends up at the position is live, and is either the key
/// that was there or one that was never issued before.
pub proof fn lemma_update_node_well_formed<Item: GetNodeChildren, L: NodeLifecycle<Item>>(
    s: Stage<L, Item::V>,
    key: NodeKey,
    value: <L::Value as DeepView>::V,
    ok: spec_fn(Item::V) -> bool,
)
    requires
        keeps_children::<Item, L>(),
        keeps_ok::<Item, L>(ok),
        well_formed::<Item>(s.nodes, s.next_key, ok),
        update_node::<Item, L>(s, key, value).0.next_key < usize::MAX,
    ensures
        well_formed::<Item>(
            update_node::<Item, L>(s, key, value).0.nodes,
            update_node::<Item, L>(s, key, value).0.next_key,
            ok,
        ),
        update_node::<Item, L>(s, key, value).0.nodes.contains_key(
            update_node::<Item, L>(s, key, value).1.index,
        ),
        update_node::<Item, L>(s, key, value).1 == key || s.next_key <= update_node::<Item, L>(
            s,
            key,
            value,
        ).1.index,
    decreases room(key), 0nat,
{
    let after = update_node::<Item, L>(s, key, value).0;
    if s.nodes.contains_key(key.index) {
        let item = s.nodes[key.index];
        let old_keys = Item::children_of(item);
        let (handler, update) = s.handler.spec_update(item, value, key);
        let s1 = Stage { handler, nodes: s.nodes.remove(key.index), next_key: s.next_key };
        match update {
            UpdateView::Unchanged(left) => {
                assert forall|k: usize| #[trigger] after.nodes.contains_key(k) implies k
                    < after.next_key && ok(after.nodes[k]) && in_range(
                    Item::children_of(after.nodes[k]),
                    k,
                    after.next_key,
                ) by {
                    if k != key.index {
                        assert(s.nodes.contains_key(k));
                    }
                }
            },
            UpdateView::Changed(left, seeds) => {
                lemma_diff_children_well_formed::<Item, L>(s1, old_keys, seeds, key, ok);
                lemma_diff_children::<Item, L>(s1, old_keys, seeds, key, any_handler::<L>());
                let (s2, keys) = diff_children::<Item, L>(s1, old_keys, seeds, key);
                assert(ok(Item::with_children(left, keys)));
                assert forall|k: usize| #[trigger] after.nodes.contains_key(k) implies k
                    < after.next_key && ok(after.nodes[k]) && in_range(
                    Item::children_of(after.nodes[k]),
                    k,
                    after.next_key,
                ) by {
                    if k != key.index {
                        assert(s2.nodes.contains_key(k));
                    }
                }
            },
            UpdateView::Replaced(left, value) => {
                lemma_unbuild_list_well_formed::<Item, L>(s1, old_keys, old_keys.len(), key, ok);
                lemma_unbuild_list::<Item, L>(s1, old_keys, old_keys.len(), key, any_handler::<L>());
                let s2 = unbuild_list::<Item, L>(s1, old_keys, old_keys.len(), key);
                let s3 = Stage { handler: s2.handler.spec_unmount(left, key), ..s2 };
                lemma_build_node_well_formed::<Item, L>(s3, value, ok);
                lemma_build_node::<Item, L>(s3, value, any_handler::<L>());
            },
        }
    } else {
        lemma_build_node_well_formed::<Item, L>(s, value, ok);
        lemma_build_node::<Item, L>(s, value, any_handler::<L>());
    }
}

/// A diff of children keeps the store well formed, and every key that it
/// gives lies above the parent's.
pub proof fn lemma_diff_children_well_formed<Item: GetNodeChildren, L: NodeLifecycle<Item>>(
    s: Stage<L, Item::V>,
    old_keys: Seq<NodeKey>,
    seeds: Seq<<L::Value as DeepView>::V>,
    parent: NodeKey,
    ok: spec_fn(Item::V) -> bool,
)
    requires
        keeps_children::<Item, L>(),
        keeps_ok::<Item, L>(ok),
        well_formed::<Item>(s.nodes, s.next_key, ok),
        diff_children::<Item, L>(s, old_keys, seeds, parent).0.next_key < usize::MAX,
        parent.index < s.next_key,
    ensures
        well_formed::<Item>(
            diff_children::<Item, L>(s, old_keys, seeds, parent).0.nodes,
            diff_children::<Item, L>(s, old_keys, seeds, parent).0.next_key,
            ok,
        ),
        in_range(
            diff_children::<Item, L>(s, old_keys, seeds, parent).1,
            parent.index,
            diff_children::<Item, L>(s, old_keys, seeds, parent).0.next_key,
        ),
    decreases room(parent) - 1, old_keys.len() + 2,
{
    let common = if old_keys.len() < seeds.len() {
        old_keys.len()
    } else {
        seeds.len()
    };
    lemma_update_list::<Item, L>(s, old_keys, seeds, common, parent, any_handler::<L>());
    let (s1, keys) = update_list::<Item, L>(s, old_keys, seeds, common, parent);
    if common < old_keys.len() {
        let rest = old_keys.subrange(common as int, old_keys.len() as int);
        lemma_unbuild_list::<Item, L>(s1, rest, rest.len(), parent, any_handler::<L>());
        lemma_update_list_well_formed::<Item, L>(s, old_keys, seeds, common, parent, ok);
        lemma_unbuild_list_well_formed::<Item, L>(s1, rest, rest.len(), parent, ok);
    } else {
        let rest = seeds.subrange(common as int, seeds.len() as int);
        lemma_build_each::<Item, L>(s1, rest, rest.len(), any_handler::<L>());
        lemma_update_list_well_formed::<Item, L>(s, old_keys, seeds, common, parent, ok);
        lemma_build_each_well_formed::<Item, L>(s1, rest, rest.len(), ok);
        let (s2, fresh) = build_each::<Item, L>(s1, rest, rest.len());
        assert forall|i: int| 0 <= i < (keys + fresh).len() implies parent.index < (
        #[trigger] (keys + fresh)[i]).index < s2.next_key by {
            if i < keys.len() {
                assert((keys + fresh)[i] == keys[i]);
            } else {
                assert((keys + fresh)[i] == fresh[i - keys.len()]);
            }
        }
    }
}

/// The same of the diffs of the first `n` children.
pub proof fn lemma_update_list_well_formed<Item: GetNodeChildren, L: NodeLifecycle<Item>>(
    s: Stage<L, Item::V>,
    old_keys: Seq<NodeKey>,
    seeds: Seq<<L::Value as DeepView>::V>,
    n: nat,
    parent: NodeKey,
    ok: spec_fn(Item::V) -> bool,
)
    requires
        keeps_children::<Item, L>(),
        keeps_ok::<Item, L>(ok),
        well_formed::<Item>(s.nodes, s.next_key, ok),
        update_list::<Item, L>(s, old_keys, seeds, n, parent).0.next_key < usize::MAX,
        parent.index < s.next_key,
        n <= old_keys.len(),
        n <= seeds.len(),
    ensures
        well_formed::<Item>(
            update_list::<Item, L>(s, old_keys, seeds, n, parent).0.nodes,
            update_list::<Item, L>(s, old_keys, seeds, n, parent).0.next_key,
            ok,
        ),
        in_range(
            update_list::<Item, L>(s, old_keys, seeds, n, parent).1,
            parent.index,
            update_list::<Item, L>(s, old_keys, seeds, n, parent).0.next_key,
        ),
    decreases room(parent) - 1, n + 1,
{
    if n > 0 {
        let (s1, keys) = update_list::<Item, L>(s, old_keys, seeds, (n - 1) as nat, parent);
        lemma_update_list::<Item, L>(s, old_keys, seeds, (n - 1) as nat, parent, any_handler::<L>());
        if old_keys[n - 1].index > parent.index {
            lemma_update_node::<Item, L>(s1, old_keys[n - 1], seeds[n - 1], any_handler::<L>());
            lemma_update_list_well_formed::<Item, L>(s, old_keys, seeds, (n - 1) as nat, parent, ok);
            lemma_update_node_well_formed::<Item, L>(s1, old_keys[n - 1], seeds[n - 1], ok);
        } else {
            lemma_build_node::<Item, L>(s1, seeds[n - 1], any_handler::<L>());
            lemma_update_list_well_formed::<Item, L>(s, old_keys, seeds, (n - 1) as nat, parent, ok);
            lemma_build_node_well_formed::<Item, L>(s1, seeds[n - 1], ok);
        }
    }
}


/// What a teardown of children has taken out stays out: none of the first
/// `n` of `keys` that lies above `parent` is live afterwards.
pub proof fn lemma_unbuild_list_takes<Item: GetNodeChildren, L: NodeLifecycle<Item>>(
    s: Stage<L, Item::V>,
    keys: Seq<NodeKey>,
    n: nat,
    parent: NodeKey,
)
    requires
        n <= keys.len(),
    ensures
        forall|i: int|
            0 <= i < n && keys[i].index > parent.index ==> !unbuild_list::<Item, L>(
                s,
                keys,
                n,
                parent,
            ).nodes.contains_key((#[trigger] keys[i]).index),
    decreases n,
{
    if n > 0 {
        lemma_unbuild_list_takes::<Item, L>(s, keys, (n - 1) as nat, parent);
        let s1 = unbuild_list::<Item, L>(s, keys, (n - 1) as nat, parent);
        if keys[n - 1].index > parent.index {
            lemma_unbuild_node::<Item, L>(s1, keys[n - 1], any_handler::<L>());
        }
    }
}

/// The diff of children is positional. The key at index `i` of the result
/// is what the diff of the old child at index `i` against the seed at
/// index `i` has left there, at the stage that the diffs of the children
/// before it have left; whether the same child stands at another index of
/// the seeds plays no part. An old child at an index that the seeds do not
/// reach is torn down.
pub proof fn lemma_diff_is_positional<Item: GetNodeChildren, L: NodeLifecycle<Item>>(
    s: Stage<L, Item::V>,
    old_keys: Seq<NodeKey>,
    seeds: Seq<<L::Value as DeepView>::V>,
    parent: NodeKey,
)
    ensures
        diff_children::<Item, L>(s, old_keys, seeds, parent).1.len() == seeds.len(),
        forall|i: int|
            0 <= i < old_keys.len() && i < seeds.len() && old_keys[i].index > parent.index
                ==> (#[trigger] diff_children::<Item, L>(s, old_keys, seeds, parent).1[i])
                == update_node::<Item, L>(
                update_list::<Item, L>(s, old_keys, seeds, i as nat, parent).0,
                old_keys[i],
                seeds[i],
            ).1,
        forall|i: int|
            seeds.len() <= i < old_keys.len() && old_keys[i].index > parent.index
                ==> !diff_children::<Item, L>(s, old_keys, seeds, parent).0.nodes.contains_key(
                (#[trigger] old_keys[i]).index,
            ),
{
    let common = if old_keys.len() < seeds.len() {
        old_keys.len()
    } else {
        seeds.len()
    };
    lemma_diff_children::<Item, L>(s, old_keys, seeds, parent, any_handler::<L>());
    lemma_update_list::<Item, L>(s, old_keys, seeds, common, parent, any_handler::<L>());
    let (s1, keys) = update_list::<Item, L>(s, old_keys, seeds, common, parent);
    let all = diff_children::<Item, L>(s, old_keys, seeds, parent).1;
    assert forall|i: int|
        0 <= i < old_keys.len() && i < seeds.len() && old_keys[i].index > parent.index implies (
    #[trigger] all[i]) == update_node::<Item, L>(
        update_list::<Item, L>(s, old_keys, seeds, i as nat, parent).0,
        old_keys[i],
        seeds[i],
    ).1 by {
        lemma_update_list_prefix::<Item, L>(s, old_keys, seeds, (i + 1) as nat, common, parent);
        lemma_update_list::<Item, L>(s, old_keys, seeds, i as nat, parent, any_handler::<L>());
        let (before, firsts) = update_list::<Item, L>(s, old_keys, seeds, i as nat, parent);
        let step = update_list::<Item, L>(s, old_keys, seeds, (i + 1) as nat, parent).1;
        assert(step == firsts.push(update_node::<Item, L>(before, old_keys[i], seeds[i]).1));
        assert(step[i] == keys.subrange(0, i + 1)[i]);
        assert(all[i] == keys[i]);
    }
    if common < old_keys.len() {
        let rest = old_keys.subrange(common as int, old_keys.len() as int);
        lemma_unbuild_list_takes::<Item, L>(s1, rest, rest.len(), parent);
        assert forall|i: int|
            seeds.len() <= i < old_keys.len() && old_keys[i].index > parent.index
                implies !diff_children::<Item, L>(s, old_keys, seeds, parent).0.nodes.contains_key(
            (#[trigger] old_keys[i]).index,
        ) by {
            assert(rest[i - common] == old_keys[i]);
        }
    }
}

/// The keys that the diffs of the first `n` children have left are the
/// first `n` of the keys that the diffs of the first `m` have left.
pub proof fn lemma_update_list_prefix<Item: GetNodeChildren, L: NodeLifecycle<Item>>(
    s: Stage<L, Item::V>,
    old_keys: Seq<NodeKey>,
    seeds: Seq<<L::Value as DeepView>::V>,
    n: nat,
    m: nat,
    parent: NodeKey,
)
    requires
        n <= m,
        m <= old_keys.len(),
        m <= seeds.len(),
    ensures
        update_list::<Item, L>(s, old_keys, seeds, n, parent).1 =~= update_list::<Item, L>(
            s,
            old_keys,
            seeds,
            m,
            parent,
        ).1.subrange(0, n as int),
    decreases m - n,
{
    lemma_update_list::<Item, L>(s, old_keys, seeds, n, parent, any_handler::<L>());
    lemma_update_list::<Item, L>(s, old_keys, seeds, m, parent, any_handler::<L>());
    if n < m {
        lemma_update_list::<Item, L>(s, old_keys, seeds, (m - 1) as nat, parent, any_handler::<L>());
        lemma_update_list_prefix::<Item, L>(s, old_keys, seeds, n, (m - 1) as nat, parent);
    }
}

} // verus!
