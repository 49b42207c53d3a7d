//! The store itself: a hash map from key indices to items, the counter of
//! the keys, and the key of the root.
use crate::flat_tree::model::{
    build_each, build_list, build_node, diff_children, empty_stage, fold_list, fold_mut_list,
    fold_mut_node, fold_node, following, room, unbuild_list, unbuild_node, update_list,
    update_node, update_root, Stage,
};
use crate::flat_tree::{
    GetNodeChildren, NodeChildren, NodeKey, NodeLifecycle, NodeVisitor, NodeVisitorMut, Update,
};
use std::collections::HashMap;
use vstd::prelude::*;

verus! {

broadcast use vstd::std_specs::hash::group_hash_axioms;

/// The views of the items of a store, under the keys of the items.
pub open spec fn views_of<Item: View>(items: Map<usize, Item>) -> Map<usize, Item::V> {
    items.map_values(|item: Item| item@)
}

/// An identity-stable store of live nodes.
pub struct FlatTree<Item> {
    items: HashMap<usize, Item>,
    next_key: usize,
    root: Option<NodeKey>,
}

impl<Item: GetNodeChildren> FlatTree<Item> {
    /// The live nodes, each under the index of its key.
    pub closed spec fn nodes(&self) -> Map<usize, Item::V> {
        views_of(self.items@)
    }

    /// The index of the key that is issued next.
    pub closed spec fn next_key(&self) -> usize {
        self.next_key
    }

    /// The key of the root node, if a tree is mounted.
    pub closed spec fn root(&self) -> Option<NodeKey> {
        self.root
    }

    /// The stage at which a traversal with `handler` starts on this store.
    pub open spec fn stage<L>(&self, handler: L) -> Stage<L, Item::V> {
        Stage { handler, nodes: self.nodes(), next_key: self.next_key() }
    }

    /// A store without nodes. Its first key has the index 1.
    pub fn new() -> (tree: FlatTree<Item>)
        ensures
            tree.nodes() == Map::<usize, Item::V>::empty(),
            tree.next_key() == 1,
            tree.root().is_none(),
    {
        let tree = FlatTree { items: HashMap::new(), next_key: 1, root: None };
        assert(tree.nodes() =~= Map::<usize, Item::V>::empty());
        tree
    }

    /// Issues the next key.
    fn reserve(&mut self) -> (key: NodeKey)
        ensures
            key.index == old(self).next_key(),
            final(self).next_key() == following(old(self).next_key()),
            final(self).nodes() == old(self).nodes(),
            final(self).root() == old(self).root(),
    {
        let key: usize = self.next_key;
        if self.next_key < usize::MAX {
            self.next_key = self.next_key + 1;
        }
        NodeKey::new(key)
    }

    /// Puts `item` into the store under `key`.
    pub(crate) fn insert(&mut self, key: NodeKey, item: Item)
        ensures
            final(self).nodes() == old(self).nodes().insert(key.index, item@),
            final(self).next_key() == old(self).next_key(),
            final(self).root() == old(self).root(),
    {
        self.items.insert(key.index, item);
        assert(self.nodes() =~= old(self).nodes().insert(key.index, item@));
    }

    /// Mounts `seed` and everything below it.
    fn build_inner<L: NodeLifecycle<Item>>(&mut self, seed: L::Value, handler: &mut L) -> (key:
        NodeKey)
        ensures
            (final(self).stage(*final(handler)), key) == build_node::<Item, L>(
                old(self).stage(*old(handler)),
                seed.deep_view(),
            ),
            final(self).root() == old(self).root(),
        decreases L::depth(seed.deep_view()),
    {
        let ghost value = seed.deep_view();
        let key = self.reserve();
        let (mut item, seeds) = handler.mount(seed, key);
        let ghost first = self.stage(*handler);
        let ghost views = seeds.deep_view();
        let ghost total = views.len();
        let ghost bound = L::depth(value);
        let mut children: Vec<NodeKey> = Vec::new();
        for child_seed in it: seeds
            invariant
                bound == L::depth(seed.deep_view()),
                it.seq().len() == total,
                views.len() == total,
                forall|i: int| 0 <= i < total ==> (#[trigger] it.seq()[i]).deep_view() == views[i],
                forall|i: int| 0 <= i < total ==> L::depth(#[trigger] views[i]) < bound,
                (self.stage(*handler), children@) == build_list::<Item, L>(
                    first,
                    views,
                    it.index() as nat,
                    bound,
                ),
                self.root() == old(self).root(),
        {
            proof {
                assert(child_seed.deep_view() == views[it.index()]);
            }
            let child = self.build_inner(child_seed, handler);
            children.push(child);
        }
        item.set_children(NodeChildren { children });
        handler.mounted(&mut item, key);
        self.insert(key, item);
        key
    }
}

/// Copies the child keys of `item` out of it.
pub(crate) fn child_keys<Item: GetNodeChildren>(item: &Item) -> (keys: Vec<NodeKey>)
    ensures
        keys@ == Item::children_of(item@),
{
    let list = item.get_children();
    let mut keys: Vec<NodeKey> = Vec::new();
    let mut i: usize = 0;
    while i < list.children.len()
        invariant
            i <= list.children.len(),
            keys@ == list.children@.subrange(0, i as int),
        decreases list.children.len() - i,
    {
        keys.push(list.children[i]);
        i = i + 1;
        assert(keys@ =~= list.children@.subrange(0, i as int));
    }
    assert(keys@ =~= list.children@);
    keys
}

impl<Item: GetNodeChildren> FlatTree<Item> {
    /// Takes the item under `key` out of the store, if it is there.
    pub(crate) fn take(&mut self, key: NodeKey) -> (item: Option<Item>)
        ensures
            final(self).nodes() == old(self).nodes().remove(key.index),
            final(self).next_key() == old(self).next_key(),
            final(self).root() == old(self).root(),
            match item {
                Some(item) => old(self).nodes().contains_key(key.index) && item@ == old(
                    self,
                ).nodes()[key.index],
                None => !old(self).nodes().contains_key(key.index) && final(self).nodes() == old(
                    self,
                ).nodes(),
            },
    {
        let item = self.items.remove(&key.index);
        assert(self.nodes() =~= old(self).nodes().remove(key.index));
        if item.is_none() {
            assert(self.nodes() =~= old(self).nodes());
        }
        item
    }

    /// Tears down the subtrees under `keys[from..]`, children of `parent`,
    /// left to right.
    fn unbuild_each<L: NodeLifecycle<Item>>(
        &mut self,
        keys: &Vec<NodeKey>,
        from: usize,
        parent: NodeKey,
        handler: &mut L,
    )
        requires
            from <= keys.len(),
        ensures
            final(self).stage(*final(handler)) == unbuild_list::<Item, L>(
                old(self).stage(*old(handler)),
                keys@.subrange(from as int, keys.len() as int),
                (keys.len() - from) as nat,
                parent,
            ),
            final(self).root() == old(self).root(),
        decreases room(parent) - 1, 1nat,
    {
        let ghost first = self.stage(*handler);
        let ghost rest = keys@.subrange(from as int, keys.len() as int);
        let mut i: usize = from;
        while i < keys.len()
            invariant
                from <= i <= keys.len(),
                rest == keys@.subrange(from as int, keys.len() as int),
                self.stage(*handler) == unbuild_list::<Item, L>(
                    first,
                    rest,
                    (i - from) as nat,
                    parent,
                ),
                self.root() == old(self).root(),
            decreases keys.len() - i,
        {
            let key = keys[i];
            assert(rest[i - from] == key);
            if key.index > parent.index {
                self.unbuild_inner(key, handler);
            }
            i = i + 1;
        }
    }

    /// Tears down the node at `key` and everything below it.
    fn unbuild_inner<L: NodeLifecycle<Item>>(&mut self, key: NodeKey, handler: &mut L)
        ensures
            final(self).stage(*final(handler)) == unbuild_node::<Item, L>(
                old(self).stage(*old(handler)),
                key,
            ),
            final(self).root() == old(self).root(),
        decreases room(key), 0nat,
    {
        match self.take(key) {
            None => {},
            Some(item) => {
                let keys = child_keys(&item);
                assert(keys@.subrange(0, keys.len() as int) =~= keys@);
                self.unbuild_each(&keys, 0, key, handler);
                handler.unmount(item, key);
            },
        }
    }

    /// Diffs the children `old_keys` of `parent` against `seeds` by position.
    pub(crate) fn diff_children<L: NodeLifecycle<Item>>(
        &mut self,
        old_keys: Vec<NodeKey>,
        seeds: Vec<L::Value>,
        parent: NodeKey,
        handler: &mut L,
    ) -> (keys: Vec<NodeKey>)
        ensures
            (final(self).stage(*final(handler)), keys@) == diff_children::<Item, L>(
                old(self).stage(*old(handler)),
                old_keys@,
                seeds.deep_view(),
                parent,
            ),
            final(self).root() == old(self).root(),
        decreases room(parent) - 1, 1nat,
    {
        let ghost first = self.stage(*handler);
        let ghost views = seeds.deep_view();
        let ghost total = seeds.len();
        let ghost common = if old_keys.len() < seeds.len() {
            old_keys.len() as nat
        } else {
            seeds.len() as nat
        };
        let ghost rest = views.subrange(common as int, total as int);
        let ghost paired = update_list::<Item, L>(first, old_keys@, views, common, parent);
        let more = old_keys.len() > seeds.len();
        let mut keys: Vec<NodeKey> = Vec::new();
        let mut i: usize = 0;
        proof {
            assert(paired.1 + Seq::<NodeKey>::empty() =~= paired.1);
        }
        for seed in it: seeds
            invariant
                i == it.index(),
                it.seq().len() == total,
                views.len() == total,
                common <= total,
                common <= old_keys.len(),
                common == total || common == old_keys.len(),
                rest == views.subrange(common as int, total as int),
                paired == update_list::<Item, L>(first, old_keys@, views, common, parent),
                forall|j: int| 0 <= j < total ==> (#[trigger] it.seq()[j]).deep_view() == views[j],
                self.root() == old(self).root(),
                i <= common ==> (self.stage(*handler), keys@) == update_list::<Item, L>(
                    first,
                    old_keys@,
                    views,
                    i as nat,
                    parent,
                ),
                i >= common ==> ({
                    let (s, fresh) = build_each::<Item, L>(paired.0, rest, (i - common) as nat);
                    self.stage(*handler) == s && keys@ == paired.1 + fresh
                }),
        {
            if i < old_keys.len() {
                let old_key = old_keys[i];
                let key = if old_key.index > parent.index {
                    self.update_inner(old_key, seed, handler)
                } else {
                    self.build_inner(seed, handler)
                };
                keys.push(key);
                proof {
                    if i + 1 == common {
                        assert(paired.1 + Seq::<NodeKey>::empty() =~= paired.1);
                    }
                }
            } else {
                proof {
                    let j = (i - common) as nat;
                    assert(common == old_keys.len());
                    assert(seed.deep_view() == rest[j as int]);
                }
                let ghost before = build_each::<Item, L>(paired.0, rest, (i - common) as nat).1;
                let key = self.build_inner(seed, handler);
                keys.push(key);
                assert(keys@ =~= paired.1 + before.push(key));
            }
            i = i + 1;
        }
        if more {
            self.unbuild_each(&old_keys, i, parent, handler);
        }
        keys
    }

    /// Offers `value` to the node at `key`, and diffs everything below it.
    fn update_inner<L: NodeLifecycle<Item>>(
        &mut self,
        key: NodeKey,
        value: L::Value,
        handler: &mut L,
    ) -> (at: NodeKey)
        ensures
            (final(self).stage(*final(handler)), at) == update_node::<Item, L>(
                old(self).stage(*old(handler)),
                key,
                value.deep_view(),
            ),
            final(self).root() == old(self).root(),
        decreases room(key), 0nat,
    {
        match self.take(key) {
            None => self.build_inner(value, handler),
            Some(item) => {
                let old_keys = child_keys(&item);
                match handler.update(item, value, key) {
                    Update::Unchanged(item) => {
                        self.insert(key, item);
                        key
                    },
                    Update::Changed(mut item, seeds) => {
                        let keys = self.diff_children(old_keys, seeds, key, handler);
                        item.set_children(NodeChildren { children: keys });
                        self.insert(key, item);
                        key
                    },
                    Update::Replaced(item, value) => {
                        assert(old_keys@.subrange(0, old_keys.len() as int) =~= old_keys@);
                        self.unbuild_each(&old_keys, 0, key, handler);
                        handler.unmount(item, key);
                        self.build_inner(value, handler)
                    },
                }
            },
        }
    }
}

impl<Item: GetNodeChildren> FlatTree<Item> {
    /// Builds the tree that `seed` describes: each node is made by the
    /// handler before its children, and takes the next key.
    pub fn build<L: NodeLifecycle<Item>>(seed: L::Value, handler: &mut L) -> (tree: FlatTree<Item>)
        ensures
            (tree.stage(*final(handler)), tree.root()) == ({
                let (s, key) = build_node::<Item, L>(empty_stage(*old(handler)), seed.deep_view());
                (s, Some(key))
            }),
    {
        let mut tree = FlatTree::new();
        let root = tree.build_inner(seed, handler);
        tree.root = Some(root);
        tree
    }

    /// Tears the whole tree down, children before parents. What the handler
    /// has accumulated is the outcome.
    pub fn unbuild<L: NodeLifecycle<Item>>(self, handler: &mut L)
        ensures
            *final(handler) == match self.root() {
                Some(root) => unbuild_node::<Item, L>(self.stage(*old(handler)), root).handler,
                None => *old(handler),
            },
    {
        let mut tree = self;
        if let Some(root) = tree.root {
            tree.unbuild_inner(root, handler);
        }
    }

    /// Diffs the subtree at `item_key`, which must be live, against
    /// `value`. The result is the key that stands at that position
    /// afterwards: `item_key` itself, or a fresh key where the node had to
    /// be replaced. The root follows its node; the list of children of
    /// another parent does not, and is for the caller to set.
    pub fn update_subtree<L: NodeLifecycle<Item>>(
        &mut self,
        item_key: NodeKey,
        value: L::Value,
        handler: &mut L,
    ) -> (at: NodeKey)
        requires
            old(self).nodes().contains_key(item_key.index),
        ensures
            (final(self).stage(*final(handler)), at) == update_node::<Item, L>(
                old(self).stage(*old(handler)),
                item_key,
                value.deep_view(),
            ),
            final(self).root() == if old(self).root() == Some(item_key) {
                Some(at)
            } else {
                old(self).root()
            },
    {
        let at = self.update_inner(item_key, value, handler);
        if let Some(root) = self.root {
            if root.index == item_key.index {
                self.root = Some(at);
            }
        }
        at
    }

    /// Diffs the whole tree against `value`.
    pub fn update_tree<L: NodeLifecycle<Item>>(&mut self, value: L::Value, handler: &mut L)
        ensures
            (final(self).stage(*final(handler)), final(self).root()) == ({
                let (s, key) = update_root::<Item, L>(
                    old(self).stage(*old(handler)),
                    old(self).root(),
                    value.deep_view(),
                );
                (s, Some(key))
            }),
    {
        let at = match self.root {
            Some(root) => self.update_inner(root, value, handler),
            None => self.build_inner(value, handler),
        };
        self.root = Some(at);
    }

    /// Whether a live node stands under `key`.
    pub fn contains(&self, key: NodeKey) -> (found: bool)
        ensures
            found == self.nodes().contains_key(key.index),
    {
        self.items.contains_key(&key.index)
    }

    /// The key of the root node.
    pub fn root_key(&self) -> (root: Option<NodeKey>)
        ensures
            root == self.root(),
    {
        self.root
    }

    /// The node under `index`, which must be live.
    pub fn get(&self, index: NodeKey) -> (item: &Item)
        requires
            self.nodes().contains_key(index.index),
        ensures
            item@ == self.nodes()[index.index],
    {
        let found = self.items.get(&index.index);
        found.unwrap()
    }

    /// The child keys of the node under `index`, which must be live.
    pub fn get_children(&self, index: NodeKey) -> (children: &[NodeKey])
        requires
            self.nodes().contains_key(index.index),
        ensures
            children@ == Item::children_of(self.nodes()[index.index]),
    {
        let list = self.get(index).get_children();
        list.children.as_slice()
    }
}

impl<Item: GetNodeChildren> FlatTree<Item> {
    /// Folds the subtree at `key`, of which `item` is the root.
    fn recurse_inner<'a, F: NodeVisitor<'a, Item>>(
        &'a self,
        item: &'a Item,
        key: NodeKey,
        visitor: &F,
    ) -> (out: F::Output)
        requires
            self.nodes().contains_key(key.index),
            item@ == self.nodes()[key.index],
        ensures
            out@ == fold_node::<Item, F>(*visitor, self.nodes(), key),
        decreases room(key),
    {
        let list = item.get_children();
        let mut outs: Vec<F::Output> = Vec::new();
        let mut i: usize = 0;
        while i < list.children.len()
            invariant
                i <= list.children.len(),
                list@ == Item::children_of(item@),
                outs@.map_values(|o: F::Output| o@) == fold_list::<Item, F>(
                    *visitor,
                    self.nodes(),
                    list@,
                    i as nat,
                    key,
                ),
            decreases list.children.len() - i,
        {
            let child = list.children[i];
            let ghost before = outs@;
            if child.index > key.index {
                if let Some(child_item) = self.items.get(&child.index) {
                    let out = self.recurse_inner(child_item, child, visitor);
                    outs.push(out);
                    assert(outs@.map_values(|o: F::Output| o@) =~= before.map_values(
                        |o: F::Output| o@,
                    ).push(out@));
                }
            }
            i = i + 1;
        }
        visitor.visit(item, outs)
    }
}

impl<Item: GetNodeChildren> FlatTree<Item> {
    /// Folds the tree from the leaves up, without changing the store. There
    /// is a result exactly when a root is mounted.
    pub fn recurse<'a, F: NodeVisitor<'a, Item>>(&'a self, visitor: &F) -> (out: Option<F::Output>)
        ensures
            match out {
                Some(out) => self.root().is_some() && self.nodes().contains_key(
                    self.root().unwrap().index,
                ) && out@ == fold_node::<Item, F>(*visitor, self.nodes(), self.root().unwrap()),
                None => self.root().is_none() || !self.nodes().contains_key(
                    self.root().unwrap().index,
                ),
            },
    {
        match self.root {
            Some(root) => match self.items.get(&root.index) {
                Some(item) => Some(self.recurse_inner(item, root, visitor)),
                None => None,
            },
            None => None,
        }
    }
}

/// `HashMap::get_mut`: where the map holds `index`, the entry under it is
/// lent out, and the map ends with whatever the borrower leaves in it;
/// where it does not, the map stays as it is.
#[verifier::external_body]
fn entry<Item>(items: &mut HashMap<usize, Item>, index: usize) -> (item: Option<&mut Item>)
    ensures
        match item {
            Some(item) => old(items)@.contains_key(index) && *item == old(items)@[index]
                && final(items)@ == old(items)@.insert(index, *final(item)),
            None => !old(items)@.contains_key(index) && final(items)@ == old(items)@,
        },
{
    items.get_mut(&index)
}

impl<Item: GetNodeChildren> FlatTree<Item> {
    /// Lends out the node under `index`, which must be live. The store ends
    /// with whatever the borrower leaves in the node.
    pub fn get_mut(&mut self, index: NodeKey) -> (item: &mut Item)
        requires
            old(self).nodes().contains_key(index.index),
        ensures
            item@ == old(self).nodes()[index.index],
            final(self).nodes() == old(self).nodes().insert(index.index, final(item)@),
            final(self).next_key() == old(self).next_key(),
            final(self).root() == old(self).root(),
    {
        proof {
            let items = self.items@;
            assert forall|left: Item| #[trigger]
                views_of(items.insert(index.index, left)) == views_of(items).insert(
                    index.index,
                    left@,
                ) by {
                assert(views_of(items.insert(index.index, left)) =~= views_of(items).insert(
                    index.index,
                    left@,
                ));
            }
        }
        entry(&mut self.items, index.index).unwrap()
    }
}

impl<Item: GetNodeChildren> FlatTree<Item> {
    /// Folds the subtree at `index`, letting the visitor change its nodes.
    fn recurse_inner_mut<F: NodeVisitorMut<Item>>(
        &mut self,
        index: NodeKey,
        visitor: &mut F,
    ) -> (out: F::Output)
        requires
            old(self).nodes().contains_key(index.index),
        ensures
            (*final(visitor), final(self).nodes(), out@) == fold_mut_node::<Item, F>(
                *old(visitor),
                old(self).nodes(),
                index,
            ),
            final(self).nodes().dom() == old(self).nodes().dom(),
            final(self).next_key() == old(self).next_key(),
            final(self).root() == old(self).root(),
        decreases room(index),
    {
        let keys = child_keys(self.get(index));
        let mut outs: Vec<F::Output> = Vec::new();
        let mut i: usize = 0;
        while i < keys.len()
            invariant
                i <= keys.len(),
                keys@ == Item::children_of(old(self).nodes()[index.index]),
                (*visitor, self.nodes(), outs@.map_values(|o: F::Output| o@)) == fold_mut_list::<
                    Item,
                    F,
                >(*old(visitor), old(self).nodes(), keys@, i as nat, index),
                self.nodes().dom() == old(self).nodes().dom(),
                self.next_key() == old(self).next_key(),
                self.root() == old(self).root(),
            decreases keys.len() - i,
        {
            let child = keys[i];
            let ghost before = outs@;
            if child.index > index.index && self.contains(child) {
                let out = self.recurse_inner_mut(child, visitor);
                outs.push(out);
                assert(outs@.map_values(|o: F::Output| o@) =~= before.map_values(
                    |o: F::Output| o@,
                ).push(out@));
            }
            i = i + 1;
        }
        let ghost nodes = self.nodes();
        assert(nodes.contains_key(index.index));
        let item = self.get_mut(index);
        let out = visitor.visit_mut(item, outs, index);
        assert(self.nodes().dom() =~= nodes.dom());
        out
    }

    /// Folds the tree from the leaves up, letting the visitor change each
    /// node it visits. There is a result exactly when a root is mounted.
    pub fn recurse_mut<F: NodeVisitorMut<Item>>(&mut self, visitor: &mut F) -> (out: Option<
        F::Output,
    >)
        ensures
            final(self).next_key() == old(self).next_key(),
            final(self).root() == old(self).root(),
            match out {
                Some(out) => old(self).root().is_some() && old(self).nodes().contains_key(
                    old(self).root().unwrap().index,
                ) && (*final(visitor), final(self).nodes(), out@) == fold_mut_node::<Item, F>(
                    *old(visitor),
                    old(self).nodes(),
                    old(self).root().unwrap(),
                ),
                None => (old(self).root().is_none() || !old(self).nodes().contains_key(
                    old(self).root().unwrap().index,
                )) && *final(visitor) == *old(visitor) && final(self).nodes() == old(self).nodes(),
            },
    {
        match self.root {
            Some(root) => {
                if self.contains(root) {
                    Some(self.recurse_inner_mut(root, visitor))
                } else {
                    None
                }
            },
            None => None,
        }
    }
}

} // verus!
