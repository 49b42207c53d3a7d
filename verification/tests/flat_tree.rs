use react_rs::flat_tree::{NodeLifecycle, NodeVisitor, NodeVisitorMut, Update};
use react_rs::{FlatTree, GetNodeChildren, NodeChildren, NodeKey};
use vstd::view::{DeepView, View};

/// A seed: a label, and the seeds below it. A label that starts with `!` stands for another kind
/// of node than one that does not; a label that starts with `=` asks to leave the node as it is.
#[derive(Clone, Debug)]
struct Seed {
    label: String,
    below: Vec<Seed>,
}

impl DeepView for Seed {
    type V = ();

    fn deep_view(&self) {}
}

fn seed(label: &str, below: Vec<Seed>) -> Seed {
    Seed { label: label.to_string(), below }
}

struct Node {
    label: String,
    visits: usize,
    children: NodeChildren,
}

impl View for Node {
    type V = ();

    fn view(&self) {}
}

impl GetNodeChildren for Node {
    fn get_children(&self) -> &NodeChildren {
        &self.children
    }

    fn set_children(&mut self, children: NodeChildren) {
        self.children = children;
    }
}

fn kind(label: &str) -> bool {
    label.starts_with('!')
}

/// Records every call, with the key index it was made for.
struct Recorder {
    calls: Vec<String>,
}

impl NodeLifecycle<Node> for Recorder {
    type Value = Seed;

    fn mount(&mut self, value: Seed, key: NodeKey) -> (Node, Vec<Seed>) {
        self.calls.push(format!("mount {}@{}", value.label, key.index));
        (Node { label: value.label, visits: 0, children: NodeChildren::new() }, value.below)
    }

    fn mounted(&mut self, item: &mut Node, key: NodeKey) {
        self.calls.push(format!("mounted {}@{}", item.label, key.index));
    }

    fn update(&mut self, item: Node, value: Seed, key: NodeKey) -> Update<Node, Seed> {
        if value.label.starts_with('=') {
            self.calls.push(format!("keep {}@{}", item.label, key.index));
            Update::Unchanged(item)
        } else if kind(&item.label) == kind(&value.label) {
            self.calls.push(format!("update {}->{}@{}", item.label, value.label, key.index));
            let Node { visits, children, .. } = item;
            Update::Changed(Node { label: value.label, visits, children }, value.below)
        } else {
            self.calls.push(format!("replace {}@{}", item.label, key.index));
            Update::Replaced(item, value)
        }
    }

    fn unmount(&mut self, item: Node, key: NodeKey) {
        self.calls.push(format!("unmount {}@{}", item.label, key.index));
    }
}

struct Shower;

impl<'a> NodeVisitor<'a, Node> for Shower {
    type Output = Vec<String>;

    fn visit(&self, item: &'a Node, children: Vec<Vec<String>>) -> Vec<String> {
        let inner: Vec<String> = children.into_iter().flatten().collect();
        vec![format!("{}({})", item.label, inner.join(" "))]
    }
}

struct Counter {
    order: Vec<usize>,
}

impl NodeVisitorMut<Node> for Counter {
    type Output = Vec<usize>;

    fn visit_mut(&mut self, item: &mut Node, children: Vec<Vec<usize>>, key: NodeKey) -> Vec<usize> {
        item.visits += 1;
        self.order.push(key.index);
        let below: usize = children.iter().map(|c| c[0]).sum();
        vec![below + 1]
    }
}

fn show(tree: &FlatTree<Node>) -> String {
    match tree.recurse(&Shower) {
        Some(out) => out.join(""),
        None => "empty".to_string(),
    }
}

fn sample() -> Seed {
    seed("a", vec![seed("b", vec![seed("c", vec![])]), seed("d", vec![])])
}

#[test]
fn new_tree_is_empty() {
    let tree: FlatTree<Node> = FlatTree::new();
    assert!(tree.root_key().is_none());
    assert!(!tree.contains(NodeKey { index: 1 }));
    assert_eq!(show(&tree), "empty");
}

#[test]
fn build_creates_parents_before_children() {
    let mut recorder = Recorder { calls: vec![] };
    let tree = FlatTree::build(sample(), &mut recorder);
    assert_eq!(
        recorder.calls,
        vec![
            "mount a@1",
            "mount b@2",
            "mount c@3",
            "mounted c@3",
            "mounted b@2",
            "mount d@4",
            "mounted d@4",
            "mounted a@1",
        ]
    );
    assert_eq!(tree.root_key(), Some(NodeKey { index: 1 }));
    assert_eq!(show(&tree), "a(b(c()) d())");
    assert_eq!(tree.get(NodeKey { index: 2 }).label, "b");
    assert_eq!(
        tree.get_children(NodeKey { index: 1 }),
        &[NodeKey { index: 2 }, NodeKey { index: 4 }]
    );
    assert!(tree.get_children(NodeKey { index: 4 }).is_empty());
    assert!(tree.contains(NodeKey { index: 4 }));
    assert!(!tree.contains(NodeKey { index: 5 }));
}

#[test]
fn unbuild_tears_children_down_first() {
    let mut recorder = Recorder { calls: vec![] };
    let tree = FlatTree::build(sample(), &mut recorder);
    recorder.calls.clear();
    tree.unbuild(&mut recorder);
    assert_eq!(recorder.calls, vec!["unmount c@3", "unmount b@2", "unmount d@4", "unmount a@1"]);
}

#[test]
fn unbuild_of_an_empty_tree_calls_nothing() {
    let mut recorder = Recorder { calls: vec![] };
    let tree: FlatTree<Node> = FlatTree::new();
    tree.unbuild(&mut recorder);
    assert!(recorder.calls.is_empty());
}

#[test]
fn update_pairs_children_by_position() {
    let mut recorder = Recorder { calls: vec![] };
    let mut tree = FlatTree::build(sample(), &mut recorder);
    recorder.calls.clear();
    tree.update_tree(seed("A", vec![seed("D", vec![])]), &mut recorder);
    assert_eq!(
        recorder.calls,
        vec!["update a->A@1", "update b->D@2", "unmount c@3", "unmount d@4"]
    );
    assert_eq!(show(&tree), "A(D())");
    assert_eq!(tree.root_key(), Some(NodeKey { index: 1 }));
    assert_eq!(tree.get_children(NodeKey { index: 1 }), &[NodeKey { index: 2 }]);
    assert!(!tree.contains(NodeKey { index: 3 }));
    assert!(!tree.contains(NodeKey { index: 4 }));
}

#[test]
fn update_mounts_new_children_at_the_tail() {
    let mut recorder = Recorder { calls: vec![] };
    let mut tree = FlatTree::build(sample(), &mut recorder);
    recorder.calls.clear();
    tree.update_tree(
        seed("a", vec![seed("b", vec![seed("c", vec![])]), seed("d", vec![]), seed("e", vec![])]),
        &mut recorder,
    );
    assert_eq!(
        recorder.calls,
        vec![
            "update a->a@1",
            "update b->b@2",
            "update c->c@3",
            "update d->d@4",
            "mount e@5",
            "mounted e@5",
        ]
    );
    assert_eq!(
        tree.get_children(NodeKey { index: 1 }),
        &[NodeKey { index: 2 }, NodeKey { index: 4 }, NodeKey { index: 5 }]
    );
}

#[test]
fn update_replaces_a_node_of_another_kind() {
    let mut recorder = Recorder { calls: vec![] };
    let mut tree = FlatTree::build(sample(), &mut recorder);
    recorder.calls.clear();
    tree.update_tree(
        seed("a", vec![seed("!x", vec![seed("y", vec![])]), seed("d", vec![])]),
        &mut recorder,
    );
    assert_eq!(
        recorder.calls,
        vec![
            "update a->a@1",
            "replace b@2",
            "unmount c@3",
            "unmount b@2",
            "mount !x@5",
            "mount y@6",
            "mounted y@6",
            "mounted !x@5",
            "update d->d@4",
        ]
    );
    assert_eq!(show(&tree), "a(!x(y()) d())");
    assert_eq!(
        tree.get_children(NodeKey { index: 1 }),
        &[NodeKey { index: 5 }, NodeKey { index: 4 }]
    );
}

#[test]
fn update_replaces_the_root() {
    let mut recorder = Recorder { calls: vec![] };
    let mut tree = FlatTree::build(seed("a", vec![]), &mut recorder);
    tree.update_tree(seed("!b", vec![]), &mut recorder);
    assert_eq!(tree.root_key(), Some(NodeKey { index: 2 }));
    assert!(!tree.contains(NodeKey { index: 1 }));
    assert_eq!(show(&tree), "!b()");
}

#[test]
fn unchanged_node_is_not_descended_into() {
    let mut recorder = Recorder { calls: vec![] };
    let mut tree = FlatTree::build(sample(), &mut recorder);
    recorder.calls.clear();
    tree.update_tree(
        seed("a", vec![seed("=", vec![seed("z", vec![]), seed("w", vec![])]), seed("d2", vec![])]),
        &mut recorder,
    );
    assert_eq!(recorder.calls, vec!["update a->a@1", "keep b@2", "update d->d2@4"]);
    assert_eq!(show(&tree), "a(b(c()) d2())");
}

#[test]
fn update_tree_on_an_empty_store_mounts() {
    let mut recorder = Recorder { calls: vec![] };
    let mut tree: FlatTree<Node> = FlatTree::new();
    tree.update_tree(seed("a", vec![seed("b", vec![])]), &mut recorder);
    assert_eq!(tree.root_key(), Some(NodeKey { index: 1 }));
    assert_eq!(show(&tree), "a(b())");
}

#[test]
fn update_subtree_gives_the_key_at_the_position() {
    let mut recorder = Recorder { calls: vec![] };
    let mut tree = FlatTree::build(sample(), &mut recorder);
    let kept = tree.update_subtree(NodeKey { index: 2 }, seed("B", vec![]), &mut recorder);
    assert_eq!(kept, NodeKey { index: 2 });
    assert_eq!(show(&tree), "a(B() d())");
    let fresh = tree.update_subtree(NodeKey { index: 4 }, seed("!D", vec![]), &mut recorder);
    assert_eq!(fresh, NodeKey { index: 5 });
    assert!(!tree.contains(NodeKey { index: 4 }));
    assert_eq!(tree.get(fresh).label, "!D");
    assert_eq!(tree.root_key(), Some(NodeKey { index: 1 }));
}

#[test]
fn get_mut_changes_the_node_in_the_store() {
    let mut recorder = Recorder { calls: vec![] };
    let mut tree = FlatTree::build(sample(), &mut recorder);
    tree.get_mut(NodeKey { index: 3 }).label = "changed".to_string();
    assert_eq!(tree.get(NodeKey { index: 3 }).label, "changed");
    assert_eq!(show(&tree), "a(b(changed()) d())");
}

#[test]
fn recurse_mut_visits_children_first() {
    let mut recorder = Recorder { calls: vec![] };
    let mut tree = FlatTree::build(sample(), &mut recorder);
    let mut counter = Counter { order: vec![] };
    let sizes = tree.recurse_mut(&mut counter);
    assert_eq!(sizes, Some(vec![4]));
    assert_eq!(counter.order, vec![3, 2, 4, 1]);
    assert_eq!(tree.get(NodeKey { index: 1 }).visits, 1);
    assert_eq!(tree.get(NodeKey { index: 3 }).visits, 1);
    let mut empty: FlatTree<Node> = FlatTree::new();
    assert_eq!(empty.recurse_mut(&mut counter), None);
}

#[test]
fn keys_are_never_issued_twice() {
    let mut recorder = Recorder { calls: vec![] };
    let mut tree = FlatTree::build(seed("a", vec![seed("b", vec![])]), &mut recorder);
    tree.update_tree(seed("a", vec![]), &mut recorder);
    tree.update_tree(seed("a", vec![seed("c", vec![])]), &mut recorder);
    assert_eq!(tree.get_children(NodeKey { index: 1 }), &[NodeKey { index: 3 }]);
    assert!(!tree.contains(NodeKey { index: 2 }));
}
