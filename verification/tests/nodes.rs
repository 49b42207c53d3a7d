use react_rs::flat_tree::Update;
use react_rs::reconciler::virtual_node::flatten;
use react_rs::reconciler::{QueuedUpdate, UpdateQueue};
use react_rs::{
    Component, CreateContext, DomNode, Element, GenericStateUpdater, HostElement, HostNode,
    NodeChildren, NodeKey, RenderContext, StateChange, StateUpdater, StatefulNode, VirtualNode,
    VirtualTree,
};

#[derive(Debug, PartialEq)]
enum Tag {
    Box(u32),
    Label(String),
}

impl HostElement for Tag {
    fn same(&self, other: &Self) -> bool {
        self == other
    }
}

#[derive(Debug, PartialEq)]
struct Out {
    text: String,
    below: Vec<Out>,
}

impl<'a> DomNode<'a> for Out {
    type Widget = Tag;

    fn new_dom_node(h: &'a Tag, children: Vec<Self>) -> Self {
        let text = match h {
            Tag::Box(n) => format!("box{}", n),
            Tag::Label(s) => s.clone(),
        };
        Out { text, below: children }
    }
}

fn leaf(text: &str) -> Out {
    Out { text: text.to_string(), below: vec![] }
}

/// Two classes: a gauge shows its state as a label; a frame shows a box around a gauge.
#[derive(Clone, Debug, PartialEq)]
enum Props {
    Gauge { start: i64, step: i64 },
    Frame { width: u32 },
}

struct Kit {
    mounted: bool,
}

impl Component<Tag> for Kit {
    type Props = Props;
    type State = i64;

    fn class(props: &Props) -> u64 {
        match props {
            Props::Gauge { .. } => 10,
            Props::Frame { .. } => 20,
        }
    }

    fn create(ctx: CreateContext<Props>) -> (Self, i64) {
        let state = match ctx.props {
            Props::Gauge { start, .. } => *start,
            Props::Frame { .. } => 0,
        };
        (Kit { mounted: false }, state)
    }

    fn render(&self, ctx: RenderContext<Props, i64>) -> Element<Tag, Props> {
        match ctx.props {
            Props::Gauge { .. } => {
                Element::new_host(Tag::Label(format!("{}", ctx.state)), vec![])
            }
            Props::Frame { width } => Element::new_host(
                Tag::Box(*width),
                vec![Element::new_stateful(Props::Gauge { start: 7, step: 1 })],
            ),
        }
    }

    fn get_derived_state_from_props(next_props: &Props, last_state: i64) -> i64 {
        match next_props {
            Props::Gauge { step, .. } => last_state + step,
            Props::Frame { .. } => last_state,
        }
    }

    fn did_mount(&mut self) {
        self.mounted = true;
    }
}

struct Times(i64);

impl StateChange<i64> for Times {
    fn apply(&self, state: i64) -> i64 {
        state * self.0
    }
}

fn host_text(element: &Element<Tag, Props>) -> String {
    match element {
        Element::Host { element: Tag::Label(s), .. } => s.clone(),
        Element::Host { element: Tag::Box(n), .. } => format!("box{}", n),
        Element::Stateful(_) => "stateful".to_string(),
        Element::Fragment(_) => "fragment".to_string(),
    }
}

fn handle(tree: &VirtualTree<Tag, Kit>, index: usize) -> GenericStateUpdater<i64> {
    GenericStateUpdater { queue: tree_queue(tree), node: NodeKey { index } }
}

/// A handle on a queue of its own: enough to render a node outside a tree.
fn loose(index: usize) -> GenericStateUpdater<i64> {
    let tree: VirtualTree<Tag, Kit> = VirtualTree::mount(Element::new_fragment(vec![]));
    handle(&tree, index)
}

fn tree_queue(tree: &VirtualTree<Tag, Kit>) -> UpdateQueue<i64> {
    tree.updates().clone()
}

fn shown(tree: &VirtualTree<Tag, Kit>) -> Vec<Out> {
    tree.render_all::<Out>()
}

#[test]
fn element_constructors_build_the_variants() {
    let host: Element<Tag, Props> = Element::new_host(Tag::Box(3), vec![]);
    assert!(matches!(host, Element::Host { element: Tag::Box(3), ref children } if children.is_empty()));
    let fragment: Element<Tag, Props> =
        Element::new_fragment(vec![Element::new_host(Tag::Box(1), vec![])]);
    assert!(matches!(fragment, Element::Fragment(ref children) if children.len() == 1));
    let stateful: Element<Tag, Props> = Element::new_stateful(Props::Frame { width: 2 });
    assert!(matches!(stateful, Element::Stateful(ref s) if s.props == Props::Frame { width: 2 }));
}

#[test]
fn new_host_converts_the_payload() {
    struct Wide(u32);
    impl From<Wide> for Tag {
        fn from(w: Wide) -> Tag {
            Tag::Box(w.0 * 2)
        }
    }
    let host: Element<Tag, Props> = Element::new_host(Wide(21), vec![]);
    assert!(matches!(host, Element::Host { element: Tag::Box(42), .. }));
}

#[test]
fn node_children_start_empty() {
    assert!(NodeChildren::new().children.is_empty());
}

#[test]
fn host_node_keeps_payload_and_children() {
    let node = HostNode::mount(Tag::Box(5), NodeChildren { children: vec![NodeKey { index: 9 }] });
    assert_eq!(node.element, Tag::Box(5));
    assert_eq!(node.children.children, vec![NodeKey { index: 9 }]);
}

#[test]
fn host_node_renders_over_its_children() {
    let node = HostNode::mount(Tag::Box(5), NodeChildren::new());
    let out: Option<Out> = node.render(vec![leaf("a"), leaf("b")]);
    assert_eq!(out, Some(Out { text: "box5".to_string(), below: vec![leaf("a"), leaf("b")] }));
}

#[test]
fn stateful_node_mount_creates_the_instance() {
    let node: StatefulNode<Tag, Kit> = StatefulNode::mount(Props::Gauge { start: 4, step: 1 });
    assert_eq!(node.state, 4);
    assert_eq!(node.props, Props::Gauge { start: 4, step: 1 });
    assert!(!node.component.mounted);
    assert!(node.children.children.is_empty());
}

#[test]
fn stateful_node_update_state_applies_and_renders() {
    let node: StatefulNode<Tag, Kit> = StatefulNode::mount(Props::Gauge { start: 4, step: 1 });
    let change: Box<dyn StateChange<i64>> = Box::new(Times(3));
    let (node, element) = node.update_state(&change, loose(1));
    assert_eq!(node.state, 12);
    assert_eq!(host_text(&element), "12");
    assert_eq!(node.props, Props::Gauge { start: 4, step: 1 });
}

#[test]
fn stateful_node_update_props_derives_the_state() {
    let node: StatefulNode<Tag, Kit> = StatefulNode::mount(Props::Gauge { start: 4, step: 1 });
    let (node, element) = node.update_props(Props::Gauge { start: 100, step: 5 }, loose(1));
    assert_eq!(node.state, 9);
    assert_eq!(node.props, Props::Gauge { start: 100, step: 5 });
    assert_eq!(host_text(&element), "9");
}

#[test]
fn virtual_node_mount_hands_out_the_seeds() {
    let (node, seeds) = VirtualNode::<Tag, Kit>::mount(
        Element::new_host(
            Tag::Box(1),
            vec![Element::new_host(Tag::Box(2), vec![]), Element::new_fragment(vec![])],
        ),
        loose(1),
    );
    assert!(matches!(node, VirtualNode::Host(ref h) if h.element == Tag::Box(1) && h.children.children.is_empty()));
    assert_eq!(seeds.iter().map(host_text).collect::<Vec<_>>(), vec!["box2", "fragment"]);

    let (node, seeds) =
        VirtualNode::<Tag, Kit>::mount(Element::new_stateful(Props::Frame { width: 8 }), loose(1));
    assert!(matches!(node, VirtualNode::Stateful(ref s) if s.state == 0));
    assert_eq!(seeds.iter().map(host_text).collect::<Vec<_>>(), vec!["box8"]);

    let (node, seeds) = VirtualNode::<Tag, Kit>::mount(
        Element::new_fragment(vec![Element::new_host(Tag::Box(2), vec![])]),
        loose(1),
    );
    assert!(matches!(node, VirtualNode::Fragment(ref c) if c.children.is_empty()));
    assert_eq!(seeds.len(), 1);
}

#[test]
fn virtual_node_update_tells_the_three_outcomes() {
    let host = |n: u32| VirtualNode::<Tag, Kit>::Host(HostNode::mount(Tag::Box(n), NodeChildren::new()));
    let same = host(1).update(
        Element::new_host(Tag::Box(1), vec![Element::new_fragment(vec![])]),
        loose(1),
    );
    assert!(matches!(same, Update::Unchanged(VirtualNode::Host(ref h)) if h.element == Tag::Box(1)));
    let changed = host(1).update(
        Element::new_host(Tag::Box(2), vec![Element::new_fragment(vec![])]),
        loose(1),
    );
    assert!(matches!(changed, Update::Changed(VirtualNode::Host(ref h), ref seeds)
        if h.element == Tag::Box(2) && seeds.len() == 1));
    let replaced = host(1).update(Element::new_fragment(vec![]), loose(1));
    assert!(matches!(replaced, Update::Replaced(VirtualNode::Host(_), Element::Fragment(_))));

    let gauge = || {
        VirtualNode::<Tag, Kit>::Stateful(StatefulNode::mount(Props::Gauge { start: 1, step: 1 }))
    };
    let kept = gauge().update(Element::new_stateful(Props::Gauge { start: 50, step: 2 }), loose(1));
    assert!(matches!(kept, Update::Changed(VirtualNode::Stateful(ref s), ref seeds)
        if s.state == 3 && seeds.len() == 1 && host_text(&seeds[0]) == "3"));
    let other = gauge().update(Element::new_stateful(Props::Frame { width: 1 }), loose(1));
    assert!(matches!(other, Update::Replaced(VirtualNode::Stateful(ref s), Element::Stateful(_))
        if s.state == 1));
    let host_instead = gauge().update(Element::new_host(Tag::Box(1), vec![]), loose(1));
    assert!(matches!(host_instead, Update::Replaced(_, Element::Host { .. })));

    let fragment = VirtualNode::<Tag, Kit>::Fragment(NodeChildren::new());
    let again = fragment.update(Element::new_fragment(vec![Element::new_fragment(vec![])]), loose(1));
    assert!(matches!(again, Update::Changed(VirtualNode::Fragment(_), ref seeds) if seeds.len() == 1));
}

#[test]
fn virtual_node_did_mount_reaches_the_component() {
    let mut node =
        VirtualNode::<Tag, Kit>::Stateful(StatefulNode::mount(Props::Gauge { start: 1, step: 1 }));
    node.did_mount();
    assert!(matches!(node, VirtualNode::Stateful(ref s) if s.component.mounted));
    let mut host = VirtualNode::<Tag, Kit>::Host(HostNode::mount(Tag::Box(1), NodeChildren::new()));
    host.did_mount();
    assert!(matches!(host, VirtualNode::Host(ref h) if h.element == Tag::Box(1)));
}

#[test]
fn virtual_node_render_passes_children_through() {
    let host = VirtualNode::<Tag, Kit>::Host(HostNode::mount(Tag::Box(1), NodeChildren::new()));
    let out: Vec<Out> = host.render(vec![vec![leaf("a")], vec![], vec![leaf("b"), leaf("c")]]);
    assert_eq!(out, vec![Out { text: "box1".to_string(), below: vec![leaf("a"), leaf("b"), leaf("c")] }]);
    let fragment = VirtualNode::<Tag, Kit>::Fragment(NodeChildren::new());
    let out: Vec<Out> = fragment.render(vec![vec![leaf("a")], vec![leaf("b")]]);
    assert_eq!(out, vec![leaf("a"), leaf("b")]);
}

#[test]
fn flatten_joins_in_order() {
    assert_eq!(flatten(vec![vec![1, 2], vec![], vec![3]]), vec![1, 2, 3]);
    assert_eq!(flatten(Vec::<Vec<u8>>::new()), Vec::<u8>::new());
}

#[test]
fn specialize_keeps_the_node_and_the_queue() {
    let mut tree: VirtualTree<Tag, Kit> =
        VirtualTree::mount(Element::new_stateful(Props::Gauge { start: 2, step: 0 }));
    let generic = handle(&tree, 1);
    let typed: StateUpdater<i64> = generic.specialize();
    assert_eq!(typed.node, NodeKey { index: 1 });
    typed.set_state(Box::new(Times(5)));
    tree.flush();
    assert_eq!(shown(&tree), vec![leaf("10")]);
}

#[test]
fn unspecialize_gives_the_same_handle_back() {
    let mut tree: VirtualTree<Tag, Kit> =
        VirtualTree::mount(Element::new_stateful(Props::Gauge { start: 2, step: 0 }));
    let generic = handle(&tree, 1).specialize().unspecialize();
    assert_eq!(generic.node, NodeKey { index: 1 });
    generic.specialize().set_state(Box::new(Times(7)));
    tree.flush();
    assert_eq!(shown(&tree), vec![leaf("14")]);
}

#[test]
fn pushed_updates_reach_the_flush_in_order() {
    let mut tree: VirtualTree<Tag, Kit> =
        VirtualTree::mount(Element::new_stateful(Props::Gauge { start: 2, step: 0 }));
    let queue = tree_queue(&tree);
    assert!(queue.push(QueuedUpdate { node: NodeKey { index: 1 }, change: Box::new(Times(3)) }));
    assert!(queue.push(QueuedUpdate { node: NodeKey { index: 1 }, change: Box::new(Times(-1)) }));
    assert!(queue.push(QueuedUpdate { node: NodeKey { index: 77 }, change: Box::new(Times(0)) }));
    assert_eq!(shown(&tree), vec![leaf("2")]);
    tree.flush();
    assert_eq!(shown(&tree), vec![leaf("-6")]);
    tree.flush();
    assert_eq!(shown(&tree), vec![leaf("-6")]);
}

#[test]
fn handle_outlives_its_tree() {
    let tree: VirtualTree<Tag, Kit> =
        VirtualTree::mount(Element::new_stateful(Props::Gauge { start: 2, step: 0 }));
    let queue = tree_queue(&tree);
    let typed = handle(&tree, 1).specialize();
    tree.unmount();
    typed.set_state(Box::new(Times(3)));
    assert!(!queue.push(QueuedUpdate { node: NodeKey { index: 1 }, change: Box::new(Times(3)) }));
}

#[test]
fn apply_updates_goes_first_in_first_out() {
    struct Plus(i64);
    impl StateChange<i64> for Plus {
        fn apply(&self, state: i64) -> i64 {
            state + self.0
        }
    }
    let mut tree: VirtualTree<Tag, Kit> =
        VirtualTree::mount(Element::new_stateful(Props::Gauge { start: 2, step: 0 }));
    tree.apply_updates(vec![
        QueuedUpdate { node: NodeKey { index: 1 }, change: Box::new(Plus(1)) },
        QueuedUpdate { node: NodeKey { index: 1 }, change: Box::new(Times(10)) },
    ]);
    assert_eq!(shown(&tree), vec![leaf("30")]);
    tree.apply_update(QueuedUpdate { node: NodeKey { index: 2 }, change: Box::new(Times(0)) });
    assert_eq!(shown(&tree), vec![leaf("30")]);
}

#[test]
fn update_after_applies_pending_before_the_diff() {
    let mut tree: VirtualTree<Tag, Kit> =
        VirtualTree::mount(Element::new_stateful(Props::Gauge { start: 2, step: 0 }));
    tree.update_after(
        vec![QueuedUpdate { node: NodeKey { index: 1 }, change: Box::new(Times(4)) }],
        Element::new_stateful(Props::Gauge { start: 0, step: 100 }),
    );
    assert_eq!(shown(&tree), vec![leaf("108")]);
}

#[test]
fn state_change_on_a_frame_keeps_the_inner_gauge() {
    let mut tree: VirtualTree<Tag, Kit> =
        VirtualTree::mount(Element::new_stateful(Props::Frame { width: 3 }));
    assert_eq!(shown(&tree), vec![Out { text: "box3".to_string(), below: vec![leaf("7")] }]);
    tree.apply_update(QueuedUpdate { node: NodeKey { index: 3 }, change: Box::new(Times(2)) });
    assert_eq!(shown(&tree), vec![Out { text: "box3".to_string(), below: vec![leaf("14")] }]);
    // The frame renders the same box again: the diff stops at the box, the gauge is not touched.
    tree.apply_update(QueuedUpdate { node: NodeKey { index: 1 }, change: Box::new(Times(2)) });
    assert_eq!(shown(&tree), vec![Out { text: "box3".to_string(), below: vec![leaf("14")] }]);
}

#[test]
fn render_gives_the_single_output() {
    let tree: VirtualTree<Tag, Kit> = VirtualTree::mount(Element::new_host(Tag::Box(1), vec![]));
    assert_eq!(tree.render::<Out>(), Some(leaf("box1")));
}

#[test]
fn handles_can_cross_threads() {
    fn sendable<T: Send + Sync>() -> bool {
        true
    }
    assert!(sendable::<StateUpdater<i64>>());
    assert!(sendable::<GenericStateUpdater<i64>>());
    assert!(sendable::<UpdateQueue<i64>>());
}
