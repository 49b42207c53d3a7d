use react_rs::{
    Component, CreateContext, DomNode, Element, HostElement, RenderContext, StateChange,
    StateUpdater, VirtualTree,
};
use std::sync::{Arc, Mutex};

type Log = Arc<Mutex<Vec<String>>>;

fn new_log() -> Log {
    Arc::new(Mutex::new(Vec::new()))
}

fn entries(log: &Log) -> Vec<String> {
    log.lock().unwrap().clone()
}

fn note(log: &Log, line: String) {
    log.lock().unwrap().push(line);
}

enum Widget {
    Div(String),
    Text(String),
    Counter(usize, StateUpdater<usize>),
}

impl HostElement for Widget {
    fn same(&self, other: &Self) -> bool {
        match (self, other) {
            (Widget::Div(a), Widget::Div(b)) => a == b,
            (Widget::Text(a), Widget::Text(b)) => a == b,
            (Widget::Counter(a, _), Widget::Counter(b, _)) => a == b,
            _ => false,
        }
    }
}

struct Dom<'a> {
    widget: &'a Widget,
    children: Vec<Dom<'a>>,
}

impl<'a> DomNode<'a> for Dom<'a> {
    type Widget = Widget;

    fn new_dom_node(h: &'a Widget, children: Vec<Self>) -> Self {
        Dom { widget: h, children }
    }
}

impl<'a> Dom<'a> {
    fn show(&self) -> String {
        let inner: Vec<String> = self.children.iter().map(|c| c.show()).collect();
        match self.widget {
            Widget::Div(name) => format!("div:{}[{}]", name, inner.join(",")),
            Widget::Text(text) => format!("text:{}", text),
            Widget::Counter(count, _) => format!("{}", count),
        }
    }
}

#[derive(Clone)]
enum Props {
    Counter { name: String, initial: usize, log: Log },
    Panel { name: String, log: Log },
    Pair { log: Log },
}

impl Props {
    fn name(&self) -> String {
        match self {
            Props::Counter { name, .. } => name.clone(),
            Props::Panel { name, .. } => name.clone(),
            Props::Pair { .. } => "pair".to_string(),
        }
    }

    fn log(&self) -> &Log {
        match self {
            Props::Counter { log, .. } => log,
            Props::Panel { log, .. } => log,
            Props::Pair { log } => log,
        }
    }
}

struct App {
    name: String,
    log: Log,
    mounted: bool,
}

impl Component<Widget> for App {
    type Props = Props;
    type State = usize;

    fn class(props: &Props) -> u64 {
        match props {
            Props::Counter { .. } => 1,
            Props::Panel { .. } => 2,
            Props::Pair { .. } => 3,
        }
    }

    fn create(ctx: CreateContext<Props>) -> (Self, usize) {
        note(ctx.props.log(), format!("create {}", ctx.props.name()));
        let initial = match ctx.props {
            Props::Counter { initial, .. } => *initial,
            _ => 0,
        };
        (App { name: ctx.props.name(), log: ctx.props.log().clone(), mounted: false }, initial)
    }

    fn render(&self, ctx: RenderContext<Props, usize>) -> Element<Widget, Props> {
        note(&self.log, format!("render {} {}", ctx.props.name(), ctx.state));
        match ctx.props {
            Props::Counter { .. } => {
                Element::new_host(Widget::Counter(*ctx.state, ctx.updater), vec![])
            }
            Props::Panel { name, log } => Element::new_host(
                Widget::Div(name.clone()),
                vec![Element::new_stateful(Props::Counter {
                    name: format!("{}.inner", name),
                    initial: 10,
                    log: log.clone(),
                })],
            ),
            Props::Pair { .. } => Element::new_fragment(vec![
                Element::new_host(Widget::Text("left".to_string()), vec![]),
                Element::new_host(Widget::Text("right".to_string()), vec![]),
            ]),
        }
    }

    fn get_derived_state_from_props(_next_props: &Props, last_state: usize) -> usize {
        last_state
    }

    fn did_mount(&mut self) {
        self.mounted = true;
        note(&self.log, format!("did_mount {}", self.name));
    }

    fn will_unmount(&mut self) {
        assert!(self.mounted);
        note(&self.log, format!("will_unmount {}", self.name));
    }
}

struct Add {
    amount: usize,
    log: Log,
}

impl StateChange<usize> for Add {
    fn apply(&self, state: usize) -> usize {
        note(&self.log, format!("add {} to {}", self.amount, state));
        state + self.amount
    }
}

type Tree = VirtualTree<Widget, App>;

fn text(s: &str) -> Element<Widget, Props> {
    Element::new_host(Widget::Text(s.to_string()), vec![])
}

fn div(name: &str, children: Vec<Element<Widget, Props>>) -> Element<Widget, Props> {
    Element::new_host(Widget::Div(name.to_string()), children)
}

fn counter(name: &str, initial: usize, log: &Log) -> Element<Widget, Props> {
    Element::new_stateful(Props::Counter { name: name.to_string(), initial, log: log.clone() })
}

fn panel(name: &str, log: &Log) -> Element<Widget, Props> {
    Element::new_stateful(Props::Panel { name: name.to_string(), log: log.clone() })
}

fn show(tree: &Tree) -> String {
    match tree.render::<Dom>() {
        Some(dom) => dom.show(),
        None => "nothing".to_string(),
    }
}

/// The handles of the counters in the output, in order, each with the index of its key.
fn counters(dom: &Dom, found: &mut Vec<(usize, usize)>) {
    if let Widget::Counter(count, updater) = dom.widget {
        found.push((updater.node.index, *count));
    }
    for child in &dom.children {
        counters(child, found);
    }
}

fn counter_keys(tree: &Tree) -> Vec<(usize, usize)> {
    let mut found = Vec::new();
    if let Some(dom) = tree.render::<Dom>() {
        counters(&dom, &mut found);
    }
    found
}

fn bump(tree: &Tree, nth: usize, amount: usize, log: &Log) {
    let dom = tree.render::<Dom>().unwrap();
    let mut handles: Vec<&StateUpdater<usize>> = Vec::new();
    fn collect<'a>(dom: &Dom<'a>, handles: &mut Vec<&'a StateUpdater<usize>>) {
        if let Widget::Counter(_, updater) = dom.widget {
            handles.push(updater);
        }
        for child in &dom.children {
            collect(child, handles);
        }
    }
    collect(&dom, &mut handles);
    handles[nth].set_state(Box::new(Add { amount, log: log.clone() }));
}

#[test]
fn mount_renders_the_described_tree() {
    let log = new_log();
    let tree = Tree::mount(div("root", vec![text("a"), counter("c", 0, &log)]));
    assert_eq!(show(&tree), "div:root[text:a,0]");
    assert_eq!(entries(&log), vec!["create c", "render c 0", "did_mount c"]);
}

#[test]
fn render_is_repeatable() {
    let log = new_log();
    let tree = Tree::mount(div("root", vec![text("a"), counter("c", 4, &log)]));
    let first = show(&tree);
    let second = show(&tree);
    assert_eq!(first, "div:root[text:a,4]");
    assert_eq!(first, second);
    assert_eq!(entries(&log).len(), 3);
}

#[test]
fn end_to_end_counter() {
    let log = new_log();
    let mut tree = Tree::mount(div("root", vec![text("a"), counter("c", 0, &log)]));
    {
        let dom = tree.render::<Dom>().unwrap();
        assert_eq!(dom.children.len(), 2);
    }
    bump(&tree, 0, 1, &log);
    assert_eq!(show(&tree), "div:root[text:a,0]");
    tree.flush();
    assert_eq!(show(&tree), "div:root[text:a,1]");
    tree.update(div("root2", vec![text("a"), counter("c", 0, &log)]));
    assert_eq!(show(&tree), "div:root2[text:a,1]");
}

#[test]
fn update_of_same_shape_keeps_keys_and_state() {
    let log = new_log();
    let mut tree = Tree::mount(div(
        "root",
        vec![counter("a", 1, &log), div("mid", vec![counter("b", 2, &log)]), panel("p", &log)],
    ));
    bump(&tree, 0, 5, &log);
    bump(&tree, 1, 7, &log);
    bump(&tree, 2, 9, &log);
    tree.flush();
    let before = counter_keys(&tree);
    assert_eq!(before.iter().map(|k| k.1).collect::<Vec<_>>(), vec![6, 9, 19]);
    let created = entries(&log).iter().filter(|l| l.starts_with("create")).count();
    tree.update(div(
        "other",
        vec![counter("a", 100, &log), div("mid2", vec![counter("b", 200, &log)]), panel("p", &log)],
    ));
    let after = counter_keys(&tree);
    assert_eq!(before, after);
    assert_eq!(show(&tree), "div:other[6,div:mid2[9],div:p[19]]");
    let lines = entries(&log);
    assert_eq!(lines.iter().filter(|l| l.starts_with("create")).count(), created);
    assert!(!lines.iter().any(|l| l.starts_with("will_unmount")));
}

#[test]
fn other_class_at_same_position_remounts() {
    let log = new_log();
    let mut tree = Tree::mount(div("root", vec![counter("x", 3, &log)]));
    let old_key = counter_keys(&tree)[0].0;
    tree.update(div("root2", vec![panel("y", &log)]));
    assert_eq!(show(&tree), "div:root2[div:y[10]]");
    let lines = entries(&log);
    assert_eq!(
        lines,
        vec![
            "create x",
            "render x 3",
            "did_mount x",
            "will_unmount x",
            "create y",
            "render y 0",
            "create y.inner",
            "render y.inner 10",
            "did_mount y.inner",
            "did_mount y",
        ]
    );
    let new_key = counter_keys(&tree)[0].0;
    assert!(new_key > old_key);
}

#[test]
fn root_of_another_kind_gets_a_fresh_key() {
    let log = new_log();
    let mut tree = Tree::mount(counter("x", 3, &log));
    let old_root = tree.root_key().unwrap();
    assert_eq!(old_root.index, 1);
    assert!(tree.contains(old_root));
    tree.update(counter("x2", 5, &log));
    assert_eq!(tree.root_key(), Some(old_root));
    assert_eq!(show(&tree), "3");
    tree.update(panel("p", &log));
    let new_root = tree.root_key().unwrap();
    assert!(new_root.index > old_root.index);
    assert!(!tree.contains(old_root));
    assert!(tree.contains(new_root));
    assert_eq!(show(&tree), "div:p[10]");
}

#[test]
fn host_where_a_component_stood_remounts() {
    let log = new_log();
    let mut tree = Tree::mount(div("root", vec![counter("x", 3, &log)]));
    tree.update(div("root2", vec![text("plain")]));
    assert_eq!(show(&tree), "div:root2[text:plain]");
    assert_eq!(entries(&log).last().unwrap(), "will_unmount x");
    tree.update(div("root3", vec![counter("z", 8, &log)]));
    assert_eq!(show(&tree), "div:root3[8]");
}

#[test]
fn diff_is_positional_not_keyed() {
    let log = new_log();
    let a = |log: &Log| counter("A", 1, log);
    let b = |log: &Log| panel("B", log);
    let c = |log: &Log| Element::new_stateful(Props::Pair { log: log.clone() });
    let mut tree = Tree::mount(div("root", vec![a(&log), b(&log), c(&log)]));
    assert_eq!(show(&tree), "div:root[1,div:B[10],text:left,text:right]");
    let a_key = counter_keys(&tree)[0].0;
    log.lock().unwrap().clear();
    tree.update(div("root2", vec![a(&log), c(&log)]));
    assert_eq!(show(&tree), "div:root2[1,text:left,text:right]");
    assert_eq!(counter_keys(&tree)[0].0, a_key);
    assert_eq!(
        entries(&log),
        vec![
            "render A 1",
            "will_unmount B.inner",
            "will_unmount B",
            "create pair",
            "render pair 0",
            "did_mount pair",
            "will_unmount pair",
        ]
    );
}

#[test]
fn children_grow_and_shrink_at_the_tail() {
    let log = new_log();
    let mut tree = Tree::mount(div("root", vec![text("a")]));
    tree.update(div("root2", vec![text("a"), text("b"), counter("c", 2, &log)]));
    assert_eq!(show(&tree), "div:root2[text:a,text:b,2]");
    tree.update(div("root3", vec![text("a")]));
    assert_eq!(show(&tree), "div:root3[text:a]");
    assert_eq!(entries(&log).last().unwrap(), "will_unmount c");
    tree.update(div("root4", vec![]));
    assert_eq!(show(&tree), "div:root4[]");
}

#[test]
fn same_payload_cuts_the_diff_short() {
    let log = new_log();
    let mut tree = Tree::mount(div("root", vec![text("a"), counter("c", 0, &log)]));
    let before = entries(&log);
    tree.update(div("root", vec![text("b"), panel("p", &log), text("more")]));
    assert_eq!(show(&tree), "div:root[text:a,0]");
    assert_eq!(entries(&log), before);
}

#[test]
fn queued_changes_apply_in_order() {
    let log = new_log();
    let mut tree = Tree::mount(div("root", vec![counter("a", 1, &log), counter("b", 2, &log)]));
    log.lock().unwrap().clear();
    bump(&tree, 1, 20, &log);
    bump(&tree, 0, 10, &log);
    bump(&tree, 1, 5, &log);
    assert!(entries(&log).iter().all(|l| l.starts_with("render")));
    log.lock().unwrap().clear();
    tree.flush();
    assert_eq!(
        entries(&log),
        vec![
            "add 20 to 2",
            "render b 22",
            "add 10 to 1",
            "render a 11",
            "add 5 to 22",
            "render b 27",
        ]
    );
    assert_eq!(show(&tree), "div:root[11,27]");
}

#[test]
fn update_flushes_queued_changes_first() {
    let log = new_log();
    let mut tree = Tree::mount(div("root", vec![counter("a", 1, &log)]));
    bump(&tree, 0, 4, &log);
    log.lock().unwrap().clear();
    tree.update(div("next", vec![counter("a2", 50, &log)]));
    assert_eq!(entries(&log), vec!["add 4 to 1", "render a 5", "render a2 5"]);
    assert_eq!(show(&tree), "div:next[5]");
}

#[test]
fn flush_without_changes_does_nothing() {
    let log = new_log();
    let mut tree = Tree::mount(div("root", vec![counter("a", 1, &log)]));
    let before = entries(&log);
    tree.flush();
    assert_eq!(entries(&log), before);
    assert_eq!(show(&tree), "div:root[1]");
}

#[test]
fn change_for_an_unmounted_node_is_dropped() {
    let log = new_log();
    let mut tree = Tree::mount(div("root", vec![counter("a", 1, &log)]));
    {
        let dom = tree.render::<Dom>().unwrap();
        if let Widget::Counter(_, updater) = dom.children[0].widget {
            updater.set_state(Box::new(Add { amount: 1, log: log.clone() }));
        }
    }
    tree.flush();
    assert_eq!(show(&tree), "div:root[2]");
    // A handle that outlives its node: taken out of the output, kept beyond the update.
    let stale = {
        let dom = tree.render::<Dom>().unwrap();
        match dom.children[0].widget {
            Widget::Counter(_, updater) => updater.clone(),
            _ => unreachable!(),
        }
    };
    tree.update(div("root2", vec![text("gone")]));
    log.lock().unwrap().clear();
    stale.set_state(Box::new(Add { amount: 1, log: log.clone() }));
    tree.flush();
    assert_eq!(entries(&log), Vec::<String>::new());
    assert_eq!(show(&tree), "div:root2[text:gone]");
}

#[test]
fn nested_components_mount_and_unmount_in_order() {
    let log = new_log();
    let tree = Tree::mount(panel("outer", &log));
    assert_eq!(show(&tree), "div:outer[10]");
    assert_eq!(
        entries(&log),
        vec![
            "create outer",
            "render outer 0",
            "create outer.inner",
            "render outer.inner 10",
            "did_mount outer.inner",
            "did_mount outer",
        ]
    );
    log.lock().unwrap().clear();
    tree.unmount();
    assert_eq!(entries(&log), vec!["will_unmount outer.inner", "will_unmount outer"]);
}

#[test]
fn fragment_root_has_several_outputs() {
    let tree = Tree::mount(Element::new_fragment(vec![text("a"), text("b")]));
    let all = tree.render_all::<Dom>();
    assert_eq!(all.iter().map(|d| d.show()).collect::<Vec<_>>(), vec!["text:a", "text:b"]);
}

#[test]
fn fragment_children_join_their_parent() {
    let log = new_log();
    let tree = Tree::mount(div(
        "root",
        vec![
            text("first"),
            Element::new_fragment(vec![text("f1"), text("f2")]),
            Element::new_stateful(Props::Pair { log: log.clone() }),
        ],
    ));
    assert_eq!(show(&tree), "div:root[text:first,text:f1,text:f2,text:left,text:right]");
}

#[test]
fn empty_fragment_renders_nothing() {
    let tree = Tree::mount(Element::new_fragment(vec![]));
    assert!(tree.render::<Dom>().is_none());
    assert_eq!(tree.render_all::<Dom>().len(), 0);
}

#[test]
fn state_change_rerenders_only_its_subtree() {
    let log = new_log();
    let mut tree = Tree::mount(div("root", vec![counter("a", 1, &log), panel("p", &log)]));
    log.lock().unwrap().clear();
    bump(&tree, 1, 1, &log);
    log.lock().unwrap().clear();
    tree.flush();
    assert_eq!(entries(&log), vec!["add 1 to 10", "render p.inner 11"]);
    assert_eq!(show(&tree), "div:root[1,div:p[11]]");
}
