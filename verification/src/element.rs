//! Elements: immutable descriptions of the tree that a caller wants.
use vstd::prelude::*;
use vstd::std_specs::convert::IntoSpec;

verus! {

/// The payload of a host node, supplied by the embedder. The library stores
/// payloads and asks whether two of them are the same; it never looks
/// inside one.
pub trait HostElement: Sized {
    /// What `same` answers.
    closed spec fn spec_same(&self, other: &Self) -> bool {
        arbitrary()
    }

    /// Whether `other` describes the same host node as `self`, so that a
    /// node showing `self` need not be touched to show `other`.
    fn same(&self, other: &Self) -> (same: bool)
        ensures
            same == self.spec_same(other),
    ;
}

/// The output that a host node is materialized into, supplied by the
/// embedder.
pub trait DomNode<'a>: Sized + 'a {
    type Widget;

    /// What `new_dom_node` makes.
    closed spec fn spec_new_dom_node(h: Self::Widget, children: Seq<Self>) -> Self {
        arbitrary()
    }

    /// Makes the output for the payload `h` from the outputs of the host
    /// nodes directly below it.
    fn new_dom_node(h: &'a Self::Widget, children: Vec<Self>) -> (node: Self)
        ensures
            node == Self::spec_new_dom_node(*h, children@),
    ;
}

/// The description of a component instance: the props it is made from,
/// which also decide its class.
pub struct StatefulElement<P> {
    pub props: P,
}

/// A description of one node and of everything below it.
pub enum Element<H, P> {
    /// A host payload with its children.
    Host { element: H, children: Vec<Element<H, P>> },
    /// A component instance.
    Stateful(StatefulElement<P>),
    /// An ordered group without a payload of its own.
    Fragment(Vec<Element<H, P>>),
}

/// What an element describes: the element with its children as a
/// sequence.
pub ghost enum ElementView<H, P> {
    Host { element: H, children: Seq<ElementView<H, P>> },
    Stateful { props: P },
    Fragment { children: Seq<ElementView<H, P>> },
}

impl<H, P> Element<H, P> {
    /// What this element describes, as a value of the model.
    pub open spec fn model(&self) -> ElementView<H, P>
        decreases self,
    {
        match self {
            Element::Host { element, children } => ElementView::Host {
                element: *element,
                children: Self::models(children@, children@.len()),
            },
            Element::Stateful(stateful) => ElementView::Stateful { props: stateful.props },
            Element::Fragment(children) => ElementView::Fragment {
                children: Self::models(children@, children@.len()),
            },
        }
    }

    /// The models of the first `n` of `list`, in order.
    pub open spec fn models(list: Seq<Element<H, P>>, n: nat) -> Seq<ElementView<H, P>>
        decreases list, n,
    {
        if n == 0 || n > list.len() {
            Seq::empty()
        } else {
            Self::models(list, (n - 1) as nat).push(list[n - 1].model())
        }
    }
}

impl<H, P> DeepView for Element<H, P> {
    type V = ElementView<H, P>;

    open spec fn deep_view(&self) -> ElementView<H, P> {
        self.model()
    }
}

impl<H, P> ElementView<H, P> {
    /// How deep mounting this element can go, where `rank` bounds what a
    /// component with given props renders.
    pub open spec fn depth(self, rank: spec_fn(P) -> nat) -> nat
        decreases self,
    {
        match self {
            ElementView::Host { children, .. } => 1 + Self::max_depth(
                children,
                children.len(),
                rank,
            ),
            ElementView::Stateful { props } => 1 + rank(props),
            ElementView::Fragment { children } => 1 + Self::max_depth(
                children,
                children.len(),
                rank,
            ),
        }
    }

    /// The largest depth among the first `n` of `list`.
    pub open spec fn max_depth(list: Seq<ElementView<H, P>>, n: nat, rank: spec_fn(P) -> nat) -> nat
        decreases list, n,
    {
        if n == 0 || n > list.len() {
            0
        } else {
            let before = Self::max_depth(list, (n - 1) as nat, rank);
            let last = list[n - 1].depth(rank);
            if before > last {
                before
            } else {
                last
            }
        }
    }

    /// Every one of the first `n` of `list` is at most as deep as the
    /// deepest of them.
    pub proof fn lemma_max_depth(
        list: Seq<ElementView<H, P>>,
        n: nat,
        rank: spec_fn(P) -> nat,
        i: int,
    )
        requires
            0 <= i < n <= list.len(),
        ensures
            list[i].depth(rank) <= Self::max_depth(list, n, rank),
        decreases n,
    {
        if i < n - 1 {
            Self::lemma_max_depth(list, (n - 1) as nat, rank, i);
        }
    }
}

/// The models of a list are the deep view of the list.
pub proof fn lemma_models<H, P>(list: Vec<Element<H, P>>, n: nat)
    requires
        n <= list.len(),
    ensures
        Element::models(list@, n) =~= list.deep_view().subrange(0, n as int),
    decreases n,
{
    if n > 0 {
        lemma_models(list, (n - 1) as nat);
    }
}

/// The deep view of a list of elements is the list of their models.
pub proof fn lemma_deep_view_of_list<H, P>(list: Vec<Element<H, P>>)
    ensures
        Element::models(list@, list@.len()) == list.deep_view(),
{
    lemma_models(list, list@.len());
    assert(list.deep_view().subrange(0, list@.len() as int) =~= list.deep_view());
}

impl<H, P> Element<H, P> {
    /// A host element with the payload that `elt` converts into.
    pub fn new_host<A: Into<H>>(elt: A, children: Vec<Element<H, P>>) -> (e: Element<H, P>)
        ensures
            e.deep_view() is Host,
            e.deep_view()->Host_children == children.deep_view(),
            A::obeys_into_spec() ==> e.deep_view()->Host_element == elt.into_spec(),
    {
        let ghost list = children;
        let e = Element::Host { element: elt.into(), children };
        proof {
            lemma_deep_view_of_list(list);
        }
        e
    }

    /// A fragment that groups `children`.
    pub fn new_fragment(children: Vec<Element<H, P>>) -> (e: Element<H, P>)
        ensures
            e.deep_view() == (ElementView::<H, P>::Fragment { children: children.deep_view() }),
    {
        let ghost list = children;
        let e = Element::Fragment(children);
        proof {
            lemma_deep_view_of_list(list);
        }
        e
    }

    /// The description of a component made from `props`.
    pub fn new_stateful(props: P) -> (e: Element<H, P>)
        ensures
            e.deep_view() == (ElementView::<H, P>::Stateful { props }),
    {
        Element::Stateful(StatefulElement { props })
    }
}

} // verus!
