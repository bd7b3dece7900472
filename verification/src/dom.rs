//! The element tree of a page, held as a table of nodes in document order.

use crate::text::{blank, chars_of, is_blank, is_str, opt_view};
use ego_tree::iter::Edge;
use scraper::{Html, Node};
use vstd::prelude::*;

verus! {

/// What a node of the tree is.
#[derive(Debug, Clone, Copy, PartialEq, Eq, Structural)]
pub enum NodeKind {
    /// Character data.
    Text,
    /// An element with a tag name and attributes.
    Element,
    /// Anything else: the document root, a comment, a doctype, a processing instruction.
    Other,
}

/// One attribute of an element.
#[derive(Debug, Clone, PartialEq, Eq)]
pub struct DomAttr {
    /// The namespace prefix, where the attribute has one.
    pub prefix: Option<String>,
    /// The namespace; empty for an ordinary attribute.
    pub ns: String,
    /// The name without prefix.
    pub local: String,
    pub value: String,
}

/// A `DomAttr` with its strings as sequences of characters.
pub struct AttrView {
    pub prefix: Option<Seq<char>>,
    pub ns: Seq<char>,
    pub local: Seq<char>,
    pub value: Seq<char>,
}

impl View for DomAttr {
    type V = AttrView;

    open spec fn view(&self) -> AttrView {
        AttrView {
            prefix: match self.prefix {
                Some(p) => Some(p@),
                None => None,
            },
            ns: self.ns@,
            local: self.local@,
            value: self.value@,
        }
    }
}

/// The attributes of `v`, each by its view.
pub open spec fn attrs_of(v: Seq<DomAttr>) -> Seq<AttrView> {
    Seq::new(v.len(), |i: int| v[i]@)
}

/// One step of a walk through a tree in document order: a node is entered, or the node
/// entered last and not yet left is left.
#[derive(Debug, Clone, PartialEq, Eq)]
pub enum TreeEvent {
    /// A text node is entered.
    Text(String),
    /// An element is entered; the payload is its tag name and its attributes.
    Element(String, Vec<DomAttr>),
    /// A node of another kind is entered.
    Other,
    /// The current node is left.
    Close,
}

/// A `TreeEvent` with its strings as sequences of characters.
pub enum EventView {
    Text(Seq<char>),
    Element(Seq<char>, Seq<AttrView>),
    Other,
    Close,
}

impl View for TreeEvent {
    type V = EventView;

    open spec fn view(&self) -> EventView {
        match self {
            TreeEvent::Text(t) => EventView::Text(t@),
            TreeEvent::Element(n, a) => EventView::Element(n@, attrs_of(a@)),
            TreeEvent::Other => EventView::Other,
            TreeEvent::Close => EventView::Close,
        }
    }
}

/// The events of `v`, each by its view.
pub open spec fn events_of(v: Seq<TreeEvent>) -> Seq<EventView> {
    Seq::new(v.len(), |i: int| v[i]@)
}

/// One node of the table.
#[derive(Debug, Clone, PartialEq, Eq)]
pub struct DomNode {
    pub kind: NodeKind,
    /// The tag name of an element; empty for any other node.
    pub name: String,
    /// The characters of a text node; empty for any other node.
    pub text: String,
    /// The attributes of an element; empty for any other node.
    pub attrs: Vec<DomAttr>,
    /// The index of the parent; `None` for the root.
    pub parent: Option<usize>,
    /// The place of this node among the children of its parent.
    pub position: usize,
    /// The indices of the children, in document order.
    pub children: Vec<usize>,
}

/// A `DomNode` with its strings and vectors as sequences.
pub struct NodeView {
    pub kind: NodeKind,
    pub name: Seq<char>,
    pub text: Seq<char>,
    pub attrs: Seq<AttrView>,
    pub parent: Option<usize>,
    pub position: usize,
    pub children: Seq<usize>,
}

impl View for DomNode {
    type V = NodeView;

    open spec fn view(&self) -> NodeView {
        NodeView {
            kind: self.kind,
            name: self.name@,
            text: self.text@,
            attrs: attrs_of(self.attrs@),
            parent: self.parent,
            position: self.position,
            children: self.children@,
        }
    }
}

/// The nodes of `v`, each by its view.
pub open spec fn nodes_of(v: Seq<DomNode>) -> Seq<NodeView> {
    Seq::new(v.len(), |i: int| v[i]@)
}

/// Whether the `k`-th child of node `i` lies after `i` and records `i` as its parent.
pub open spec fn child_ok(nodes: Seq<NodeView>, i: int, k: int) -> bool {
    let c = nodes[i].children[k];
    &&& i < c < nodes.len()
    &&& nodes[c as int].parent == Some(i as usize)
    &&& nodes[c as int].position == k
}

/// Whether node `i` stands among the children of a parent that lies before it, and has
/// no more children than there are nodes.
pub open spec fn parent_ok(nodes: Seq<NodeView>, i: int) -> bool {
    &&& nodes[i].children.len() <= nodes.len()
    &&& match nodes[i].parent {
        Some(p) => {
            &&& p < i
            &&& nodes[i].position < nodes[p as int].children.len()
            &&& nodes[p as int].children[nodes[i].position as int] == i
        },
        None => i == 0,
    }
}

/// Whether `nodes` is a tree rooted at index 0 in which each child lies after its parent.
pub open spec fn dom_wf(nodes: Seq<NodeView>) -> bool {
    &&& nodes.len() > 0
    &&& forall|i: int, k: int|
        0 <= i < nodes.len() && 0 <= k < nodes[i].children.len() ==> #[trigger] child_ok(nodes, i, k)
    &&& forall|i: int| 0 <= i < nodes.len() ==> #[trigger] parent_ok(nodes, i)
}

/// The tree under construction: the nodes entered so far and those not yet left.
pub struct BuildState {
    pub nodes: Seq<NodeView>,
    /// The indices of the nodes entered and not yet left, outermost first.
    pub stack: Seq<usize>,
    /// Whether every event so far was in order.
    pub ok: bool,
}

/// The state before any event.
pub open spec fn build_start() -> BuildState {
    BuildState { nodes: Seq::empty(), stack: Seq::empty(), ok: true }
}

/// The state after a node with the given contents is entered.
///
/// The node becomes the last child of the innermost node not yet left. With no such node
/// it becomes the root, unless there is a root already: then the events are out of order.
pub open spec fn enter(
    st: BuildState,
    kind: NodeKind,
    name: Seq<char>,
    text: Seq<char>,
    attrs: Seq<AttrView>,
) -> BuildState {
    let idx = st.nodes.len() as usize;
    if st.stack.len() == 0 {
        if st.nodes.len() == 0 {
            BuildState {
                nodes: seq![
                    NodeView { kind, name, text, attrs, parent: None, position: 0, children: Seq::empty() },
                ],
                stack: seq![0usize],
                ok: true,
            }
        } else {
            BuildState { nodes: st.nodes, stack: st.stack, ok: false }
        }
    } else {
        let p = st.stack.last();
        let up = st.nodes[p as int];
        let parent = NodeView {
            kind: up.kind,
            name: up.name,
            text: up.text,
            attrs: up.attrs,
            parent: up.parent,
            position: up.position,
            children: up.children.push(idx),
        };
        let node = NodeView {
            kind,
            name,
            text,
            attrs,
            parent: Some(p),
            position: up.children.len() as usize,
            children: Seq::empty(),
        };
        BuildState {
            nodes: st.nodes.update(p as int, parent).push(node),
            stack: st.stack.push(idx),
            ok: true,
        }
    }
}

/// The state after the event `ev` in state `st`.
pub open spec fn build_step(st: BuildState, ev: EventView) -> BuildState {
    if !st.ok {
        st
    } else {
        match ev {
            EventView::Text(t) => enter(st, NodeKind::Text, Seq::empty(), t, Seq::empty()),
            EventView::Element(n, a) => enter(st, NodeKind::Element, n, Seq::empty(), a),
            EventView::Other => enter(st, NodeKind::Other, Seq::empty(), Seq::empty(), Seq::empty()),
            EventView::Close => if st.stack.len() == 0 {
                BuildState { nodes: st.nodes, stack: st.stack, ok: false }
            } else {
                BuildState { nodes: st.nodes, stack: st.stack.drop_last(), ok: true }
            },
        }
    }
}

/// The state after all of `events`, from the first to the last.
pub open spec fn build_fold(events: Seq<EventView>) -> BuildState
    decreases events.len(),
{
    if events.len() == 0 {
        build_start()
    } else {
        build_step(build_fold(events.drop_last()), events.last())
    }
}

/// The tree that `events` walk through: there is one where the events are in order, enter
/// at least one node and leave every node they enter.
pub open spec fn built(events: Seq<EventView>) -> Option<Seq<NodeView>> {
    let st = build_fold(events);
    if st.ok && st.stack.len() == 0 && st.nodes.len() > 0 {
        Some(st.nodes)
    } else {
        None
    }
}

/// Whether a state under construction is sound: its stack points into its nodes, and its
/// nodes, where there are any, form a tree.
pub open spec fn build_wf(st: BuildState) -> bool {
    &&& forall|k: int| 0 <= k < st.stack.len() ==> #[trigger] st.stack[k] < st.nodes.len()
    &&& st.nodes.len() > 0 ==> dom_wf(st.nodes)
}

/// Entering a node keeps a sound state sound.
pub proof fn lemma_enter_wf(
    st: BuildState,
    kind: NodeKind,
    name: Seq<char>,
    text: Seq<char>,
    attrs: Seq<AttrView>,
)
    requires
        build_wf(st),
        st.nodes.len() < usize::MAX,
    ensures
        build_wf(enter(st, kind, name, text, attrs)),
{
    let next = enter(st, kind, name, text, attrs);
    if st.stack.len() == 0 {
        if st.nodes.len() == 0 {
            assert(parent_ok(next.nodes, 0));
            assert(dom_wf(next.nodes));
        }
    } else {
        let p = st.stack.last() as int;
        let idx = st.nodes.len() as int;
        let fresh = st.nodes[p].children.len() as int;
        assert(st.stack[st.stack.len() - 1] < st.nodes.len());
        assert(parent_ok(st.nodes, p));
        assert(next.nodes.len() == idx + 1);
        assert(next.nodes[idx].children.len() == 0);
        assert(next.nodes[p].children == st.nodes[p].children.push(idx as usize));
        assert forall|i: int| 0 <= i < idx && i != p implies next.nodes[i] == st.nodes[i] by {}
        assert forall|i: int, k: int|
            0 <= i < next.nodes.len() && 0 <= k < next.nodes[i].children.len() implies #[trigger] child_ok(
            next.nodes,
            i,
            k,
        ) by {
            if i == idx {
            } else if i == p && k == fresh {
                assert(next.nodes[p].children[k] == idx);
            } else {
                assert(child_ok(st.nodes, i, k));
                let c = st.nodes[i].children[k] as int;
                assert(next.nodes[i].children[k] == c);
                if c == p {
                    assert(next.nodes[c].parent == st.nodes[c].parent);
                    assert(next.nodes[c].position == st.nodes[c].position);
                }
            }
        }
        assert forall|i: int| 0 <= i < next.nodes.len() implies #[trigger] parent_ok(next.nodes, i) by {
            if i < idx {
                assert(parent_ok(st.nodes, i));
                assert(next.nodes[i].parent == st.nodes[i].parent);
                assert(next.nodes[i].position == st.nodes[i].position);
                match st.nodes[i].parent {
                    Some(q) => {
                        let pos = st.nodes[i].position as int;
                        assert(next.nodes[q as int].children[pos] == st.nodes[q as int].children[pos]);
                    },
                    None => {},
                }
            } else {
                assert(next.nodes[idx].parent == Some(p as usize));
                assert(next.nodes[idx].position == fresh);
                assert(next.nodes[p].children[fresh] == idx);
            }
        }
        assert forall|k: int| 0 <= k < next.stack.len() implies #[trigger] next.stack[k]
            < next.nodes.len() by {
            if k < st.stack.len() {
                assert(st.stack[k] < st.nodes.len());
            }
        }
        assert(dom_wf(next.nodes));
    }
}

/// Any event keeps a sound state sound.
pub proof fn lemma_step_wf(st: BuildState, ev: EventView)
    requires
        build_wf(st),
        ev is Close || st.nodes.len() < usize::MAX,
    ensures
        build_wf(build_step(st, ev)),
{
    if st.ok {
        match ev {
            EventView::Text(t) => lemma_enter_wf(st, NodeKind::Text, Seq::empty(), t, Seq::empty()),
            EventView::Element(n, a) => lemma_enter_wf(st, NodeKind::Element, n, Seq::empty(), a),
            EventView::Other => lemma_enter_wf(
                st,
                NodeKind::Other,
                Seq::empty(),
                Seq::empty(),
                Seq::empty(),
            ),
            EventView::Close => {
                let next = build_step(st, ev);
                assert forall|k: int| 0 <= k < next.stack.len() implies #[trigger] next.stack[k]
                    < next.nodes.len() by {
                    assert(st.stack[k] < st.nodes.len());
                }
            },
        }
    }
}

/// A copy of an attribute.
pub fn copy_attr(a: &DomAttr) -> (r: DomAttr)
    ensures
        r@ == a@,
{
    DomAttr {
        prefix: match &a.prefix {
            Some(p) => Some(p.clone()),
            None => None,
        },
        ns: a.ns.clone(),
        local: a.local.clone(),
        value: a.value.clone(),
    }
}

/// A copy of a list of attributes.
pub fn copy_attrs(v: &Vec<DomAttr>) -> (r: Vec<DomAttr>)
    ensures
        attrs_of(r@) == attrs_of(v@),
{
    let mut r: Vec<DomAttr> = Vec::new();
    let mut i: usize = 0;
    while i < v.len()
        invariant
            i <= v.len(),
            r@.len() == i,
            forall|k: int| 0 <= k < i ==> r@[k]@ == v@[k]@,
        decreases v.len() - i,
    {
        r.push(copy_attr(&v[i]));
        i += 1;
    }
    assert(attrs_of(r@) =~= attrs_of(v@));
    r
}

/// Whether `a` is the ordinary attribute called `name`: one without prefix or namespace.
pub open spec fn plain_named(a: AttrView, name: Seq<char>) -> bool {
    a.prefix is None && a.ns.len() == 0 && a.local == name
}

/// The value of the first ordinary attribute called `name` among `attrs` from `k` on.
pub open spec fn attr_from(attrs: Seq<AttrView>, name: Seq<char>, k: int) -> Option<Seq<char>>
    decreases attrs.len() - k,
{
    if k < 0 || k >= attrs.len() {
        None
    } else if plain_named(attrs[k], name) {
        Some(attrs[k].value)
    } else {
        attr_from(attrs, name, k + 1)
    }
}

/// The value of the ordinary attribute called `name`, where `attrs` holds one.
pub open spec fn attr_value(attrs: Seq<AttrView>, name: Seq<char>) -> Option<Seq<char>> {
    attr_from(attrs, name, 0)
}

impl DomNode {
    /// The value of the attribute called `name`.
    pub fn attr(&self, name: &str) -> (r: Option<String>)
        ensures
            opt_view(r) == attr_value(self@.attrs, name@),
    {
        let mut k: usize = 0;
        while k < self.attrs.len()
            invariant
                k <= self.attrs.len(),
                attr_value(self@.attrs, name@) == attr_from(self@.attrs, name@, k as int),
            decreases self.attrs.len() - k,
        {
            let a = &self.attrs[k];
            assert(self@.attrs[k as int] == a@);
            if a.prefix.is_none() && a.ns.as_str().is_empty() && is_str(a.local.as_str(), name) {
                return Some(a.value.clone());
            }
            k += 1;
        }
        None
    }

    /// Whether this node is an element with the tag name `name`.
    pub fn is_element_named(&self, name: &str) -> (r: bool)
        ensures
            r == (self@.kind == NodeKind::Element && self@.name == name@),
    {
        match self.kind {
            NodeKind::Element => is_str(self.name.as_str(), name),
            _ => false,
        }
    }
}

/// The tree of a page: a table of nodes in document order, the root first.
#[derive(Debug, Clone, PartialEq, Eq)]
pub struct Dom {
    pub nodes: Vec<DomNode>,
}

impl View for Dom {
    type V = Seq<NodeView>;

    open spec fn view(&self) -> Seq<NodeView> {
        nodes_of(self.nodes@)
    }
}

impl Dom {
    /// Whether the table is a tree rooted at index 0.
    pub open spec fn wf(&self) -> bool {
        dom_wf(self@)
    }

    /// Enters a node as the last child of `stack`'s innermost node.
    fn enter_node(
        nodes: &mut Vec<DomNode>,
        stack: &mut Vec<usize>,
        kind: NodeKind,
        name: String,
        text: String,
        attrs: Vec<DomAttr>,
    ) -> (ok: bool)
        requires
            build_wf(BuildState { nodes: nodes_of(old(nodes)@), stack: old(stack)@, ok: true }),
        ensures
            (BuildState { nodes: nodes_of(final(nodes)@), stack: final(stack)@, ok }) == enter(
                BuildState { nodes: nodes_of(old(nodes)@), stack: old(stack)@, ok: true },
                kind,
                name@,
                text@,
                attrs_of(attrs@),
            ),
    {
        let idx = nodes.len();
        let ghost st = BuildState { nodes: nodes_of(nodes@), stack: stack@, ok: true };
        if stack.len() == 0 {
            if idx == 0 {
                nodes.push(
                    DomNode { kind, name, text, attrs, parent: None, position: 0, children: Vec::new() },
                );
                stack.push(0);
                assert(nodes_of(nodes@) =~= enter(st, kind, name@, text@, attrs_of(attrs@)).nodes);
                assert(stack@ =~= seq![0usize]);
                true
            } else {
                false
            }
        } else {
            let p = stack[stack.len() - 1];
            assert(st.stack[st.stack.len() - 1] < st.nodes.len());
            let position = nodes[p].children.len();
            nodes[p].children.push(idx);
            nodes.push(
                DomNode { kind, name, text, attrs, parent: Some(p), position, children: Vec::new() },
            );
            stack.push(idx);
            assert(nodes_of(nodes@) =~= enter(st, kind, name@, text@, attrs_of(attrs@)).nodes);
            true
        }
    }

    /// Builds the tree that `events` walk through.
    ///
    /// Returns `None` where the events leave a node that was not entered, enter a second
    /// root, enter no node at all or end before every node is left.
    pub fn from_events(events: &Vec<TreeEvent>) -> (r: Option<Dom>)
        ensures
            match r {
                Some(dom) => built(events_of(events@)) == Some(dom@) && dom.wf(),
                None => built(events_of(events@)) is None,
            },
    {
        let mut nodes: Vec<DomNode> = Vec::new();
        let mut stack: Vec<usize> = Vec::new();
        let mut i: usize = 0;
        assert(nodes_of(nodes@) =~= Seq::empty());
        assert(events_of(events@).take(0) =~= Seq::empty());
        while i < events.len()
            invariant
                i <= events.len(),
                (BuildState { nodes: nodes_of(nodes@), stack: stack@, ok: true }) == build_fold(
                    events_of(events@).take(i as int),
                ),
                build_wf(BuildState { nodes: nodes_of(nodes@), stack: stack@, ok: true }),
            decreases events.len() - i,
        {
            let ghost st = BuildState { nodes: nodes_of(nodes@), stack: stack@, ok: true };
            let ghost ev = events@[i as int]@;
            proof {
                let upto = events_of(events@).take(i + 1);
                assert(upto.drop_last() == events_of(events@).take(i as int));
                assert(upto.last() == ev);
            }
            let ok = match &events[i] {
                TreeEvent::Text(t) => Self::enter_node(
                    &mut nodes,
                    &mut stack,
                    NodeKind::Text,
                    String::new(),
                    t.clone(),
                    Vec::new(),
                ),
                TreeEvent::Element(n, a) => Self::enter_node(
                    &mut nodes,
                    &mut stack,
                    NodeKind::Element,
                    n.clone(),
                    String::new(),
                    copy_attrs(a),
                ),
                TreeEvent::Other => Self::enter_node(
                    &mut nodes,
                    &mut stack,
                    NodeKind::Other,
                    String::new(),
                    String::new(),
                    Vec::new(),
                ),
                TreeEvent::Close => {
                    if stack.len() == 0 {
                        false
                    } else {
                        stack.pop();
                        true
                    }
                },
            };
            proof {
                assert(attrs_of(Seq::<DomAttr>::empty()) =~= Seq::<AttrView>::empty());
                assert((BuildState { nodes: nodes_of(nodes@), stack: stack@, ok }) == build_step(st, ev));
            }
            if !ok {
                proof {
                    lemma_fold_stays_failed(events_of(events@), i + 1);
                }
                return None;
            }
            let count = nodes.len();
            proof {
                assert(count == nodes@.len());
                assert(!(ev is Close) ==> nodes_of(nodes@).len() == st.nodes.len() + 1);
                lemma_step_wf(st, ev);
            }
            i += 1;
        }
        assert(events_of(events@).take(events.len() as int) == events_of(events@));
        if stack.len() == 0 && nodes.len() > 0 {
            Some(Dom { nodes })
        } else {
            None
        }
    }
}

/// Once the events are out of order they stay so, whatever follows.
pub proof fn lemma_fold_stays_failed(events: Seq<EventView>, n: int)
    requires
        0 <= n <= events.len(),
        !build_fold(events.take(n)).ok,
    ensures
        !build_fold(events).ok,
    decreases events.len() - n,
{
    if n < events.len() {
        let next = events.take(n + 1);
        assert(next.drop_last() == events.take(n));
        lemma_fold_stays_failed(events, n + 1);
    } else {
        assert(events.take(n) == events);
    }
}

/// What is looked for among the children of a node.
#[derive(Debug, Clone, Copy)]
pub enum Want<'a> {
    /// An element, or text that is not blank.
    Content,
    /// Any element.
    Element,
    /// An element with the given tag name.
    Named(&'a str),
}

/// A `Want` with its tag name as a sequence of characters.
pub enum WantView {
    Content,
    Element,
    Named(Seq<char>),
}

impl<'a> View for Want<'a> {
    type V = WantView;

    open spec fn view(&self) -> WantView {
        match self {
            Want::Content => WantView::Content,
            Want::Element => WantView::Element,
            Want::Named(n) => WantView::Named(n@),
        }
    }
}

/// Whether `node` is what `want` looks for.
pub open spec fn wanted(want: WantView, node: NodeView) -> bool {
    match want {
        WantView::Content => node.kind == NodeKind::Element || (node.kind == NodeKind::Text && !is_blank(
            node.text,
        )),
        WantView::Element => node.kind == NodeKind::Element,
        WantView::Named(name) => node.kind == NodeKind::Element && node.name == name,
    }
}

/// The first child of node `p`, from its `k`-th child on, that is what `want` looks for.
pub open spec fn child_from(nodes: Seq<NodeView>, p: int, k: int, want: WantView) -> Option<usize>
    decreases nodes[p].children.len() - k,
{
    if k < 0 || k >= nodes[p].children.len() {
        None
    } else if wanted(want, nodes[nodes[p].children[k] as int]) {
        Some(nodes[p].children[k])
    } else {
        child_from(nodes, p, k + 1, want)
    }
}

/// The first sibling after node `i` that is what `want` looks for.
pub open spec fn sibling_after(nodes: Seq<NodeView>, i: int, want: WantView) -> Option<usize> {
    match nodes[i].parent {
        Some(p) => child_from(nodes, p as int, nodes[i].position + 1, want),
        None => None,
    }
}

/// What `child_from` finds is a child of `p`, and so a node after `p`.
pub proof fn lemma_child_from(nodes: Seq<NodeView>, p: int, k: int, want: WantView)
    requires
        dom_wf(nodes),
        0 <= p < nodes.len(),
        0 <= k,
    ensures
        match child_from(nodes, p, k, want) {
            Some(c) => {
                &&& p < c < nodes.len()
                &&& nodes[c as int].parent == Some(p as usize)
                &&& k <= nodes[c as int].position < nodes[p].children.len()
                &&& wanted(want, nodes[c as int])
            },
            None => true,
        },
    decreases nodes[p].children.len() - k,
{
    if k < nodes[p].children.len() {
        assert(child_ok(nodes, p, k));
        if !wanted(want, nodes[nodes[p].children[k] as int]) {
            lemma_child_from(nodes, p, k + 1, want);
        }
    }
}

impl Dom {
    /// Whether node `i` is what `want` looks for.
    pub fn is_wanted(&self, i: usize, want: Want) -> (r: bool)
        requires
            i < self.nodes.len(),
        ensures
            r == wanted(want@, self@[i as int]),
    {
        let node = &self.nodes[i];
        assert(self@[i as int] == node@);
        match want {
            Want::Content => match node.kind {
                NodeKind::Element => true,
                NodeKind::Text => {
                    let t = chars_of(node.text.as_str());
                    !blank(&t)
                },
                NodeKind::Other => false,
            },
            Want::Element => match node.kind {
                NodeKind::Element => true,
                _ => false,
            },
            Want::Named(name) => node.is_element_named(name),
        }
    }

    /// The first child of node `p`, from its `k`-th child on, that is what `want` looks for.
    pub fn find_child(&self, p: usize, k: usize, want: Want) -> (r: Option<usize>)
        requires
            self.wf(),
            p < self.nodes.len(),
        ensures
            r == child_from(self@, p as int, k as int, want@),
            r is Some ==> p < r->0 < self.nodes.len(),
    {
        let node = &self.nodes[p];
        assert(self@[p as int] == node@);
        let mut j: usize = k;
        while j < node.children.len()
            invariant
                self.wf(),
                p < self.nodes.len(),
                self@[p as int] == node@,
                k <= j,
                child_from(self@, p as int, k as int, want@) == child_from(self@, p as int, j as int, want@),
            decreases node.children.len() - j,
        {
            let c = node.children[j];
            assert(child_ok(self@, p as int, j as int));
            if self.is_wanted(c, want) {
                return Some(c);
            }
            j += 1;
        }
        None
    }

    /// The first sibling after node `i` that is what `want` looks for.
    pub fn find_sibling(&self, i: usize, want: Want) -> (r: Option<usize>)
        requires
            self.wf(),
            i < self.nodes.len(),
        ensures
            r == sibling_after(self@, i as int, want@),
            r is Some ==> r->0 < self.nodes.len(),
    {
        let node = &self.nodes[i];
        assert(self@[i as int] == node@);
        match node.parent {
            Some(p) => {
                assert(parent_ok(self@, i as int));
                let count = self.nodes[p].children.len();
                assert(self@[p as int] == self.nodes[p as int]@);
                assert(node.position < count);
                self.find_child(p, node.position + 1, want)
            },
            None => None,
        }
    }
}

/// The walk through the tree that the HTML parser builds from the page `text`: each node
/// entered and left in document order, the document root first.
pub uninterp spec fn html_events(text: Seq<char>) -> Seq<EventView>;

/// Parses a page and walks through its tree.
///
/// Calls `scraper::Html::parse_document` and `ego_tree::NodeRef::traverse` from the root.
/// The result is what that parser builds from `text` and from nothing else; each edge of
/// the walk becomes one event, a text node with its characters, an element with its tag
/// name and its attributes as the parser holds them.
#[verifier::external_body]
pub(crate) fn document_events(text: &str) -> (events: Vec<TreeEvent>)
    ensures
        events_of(events@) == html_events(text@),
{
    let doc = Html::parse_document(text);
    doc.tree.root().traverse().map(|edge| match edge {
        Edge::Open(n) => match n.value() {
            Node::Text(t) => TreeEvent::Text(t.to_string()),
            Node::Element(e) => TreeEvent::Element(e.name().to_string(), e.attrs.iter().map(|(k, v)| DomAttr {
                prefix: k.prefix.as_ref().map(|p| p.to_string()),
                ns: k.ns.to_string(),
                local: k.local.to_string(),
                value: v.to_string(),
            }).collect()),
            _ => TreeEvent::Other,
        },
        Edge::Close(_) => TreeEvent::Close,
    }).collect()
}

/// Parses a page into its tree.
///
/// Returns `None` where the walk through the parsed page is not that of one tree.
pub fn parse_page(text: &str) -> (r: Option<Dom>)
    ensures
        match r {
            Some(dom) => built(html_events(text@)) == Some(dom@) && dom.wf(),
            None => built(html_events(text@)) is None,
        },
{
    let events = document_events(text);
    Dom::from_events(&events)
}

} // verus!
