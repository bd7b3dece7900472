//! Styled text runs, their canonical form and their rendering.

use crate::dom::{attr_value, child_ok, AttrView, Dom, DomNode, NodeKind, NodeView};
use crate::parse_fnames::{convert_to_url, join_path, joined, link_of};
use crate::text::{append, append_str, chars_of, is_str, string_of, trim, trimmed};
use vstd::prelude::*;
use vstd::string::StringExecFns;

verus! {

/// The rendering style of a run of text.
#[derive(Debug, Clone, PartialEq, Eq)]
pub enum Style {
    /// A link; the payload is the destination, already joined to the page's directory.
    Hyperlink(String),
    /// A hover label; the payload is the label.
    Tooltip(String),
    Plain,
    Bold,
    Italic,
    CodeSnippet,
    CodeFull,
}

/// What a `Style` is, with its payload as a sequence of characters.
pub enum StyleView {
    Hyperlink(Seq<char>),
    Tooltip(Seq<char>),
    Plain,
    Bold,
    Italic,
    CodeSnippet,
    CodeFull,
}

impl StyleView {
    /// Whether adjacent runs of this style may be merged into one.
    pub open spec fn combinatorial(self) -> bool {
        !(self is Hyperlink) && !(self is Tooltip)
    }
}

impl View for Style {
    type V = StyleView;

    open spec fn view(&self) -> StyleView {
        match self {
            Style::Hyperlink(d) => StyleView::Hyperlink(d@),
            Style::Tooltip(l) => StyleView::Tooltip(l@),
            Style::Plain => StyleView::Plain,
            Style::Bold => StyleView::Bold,
            Style::Italic => StyleView::Italic,
            Style::CodeSnippet => StyleView::CodeSnippet,
            Style::CodeFull => StyleView::CodeFull,
        }
    }
}

impl Style {
    /// Whether adjacent runs of this style may be merged into one.
    pub fn is_combinatorial(&self) -> (r: bool)
        ensures
            r == self@.combinatorial(),
    {
        match self {
            Style::Hyperlink(_) | Style::Tooltip(_) => false,
            Style::Plain | Style::Bold | Style::Italic | Style::CodeSnippet | Style::CodeFull => true,
        }
    }

    /// Whether two styles are the same, payload included.
    pub fn same(&self, other: &Style) -> (r: bool)
        ensures
            r == (self@ == other@),
    {
        match (self, other) {
            (Style::Hyperlink(a), Style::Hyperlink(b)) => *a == *b,
            (Style::Tooltip(a), Style::Tooltip(b)) => *a == *b,
            (Style::Plain, Style::Plain) => true,
            (Style::Bold, Style::Bold) => true,
            (Style::Italic, Style::Italic) => true,
            (Style::CodeSnippet, Style::CodeSnippet) => true,
            (Style::CodeFull, Style::CodeFull) => true,
            _ => false,
        }
    }

    /// A copy of this style.
    pub fn duplicate(&self) -> (r: Style)
        ensures
            r@ == self@,
    {
        match self {
            Style::Hyperlink(d) => Style::Hyperlink(d.clone()),
            Style::Tooltip(l) => Style::Tooltip(l.clone()),
            Style::Plain => Style::Plain,
            Style::Bold => Style::Bold,
            Style::Italic => Style::Italic,
            Style::CodeSnippet => Style::CodeSnippet,
            Style::CodeFull => Style::CodeFull,
        }
    }
}

impl Default for Style {
    fn default() -> (r: Style)
        ensures
            r@ == StyleView::Plain,
    {
        Style::Plain
    }
}

/// What a `Markdown` run is: its text and its style.
pub struct RunView {
    pub txt: Seq<char>,
    pub style: StyleView,
}

/// A span of text with one rendering style.
#[derive(Debug, Clone, PartialEq, Eq)]
pub struct Markdown {
    pub txt: String,
    pub style: Style,
}

impl View for Markdown {
    type V = RunView;

    open spec fn view(&self) -> RunView {
        RunView { txt: self.txt@, style: self.style@ }
    }
}

/// The runs of `v`, each by its view.
pub open spec fn runs_of(v: Seq<Markdown>) -> Seq<RunView> {
    Seq::new(v.len(), |i: int| v[i]@)
}

/// Whether a run `next` that follows `acc` is folded into it.
pub open spec fn merges(acc: RunView, next: RunView) -> bool {
    acc.style == next.style && next.style.combinatorial()
}

/// The canonical form of `runs`: read from the left, each run whose style is
/// combinatorial and equal to that of the run before it is appended to that run.
pub open spec fn simplified(runs: Seq<RunView>) -> Seq<RunView>
    decreases runs.len(),
{
    if runs.len() == 0 {
        runs
    } else {
        let done = simplified(runs.drop_last());
        let next = runs.last();
        if done.len() > 0 && merges(done.last(), next) {
            done.drop_last().push(RunView { txt: done.last().txt + next.txt, style: next.style })
        } else {
            done.push(next)
        }
    }
}

/// Whether no run of `runs` would be folded into the run before it.
pub open spec fn is_simplified(runs: Seq<RunView>) -> bool {
    forall|i: int| 0 < i < runs.len() ==> !merges(#[trigger] runs[i - 1], runs[i])
}

/// What `simplified` yields is in canonical form.
pub proof fn lemma_simplified_is_simplified(runs: Seq<RunView>)
    ensures
        is_simplified(simplified(runs)),
    decreases runs.len(),
{
    if runs.len() > 0 {
        lemma_simplified_is_simplified(runs.drop_last());
        let done = simplified(runs.drop_last());
        let out = simplified(runs);
        assert forall|i: int| 0 < i < out.len() implies !merges(#[trigger] out[i - 1], out[i]) by {
            if i < done.len() {
                assert(!merges(done[i - 1], done[i]));
            }
        }
    }
}

/// A sequence in canonical form is its own canonical form.
pub proof fn lemma_simplified_fixed(runs: Seq<RunView>)
    requires
        is_simplified(runs),
    ensures
        simplified(runs) == runs,
    decreases runs.len(),
{
    if runs.len() > 0 {
        let front = runs.drop_last();
        assert forall|i: int| 0 < i < front.len() implies !merges(#[trigger] front[i - 1], front[i]) by {
            assert(!merges(runs[i - 1], runs[i]));
        }
        lemma_simplified_fixed(front);
        if front.len() > 0 {
            assert(!merges(runs[runs.len() - 2], runs[runs.len() - 1]));
        }
        assert(front.push(runs.last()) == runs);
    }
}

/// Simplifying twice gives what simplifying once gives.
pub proof fn lemma_simplify_idempotent(runs: Seq<RunView>)
    ensures
        simplified(simplified(runs)) == simplified(runs),
{
    lemma_simplified_is_simplified(runs);
    lemma_simplified_fixed(simplified(runs));
}

/// The markup text of `run`, with `link` as the address of its destination where it is a
/// hyperlink.
///
/// The text is trimmed and wrapped as its style asks. A hyperlink without an address is
/// rendered as its text alone.
pub open spec fn rendered(run: RunView, link: Option<Seq<char>>) -> Seq<char> {
    let t = trimmed(run.txt);
    match run.style {
        StyleView::Hyperlink(_) => match link {
            Some(address) => "["@ + t + "]("@ + address + ")"@,
            None => t,
        },
        StyleView::Tooltip(label) => t + " ("@ + label + ")"@,
        StyleView::Plain => t,
        StyleView::Bold => "**"@ + t + "**"@,
        StyleView::Italic => "*"@ + t + "*"@,
        StyleView::CodeSnippet => "`"@ + t + "`"@,
        StyleView::CodeFull => "```\n"@ + t + "\n```"@,
    }
}

/// The address that the destination of `run` is published under, where `run` is a
/// hyperlink and its destination has one.
pub open spec fn run_link(run: RunView) -> Option<Seq<char>> {
    match run.style {
        StyleView::Hyperlink(dest) => link_of(dest),
        _ => None,
    }
}

/// The markup text of `run`.
pub open spec fn run_text(run: RunView) -> Seq<char> {
    rendered(run, run_link(run))
}

/// The markup texts of `runs`, one after the other.
pub open spec fn runs_text(runs: Seq<RunView>) -> Seq<char>
    decreases runs.len(),
{
    if runs.len() == 0 {
        Seq::empty()
    } else {
        runs_text(runs.drop_last()) + run_text(runs.last())
    }
}

impl Markdown {
    /// The markup text of this run, with `link` as the address of its destination.
    pub fn render_with(&self, link: Option<&str>) -> (r: String)
        ensures
            r@ == rendered(
                self@,
                match link {
                    Some(address) => Some(address@),
                    None => None,
                },
            ),
    {
        let raw = chars_of(self.txt.as_str());
        let t = trim(&raw);
        let mut out: Vec<char> = Vec::new();
        assert(out@ + t@ == t@);
        match &self.style {
            Style::Hyperlink(_) => match link {
                Some(address) => {
                    append_str(&mut out, "[");
                    append(&mut out, &t);
                    append_str(&mut out, "](");
                    append_str(&mut out, address);
                    append_str(&mut out, ")");
                    assert(out@ == "["@ + t@ + "]("@ + address@ + ")"@);
                },
                None => {
                    append(&mut out, &t);
                },
            },
            Style::Tooltip(label) => {
                append(&mut out, &t);
                append_str(&mut out, " (");
                append_str(&mut out, label.as_str());
                append_str(&mut out, ")");
            },
            Style::Plain => {
                append(&mut out, &t);
            },
            Style::Bold => {
                append_str(&mut out, "**");
                append(&mut out, &t);
                append_str(&mut out, "**");
                assert(out@ == "**"@ + t@ + "**"@);
            },
            Style::Italic => {
                append_str(&mut out, "*");
                append(&mut out, &t);
                append_str(&mut out, "*");
                assert(out@ == "*"@ + t@ + "*"@);
            },
            Style::CodeSnippet => {
                append_str(&mut out, "`");
                append(&mut out, &t);
                append_str(&mut out, "`");
                assert(out@ == "`"@ + t@ + "`"@);
            },
            Style::CodeFull => {
                append_str(&mut out, "```\n");
                append(&mut out, &t);
                append_str(&mut out, "\n```");
                assert(out@ == "```\n"@ + t@ + "\n```"@);
            },
        }
        string_of(&out)
    }

    /// The markup text of this run.
    pub fn to_string(&self) -> (r: String)
        ensures
            r@ == run_text(self@),
    {
        match &self.style {
            Style::Hyperlink(dest) => {
                let link = convert_to_url(dest.as_str());
                match &link {
                    Some(address) => self.render_with(Some(address.as_str())),
                    None => self.render_with(None),
                }
            },
            _ => self.render_with(None),
        }
    }

    /// A run with the text `txt` in the style `style`.
    pub fn new(txt: String, style: Style) -> (r: Markdown)
        ensures
            r.txt == txt,
            r.style == style,
    {
        Markdown { txt, style }
    }

    /// Merges each run into the run before it where both have the same combinatorial style.
    pub fn simplify_markdown(input: Vec<Markdown>) -> (output: Vec<Markdown>)
        ensures
            runs_of(output@) == simplified(runs_of(input@)),
            is_simplified(runs_of(output@)),
    {
        let mut output: Vec<Markdown> = Vec::new();
        let mut i: usize = 0;
        while i < input.len()
            invariant
                i <= input.len(),
                runs_of(output@) == simplified(runs_of(input@.take(i as int))),
            decreases input.len() - i,
        {
            let md = &input[i];
            let ghost before = runs_of(output@);
            let ghost seen = runs_of(input@.take(i as int));
            let ghost now = runs_of(input@.take(i + 1));
            proof {
                assert(now.drop_last() == seen);
                assert(now.last() == md@);
            }
            let n = output.len();
            if n > 0 && output[n - 1].style.same(&md.style) && md.style.is_combinatorial() {
                let mut last = output.pop().unwrap();
                last.txt.append(md.txt.as_str());
                output.push(last);
                assert(runs_of(output@) == before.drop_last().push(
                    RunView { txt: before.last().txt + md@.txt, style: md@.style },
                ));
            } else {
                output.push(Markdown { txt: md.txt.clone(), style: md.style.duplicate() });
                assert(runs_of(output@) == before.push(md@));
            }
            i += 1;
        }
        proof {
            assert(input@.take(input.len() as int) == input@);
            lemma_simplified_is_simplified(runs_of(input@));
        }
        output
    }
}

/// The style that an element's tag name and attributes ask for; `dir` is the directory
/// of the page, to which the destination of a link is joined.
pub open spec fn style_of(node: NodeView, dir: Seq<char>) -> StyleView {
    let name = node.name;
    if name == "i"@ || name == "em"@ {
        StyleView::Italic
    } else if name == "b"@ || name == "strong"@ || name == "h4"@ {
        StyleView::Bold
    } else if name == "a"@ {
        match attr_value(node.attrs, "href"@) {
            Some(href) => StyleView::Hyperlink(joined(dir, href)),
            None => match attr_value(node.attrs, "class"@) {
                Some(class) => if class == "tooltip"@ {
                    StyleView::Tooltip(class)
                } else {
                    StyleView::Plain
                },
                None => StyleView::Plain,
            },
        }
    } else if name == "img"@ {
        match attr_value(node.attrs, "src"@) {
            Some(src) => StyleView::Hyperlink(joined(dir, src)),
            None => StyleView::Plain,
        }
    } else if name == "p"@ {
        if attr_value(node.attrs, "class"@) == Some("code"@) {
            StyleView::CodeFull
        } else {
            StyleView::Plain
        }
    } else if name == "tt"@ {
        StyleView::CodeSnippet
    } else {
        StyleView::Plain
    }
}

/// The text that stands for an image: its alternative text, as a link where its
/// destination has an address.
pub open spec fn image_text(alt: Seq<char>, link: Option<Seq<char>>) -> Seq<char> {
    match link {
        Some(address) => "["@ + alt + "]("@ + address + ")"@,
        None => alt,
    }
}

/// The runs that stand for an element without content: for a hyperlink with an `alt`
/// attribute one plain run, for anything else none.
pub open spec fn fallback(style: StyleView, attrs: Seq<AttrView>) -> Seq<RunView> {
    match style {
        StyleView::Hyperlink(dest) => match attr_value(attrs, "alt"@) {
            Some(alt) => seq![RunView { txt: image_text(alt, link_of(dest)), style: StyleView::Plain }],
            None => Seq::empty(),
        },
        _ => Seq::empty(),
    }
}

/// The runs of the subtree at node `i`.
///
/// A text node is one plain run. An element gives the runs of its children in order, a
/// text child in the element's own style, an element child flattened in turn; where that
/// leaves nothing, its fallback. Any other node gives nothing.
pub open spec fn flat(nodes: Seq<NodeView>, i: int, dir: Seq<char>) -> Seq<RunView>
    decreases nodes.len() - i, 1int, 0int,
{
    if 0 <= i < nodes.len() {
        match nodes[i].kind {
            NodeKind::Text => seq![RunView { txt: nodes[i].text, style: StyleView::Plain }],
            NodeKind::Element => {
                let style = style_of(nodes[i], dir);
                let inner = flat_children(nodes, i, 0, style, dir);
                if inner.len() == 0 {
                    fallback(style, nodes[i].attrs)
                } else {
                    inner
                }
            },
            NodeKind::Other => Seq::empty(),
        }
    } else {
        Seq::empty()
    }
}

/// The runs of the children of node `i` from its `k`-th child on, text in `style`.
pub open spec fn flat_children(
    nodes: Seq<NodeView>,
    i: int,
    k: int,
    style: StyleView,
    dir: Seq<char>,
) -> Seq<RunView>
    decreases nodes.len() - i, 0int, nodes[i].children.len() - k,
{
    if 0 <= i < nodes.len() && 0 <= k < nodes[i].children.len() {
        let c = nodes[i].children[k] as int;
        let head = if i < c < nodes.len() {
            match nodes[c].kind {
                NodeKind::Text => seq![RunView { txt: nodes[c].text, style }],
                NodeKind::Element => flat(nodes, c, dir),
                NodeKind::Other => Seq::empty(),
            }
        } else {
            Seq::empty()
        };
        head + flat_children(nodes, i, k + 1, style, dir)
    } else {
        Seq::empty()
    }
}

/// The markup text of the subtree at node `i`: its runs, simplified and rendered.
pub open spec fn markdown_of(nodes: Seq<NodeView>, i: int, dir: Seq<char>) -> Seq<char> {
    runs_text(simplified(flat(nodes, i, dir)))
}

proof fn lemma_runs_push(v: Seq<Markdown>, m: Markdown)
    ensures
        runs_of(v.push(m)) == runs_of(v).push(m@),
{
    assert(runs_of(v.push(m)) =~= runs_of(v).push(m@));
}

proof fn lemma_runs_concat(a: Seq<Markdown>, b: Seq<Markdown>)
    ensures
        runs_of(a + b) == runs_of(a) + runs_of(b),
{
    assert(runs_of(a + b) =~= runs_of(a) + runs_of(b));
}

/// The style that the element `node` asks for.
pub fn style_for(node: &DomNode, directory: &str) -> (r: Style)
    ensures
        r@ == style_of(node@, directory@),
{
    let name = node.name.as_str();
    if is_str(name, "i") || is_str(name, "em") {
        Style::Italic
    } else if is_str(name, "b") || is_str(name, "strong") || is_str(name, "h4") {
        Style::Bold
    } else if is_str(name, "a") {
        match node.attr("href") {
            Some(href) => Style::Hyperlink(join_path(directory, href.as_str())),
            None => match node.attr("class") {
                Some(class) => if is_str(class.as_str(), "tooltip") {
                    Style::Tooltip(class)
                } else {
                    Style::Plain
                },
                None => Style::Plain,
            },
        }
    } else if is_str(name, "img") {
        match node.attr("src") {
            Some(src) => Style::Hyperlink(join_path(directory, src.as_str())),
            None => Style::Plain,
        }
    } else if is_str(name, "p") {
        match node.attr("class") {
            Some(class) => if is_str(class.as_str(), "code") {
                Style::CodeFull
            } else {
                Style::Plain
            },
            None => Style::Plain,
        }
    } else if is_str(name, "tt") {
        Style::CodeSnippet
    } else {
        Style::Plain
    }
}

/// The plain run that stands for an image with the alternative text `alt`.
pub fn image_run(alt: &str, link: Option<&str>) -> (r: Markdown)
    ensures
        r@ == (RunView {
            txt: image_text(
                alt@,
                match link {
                    Some(address) => Some(address@),
                    None => None,
                },
            ),
            style: StyleView::Plain,
        }),
{
    let mut out: Vec<char> = Vec::new();
    match link {
        Some(address) => {
            append_str(&mut out, "[");
            append_str(&mut out, alt);
            append_str(&mut out, "](");
            append_str(&mut out, address);
            append_str(&mut out, ")");
            assert(out@ == "["@ + alt@ + "]("@ + address@ + ")"@);
        },
        None => {
            append_str(&mut out, alt);
            assert(out@ == alt@);
        },
    }
    Markdown { txt: string_of(&out), style: Style::Plain }
}

impl Markdown {
    /// The run that stands for the element `node` of style `style` where it has no content.
    pub fn flat_make_md(style: &Style, node: &DomNode) -> (r: Option<Markdown>)
        ensures
            match r {
                Some(md) => fallback(style@, node@.attrs) == seq![md@],
                None => fallback(style@, node@.attrs) == Seq::<RunView>::empty(),
            },
    {
        match style {
            Style::Hyperlink(dest) => match node.attr("alt") {
                Some(alt) => {
                    let link = convert_to_url(dest.as_str());
                    Some(
                        match &link {
                            Some(address) => image_run(alt.as_str(), Some(address.as_str())),
                            None => image_run(alt.as_str(), None),
                        },
                    )
                },
                None => None,
            },
            _ => None,
        }
    }

    /// The markup text of the subtree at `node`; `directory` is the directory of the page.
    pub fn convert_to_markdown(directory: &str, dom: &Dom, node: usize) -> (r: String)
        requires
            dom.wf(),
            node < dom.nodes.len(),
        ensures
            r@ == markdown_of(dom@, node as int, directory@),
    {
        let mut runs: Vec<Markdown> = Vec::new();
        assert(runs_of(runs@) =~= Seq::empty());
        Self::flatten_container(dom, node, directory, &mut runs);
        assert(Seq::<RunView>::empty() + flat(dom@, node as int, directory@) == flat(
            dom@,
            node as int,
            directory@,
        ));
        let runs = Self::simplify_markdown(runs);
        let mut out: Vec<char> = Vec::new();
        let mut i: usize = 0;
        assert(runs_of(runs@).take(0) =~= Seq::empty());
        while i < runs.len()
            invariant
                i <= runs.len(),
                out@ == runs_text(runs_of(runs@).take(i as int)),
            decreases runs.len() - i,
        {
            let piece = runs[i].to_string();
            proof {
                let upto = runs_of(runs@).take(i + 1);
                assert(upto.drop_last() == runs_of(runs@).take(i as int));
                assert(upto.last() == runs@[i as int]@);
            }
            append_str(&mut out, piece.as_str());
            i += 1;
        }
        assert(runs_of(runs@).take(runs.len() as int) == runs_of(runs@));
        string_of(&out)
    }

    /// Appends the runs of the subtree at `node` to `output`.
    pub fn flatten_container(dom: &Dom, node: usize, directory: &str, output: &mut Vec<Markdown>)
        requires
            dom.wf(),
            node < dom.nodes.len(),
        ensures
            runs_of(final(output)@) == runs_of(old(output)@) + flat(dom@, node as int, directory@),
        decreases dom.nodes.len() - node,
    {
        let n = &dom.nodes[node];
        assert(dom@[node as int] == n@);
        match n.kind {
            NodeKind::Text => {
                proof {
                    lemma_runs_push(output@, Markdown { txt: n.text, style: Style::Plain });
                }
                output.push(Markdown { txt: n.text.clone(), style: Style::Plain });
                assert(runs_of(output@) =~= runs_of(old(output)@) + flat(dom@, node as int, directory@));
            },
            NodeKind::Other => {
                assert(runs_of(output@) =~= runs_of(old(output)@) + flat(dom@, node as int, directory@));
            },
            NodeKind::Element => {
                let style = style_for(n, directory);
                let mut inner: Vec<Markdown> = Vec::new();
                let mut k: usize = 0;
                assert(runs_of(inner@) =~= Seq::empty());
                while k < n.children.len()
                    invariant
                        dom.wf(),
                        node < dom.nodes.len(),
                        dom@[node as int] == n@,
                        n == &dom.nodes[node as int],
                        k <= n.children.len(),
                        style@ == style_of(n@, directory@),
                        runs_of(inner@) + flat_children(dom@, node as int, k as int, style@, directory@)
                            == flat_children(dom@, node as int, 0, style@, directory@),
                    decreases n.children.len() - k,
                {
                    let c = n.children[k];
                    assert(child_ok(dom@, node as int, k as int));
                    let ghost before = runs_of(inner@);
                    let child = &dom.nodes[c];
                    assert(dom@[c as int] == child@);
                    match child.kind {
                        NodeKind::Text => {
                            let md = Markdown { txt: child.text.clone(), style: style.duplicate() };
                            proof {
                                lemma_runs_push(inner@, md);
                            }
                            inner.push(md);
                            assert(runs_of(inner@) == before + seq![
                                RunView { txt: child@.text, style: style@ },
                            ]);
                        },
                        NodeKind::Element => {
                            Self::flatten_container(dom, c, directory, &mut inner);
                        },
                        NodeKind::Other => {
                            assert(runs_of(inner@) == before + Seq::<RunView>::empty());
                        },
                    }
                    proof {
                        let rest = flat_children(dom@, node as int, k + 1, style@, directory@);
                        let here = flat_children(dom@, node as int, k as int, style@, directory@);
                        let head = runs_of(inner@).skip(before.len() as int);
                        assert(runs_of(inner@) == before + head);
                        assert(here == head + rest);
                        assert((before + head) + rest == before + (head + rest));
                    }
                    k += 1;
                }
                assert(flat_children(dom@, node as int, k as int, style@, directory@) == Seq::<
                    RunView,
                >::empty());
                assert(runs_of(inner@) == flat_children(dom@, node as int, 0, style@, directory@));
                if inner.len() == 0 {
                    match Self::flat_make_md(&style, n) {
                        Some(md) => {
                            proof {
                                lemma_runs_push(output@, md);
                            }
                            output.push(md);
                            assert(runs_of(output@) == runs_of(old(output)@) + seq![md@]);
                        },
                        None => {
                            assert(runs_of(output@) == runs_of(old(output)@) + Seq::<RunView>::empty());
                        },
                    }
                } else {
                    proof {
                        lemma_runs_concat(output@, inner@);
                    }
                    output.append(&mut inner);
                }
            },
        }
    }
}

} // verus!
