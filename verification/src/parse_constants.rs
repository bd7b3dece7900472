//! Constants, read from the tables of a page.

use crate::dom::{child_from, child_ok, lemma_child_from, Dom, NodeKind, NodeView, Want, WantView};
use crate::manual::{text_map, ConstantView, GmManualConstant};
use crate::markdown::{markdown_of, Markdown};
use crate::parse_file::{
    element_from, find_element, header_cell_matches, header_has, header_speaks_of, node_speaks_of, speaks_of,
};
use crate::parse_fnames::{convert_to_url, directory_of, link_of, parent_dir};
use crate::sorted::{as_map, has_key, lemma_as_map, Sorted};
use crate::text::{
    blank, chars_of, contains, has_sub, is_blank, lex_lt, slice_of, string_of, to_lowercase,
    unicode_lowered,
};
use vstd::prelude::*;

verus! {

/// What a column of a table of constants holds.
#[derive(Debug, Clone, PartialEq, Eq)]
pub enum Order {
    /// The name of the constant.
    Constant,
    /// The description of the constant.
    Description,
    /// Something else; the payload is the header of the column.
    Other(String),
}

/// An `Order` with its header as a sequence of characters.
pub enum OrderView {
    Constant,
    Description,
    Other(Seq<char>),
}

impl View for Order {
    type V = OrderView;

    open spec fn view(&self) -> OrderView {
        match self {
            Order::Constant => OrderView::Constant,
            Order::Description => OrderView::Description,
            Order::Other(h) => OrderView::Other(h@),
        }
    }
}

/// The columns of `v`, each by its view.
pub open spec fn scheme_of(v: Seq<Order>) -> Seq<OrderView> {
    Seq::new(v.len(), |i: int| v[i]@)
}

/// What a column after the first holds, by its header: the description where the header
/// in lower case speaks of one, something else under that header otherwise.
pub open spec fn column_kind(header: Seq<char>) -> OrderView {
    if has_sub(unicode_lowered(header), "description"@) {
        OrderView::Description
    } else {
        OrderView::Other(header)
    }
}

/// What the column with the header `header` holds.
pub fn classify_column(header: String) -> (r: Order)
    ensures
        r@ == column_kind(header@),
{
    let lower = to_lowercase(header.as_str());
    let l = chars_of(lower.as_str());
    let pat = chars_of("description");
    if contains(&l, &pat) {
        Order::Description
    } else {
        Order::Other(header)
    }
}

/// The columns that the header cells among the children of node `row` announce, from its
/// `k`-th child on; `found` says whether the column of the names was announced before.
///
/// The header cells are the `th` elements. The first of them that speaks of a constant
/// announces the names; every other one announces a column by its markup text.
pub open spec fn scheme_from(nodes: Seq<NodeView>, row: int, k: int, dir: Seq<char>, found: bool) -> Seq<
    OrderView,
>
    decreases nodes[row].children.len() - k,
{
    if k < 0 || k >= nodes[row].children.len() {
        Seq::empty()
    } else {
        let c = nodes[row].children[k] as int;
        if nodes[c].kind == NodeKind::Element && nodes[c].name == "th"@ {
            if !found && speaks_of(nodes, c, dir, "constant"@) {
                seq![OrderView::Constant] + scheme_from(nodes, row, k + 1, dir, true)
            } else {
                seq![column_kind(markdown_of(nodes, c, dir))] + scheme_from(nodes, row, k + 1, dir, found)
            }
        } else {
            scheme_from(nodes, row, k + 1, dir, found)
        }
    }
}

/// The columns of the table whose header row is node `row`, where it is a table of
/// constants: where one of its header cells speaks of a constant.
pub open spec fn table_scheme(nodes: Seq<NodeView>, row: int, dir: Seq<char>) -> Option<Seq<OrderView>> {
    if header_speaks_of(nodes, row, dir, "constant"@) {
        Some(scheme_from(nodes, row, 0, dir, false))
    } else {
        None
    }
}

/// The columns of the table whose header row is `row`.
pub fn read_scheme(dom: &Dom, row: usize, directory: &str) -> (r: Option<Vec<Order>>)
    requires
        dom.wf(),
        row < dom.nodes.len(),
    ensures
        match r {
            Some(order) => table_scheme(dom@, row as int, directory@) == Some(scheme_of(order@)),
            None => table_scheme(dom@, row as int, directory@) is None,
        },
{
    if !header_has(dom, row, directory, "constant") {
        return None;
    }
    let node = &dom.nodes[row];
    assert(dom@[row as int] == node@);
    let mut order: Vec<Order> = Vec::new();
    let mut found = false;
    let mut k: usize = 0;
    assert(scheme_of(order@) =~= Seq::empty());
    while k < node.children.len()
        invariant
            dom.wf(),
            row < dom.nodes.len(),
            dom@[row as int] == node@,
            scheme_from(dom@, row as int, 0, directory@, false) == scheme_of(order@) + scheme_from(
                dom@,
                row as int,
                k as int,
                directory@,
                found,
            ),
        decreases node.children.len() - k,
    {
        let c = node.children[k];
        assert(child_ok(dom@, row as int, k as int));
        let cell = &dom.nodes[c];
        assert(dom@[c as int] == cell@);
        if cell.is_element_named("th") {
            let column = if !found && node_speaks_of(dom, c, directory, "constant") {
                found = true;
                Order::Constant
            } else {
                classify_column(Markdown::convert_to_markdown(directory, dom, c))
            };
            proof {
                let before = scheme_of(order@);
                let rest = scheme_from(dom@, row as int, k + 1, directory@, found);
                assert(scheme_of(order@.push(column)) =~= before + seq![column@]);
                assert((before + seq![column@]) + rest == before + (seq![column@] + rest));
            }
            order.push(column);
        }
        k += 1;
    }
    assert(scheme_of(order@) + Seq::<OrderView>::empty() == scheme_of(order@));
    Some(order)
}

/// A constant as its row gives it, before it is cleaned up.
pub struct Draft {
    pub name: Seq<char>,
    pub description: Seq<char>,
    pub secondary: Option<Map<Seq<char>, Seq<char>>>,
}

/// The draft of a row before any cell is read.
pub open spec fn draft_start() -> Draft {
    Draft { name: Seq::empty(), description: Seq::empty(), secondary: None }
}

/// The draft `d` after a cell with the text `data` is read for the column `column`.
pub open spec fn put_cell(d: Draft, column: OrderView, data: Seq<char>) -> Draft {
    match column {
        OrderView::Constant => Draft { name: data, description: d.description, secondary: d.secondary },
        OrderView::Description => Draft { name: d.name, description: data, secondary: d.secondary },
        OrderView::Other(header) => Draft {
            name: d.name,
            description: d.description,
            secondary: Some(
                match d.secondary {
                    Some(m) => m.insert(header, data),
                    None => Map::empty().insert(header, data),
                },
            ),
        },
    }
}

/// The draft `d` after the cells among the children of node `row` are read, from its
/// `k`-th child on; `caret` is the number of cells read before.
///
/// The cells are the element children of the row. Each is read for the column at its
/// place in `scheme`; a cell beyond the last column is passed over.
pub open spec fn row_draft(
    nodes: Seq<NodeView>,
    row: int,
    k: int,
    dir: Seq<char>,
    scheme: Seq<OrderView>,
    caret: int,
    d: Draft,
) -> Draft
    decreases nodes[row].children.len() - k,
{
    if k < 0 || k >= nodes[row].children.len() {
        d
    } else {
        let c = nodes[row].children[k] as int;
        if nodes[c].kind == NodeKind::Element {
            row_draft(
                nodes,
                row,
                k + 1,
                dir,
                scheme,
                caret + 1,
                if 0 <= caret < scheme.len() {
                    put_cell(d, scheme[caret], markdown_of(nodes, c, dir))
                } else {
                    d
                },
            )
        } else {
            row_draft(nodes, row, k + 1, dir, scheme, caret, d)
        }
    }
}

/// `name` without one pair of backticks around it, and then without one pair of double
/// asterisks around that.
pub open spec fn strip_marks(name: Seq<char>) -> Seq<char> {
    let a = if name.len() >= 2 && name[0] == '`' && name.last() == '`' {
        name.subrange(1, name.len() - 1)
    } else {
        name
    };
    if a.len() >= 4 && a[0] == '*' && a[1] == '*' && a[a.len() - 2] == '*' && a[a.len() - 1] == '*' {
        a.subrange(2, a.len() - 2)
    } else {
        a
    }
}

/// The entries of `m` of which neither the key nor the value is blank.
pub open spec fn filled(m: Map<Seq<char>, Seq<char>>) -> Map<Seq<char>, Seq<char>> {
    Map::new(|k: Seq<char>| m.contains_key(k) && !is_blank(k) && !is_blank(m[k]), |k: Seq<char>| m[k])
}

/// Whether `k` is the key of `m` that comes before all its other keys.
pub open spec fn is_least(m: Map<Seq<char>, Seq<char>>, k: Seq<char>) -> bool {
    m.contains_key(k) && forall|other: Seq<char>| m.contains_key(other) ==> other == k || lex_lt(k, other)
}

/// The key of `m` that comes before all its other keys.
pub open spec fn least_key(m: Map<Seq<char>, Seq<char>>) -> Seq<char> {
    choose|k: Seq<char>| is_least(m, k)
}

/// Whether `m` holds nothing.
pub open spec fn is_empty_map(m: Map<Seq<char>, Seq<char>>) -> bool {
    forall|k: Seq<char>| !m.contains_key(k)
}

/// The constant that the draft `d` of a row stands for; `link` is the address of the page.
///
/// The name loses its marks. A name that begins with a backslash gives no constant.
/// Secondary columns with a blank header or a blank text are dropped. Where the
/// description is blank, the secondary column whose header comes first takes its place
/// and stops being a secondary column. Where no secondary column is left, there are none.
pub open spec fn cleaned(d: Draft, link: Seq<char>) -> Option<ConstantView> {
    let name = strip_marks(d.name);
    if name.len() > 0 && name[0] == '\\' {
        None
    } else {
        match d.secondary {
            None => Some(ConstantView { name, description: d.description, link, secondary_descriptors: None }),
            Some(m) => {
                let kept = filled(m);
                let promote = is_blank(d.description) && !is_empty_map(kept);
                let rest = if promote {
                    kept.remove(least_key(kept))
                } else {
                    kept
                };
                Some(
                    ConstantView {
                        name,
                        description: if promote {
                            kept[least_key(kept)]
                        } else {
                            d.description
                        },
                        link,
                        secondary_descriptors: if is_empty_map(rest) {
                            None
                        } else {
                            Some(rest)
                        },
                    },
                )
            },
        }
    }
}

/// There is one least key at most.
pub proof fn lemma_least_unique(m: Map<Seq<char>, Seq<char>>, k: Seq<char>)
    requires
        is_least(m, k),
    ensures
        least_key(m) == k,
{
    let other = least_key(m);
    assert(is_least(m, other));
    crate::text::lemma_lex_total(k, other);
}

/// `name` without its marks.
pub fn clean_name(name: &str) -> (r: String)
    ensures
        r@ == strip_marks(name@),
{
    let n = chars_of(name);
    let a = if n.len() >= 2 && n[0] == '`' && n[n.len() - 1] == '`' {
        slice_of(&n, 1, n.len() - 1)
    } else {
        n
    };
    if a.len() >= 4 && a[0] == '*' && a[1] == '*' && a[a.len() - 2] == '*' && a[a.len() - 1] == '*' {
        let inner = slice_of(&a, 2, a.len() - 2);
        string_of(&inner)
    } else {
        string_of(&a)
    }
}

/// The entries of `s` of which neither the key nor the value is blank.
pub fn keep_filled(s: &Sorted<String>) -> (r: Sorted<String>)
    requires
        s.wf(),
    ensures
        r.wf(),
        text_map(r.map()) == filled(text_map(s.map())),
{
    let mut out: Sorted<String> = Sorted::new();
    let ghost mut from: Seq<int> = Seq::empty();
    let mut i: usize = 0;
    while i < s.entries.len()
        invariant
            s.wf(),
            i <= s.entries@.len(),
            from.len() == out.entries@.len(),
            forall|a: int| 0 <= a < from.len() ==> 0 <= #[trigger] from[a] < i,
            forall|a: int, b: int| 0 <= a < b < from.len() ==> #[trigger] from[a] < #[trigger] from[b],
            forall|a: int| 0 <= a < from.len() ==> #[trigger] out.entries@[a] == s.entries@[from[a]],
            forall|a: int|
                0 <= a < from.len() ==> !is_blank(s.entries@[#[trigger] from[a]].0@) && !is_blank(
                    s.entries@[from[a]].1@,
                ),
            forall|j: int|
                0 <= j < i && !is_blank(#[trigger] s.entries@[j].0@) && !is_blank(s.entries@[j].1@)
                    ==> exists|a: int| 0 <= a < from.len() && #[trigger] from[a] == j,
        decreases s.entries.len() - i,
    {
        let key = chars_of(s.entries[i].0.as_str());
        let value = chars_of(s.entries[i].1.as_str());
        if !blank(&key) && !blank(&value) {
            let ghost before = from;
            out.entries.push((s.entries[i].0.clone(), s.entries[i].1.clone()));
            proof {
                from = from.push(i as int);
                assert forall|j: int|
                    0 <= j < i + 1 && !is_blank(#[trigger] s.entries@[j].0@) && !is_blank(
                        s.entries@[j].1@,
                    ) implies exists|a: int| 0 <= a < from.len() && #[trigger] from[a] == j by {
                    if j < i {
                        let a = choose|a: int| 0 <= a < before.len() && #[trigger] before[a] == j;
                        assert(from[a] == j);
                    } else {
                        assert(from[from.len() - 1] == j);
                    }
                }
            }
        }
        i += 1;
    }
    proof {
        let kept = out.entries@;
        let all = s.entries@;
        assert forall|a: int, b: int| 0 <= a < b < kept.len() implies lex_lt(
            #[trigger] kept[a].0@,
            #[trigger] kept[b].0@,
        ) by {
            assert(from[a] < from[b]);
            assert(lex_lt(all[from[a]].0@, all[from[b]].0@));
        }
        lemma_as_map(kept);
        lemma_as_map(all);
        let left = text_map(as_map(kept));
        let right = filled(text_map(as_map(all)));
        assert forall|k: Seq<char>| left.contains_key(k) <==> right.contains_key(k) by {
            if has_key(kept, k) {
                let a = choose|a: int| 0 <= a < kept.len() && #[trigger] kept[a].0@ == k;
                assert(all[from[a]].0@ == k);
                assert(has_key(all, k));
                assert(as_map(all)[all[from[a]].0@] == all[from[a]].1);
            }
            if right.contains_key(k) {
                assert(has_key(all, k));
                let j = choose|j: int| 0 <= j < all.len() && #[trigger] all[j].0@ == k;
                assert(as_map(all)[all[j].0@] == all[j].1);
                let a = choose|a: int| 0 <= a < from.len() && #[trigger] from[a] == j;
                assert(kept[a].0@ == k);
                assert(has_key(kept, k));
            }
        }
        assert forall|k: Seq<char>| left.contains_key(k) implies left[k] == right[k] by {
            assert(has_key(kept, k));
            let a = choose|a: int| 0 <= a < kept.len() && #[trigger] kept[a].0@ == k;
            assert(as_map(kept)[kept[a].0@] == kept[a].1);
            assert(as_map(all)[all[from[a]].0@] == all[from[a]].1);
        }
        assert(left =~= right);
    }
    out
}

/// The draft that a constant under construction stands for.
pub open spec fn draft_of(c: GmManualConstant) -> Draft {
    Draft {
        name: c.name@,
        description: c.description@,
        secondary: match c.secondary_descriptors {
            Some(s) => Some(text_map(s.map())),
            None => None,
        },
    }
}

proof fn lemma_text_map_insert(m: Map<Seq<char>, String>, k: Seq<char>, v: String)
    ensures
        text_map(m.insert(k, v)) == text_map(m).insert(k, v@),
{
    assert(text_map(m.insert(k, v)) =~= text_map(m).insert(k, v@));
}

proof fn lemma_text_map_remove(m: Map<Seq<char>, String>, k: Seq<char>)
    ensures
        text_map(m.remove(k)) == text_map(m).remove(k),
{
    assert(text_map(m.remove(k)) =~= text_map(m).remove(k));
}

/// Reads a cell with the text `data` for the column `column` into `c`.
pub fn put(c: &mut GmManualConstant, column: &Order, data: String)
    requires
        old(c).wf(),
    ensures
        final(c).wf(),
        final(c).link == old(c).link,
        draft_of(*final(c)) == put_cell(draft_of(*old(c)), column@, data@),
{
    match column {
        Order::Constant => {
            c.name = data;
        },
        Order::Description => {
            c.description = data;
        },
        Order::Other(header) => {
            let mut table = match c.secondary_descriptors.take() {
                Some(t) => t,
                None => Sorted::new(),
            };
            let ghost before = table.map();
            table.insert(header.clone(), data);
            proof {
                lemma_text_map_insert(before, header@, data);
                assert(text_map(Map::<Seq<char>, String>::empty()) =~= Map::<Seq<char>, Seq<char>>::empty());
            }
            c.secondary_descriptors = Some(table);
        },
    }
}

/// Reads the cells of the table row at `row` into a constant of the page at `link`.
pub fn read_row(dom: &Dom, row: usize, directory: &str, order: &Vec<Order>, link: &str) -> (c:
    GmManualConstant)
    requires
        dom.wf(),
        row < dom.nodes.len(),
    ensures
        c.wf(),
        c.link@ == link@,
        draft_of(c) == row_draft(dom@, row as int, 0, directory@, scheme_of(order@), 0, draft_start()),
{
    let node = &dom.nodes[row];
    assert(dom@[row as int] == node@);
    let mut c = GmManualConstant {
        name: String::new(),
        description: String::new(),
        link: string_of(&chars_of(link)),
        secondary_descriptors: None,
    };
    let mut caret: usize = 0;
    let mut k: usize = 0;
    assert(draft_of(c) == draft_start());
    while k < node.children.len()
        invariant
            dom.wf(),
            row < dom.nodes.len(),
            dom@[row as int] == node@,
            c.wf(),
            c.link@ == link@,
            caret <= k,
            row_draft(dom@, row as int, 0, directory@, scheme_of(order@), 0, draft_start()) == row_draft(
                dom@,
                row as int,
                k as int,
                directory@,
                scheme_of(order@),
                caret as int,
                draft_of(c),
            ),
        decreases node.children.len() - k,
    {
        let cell = node.children[k];
        assert(child_ok(dom@, row as int, k as int));
        assert(dom@[cell as int] == dom.nodes[cell as int]@);
        match dom.nodes[cell].kind {
            NodeKind::Element => {
                if caret < order.len() {
                    let data = Markdown::convert_to_markdown(directory, dom, cell);
                    assert(scheme_of(order@)[caret as int] == order@[caret as int]@);
                    put(&mut c, &order[caret], data);
                }
                caret += 1;
            },
            _ => {},
        }
        k += 1;
    }
    c
}

/// The constant that the row read into `c` stands for.
pub fn finish(c: GmManualConstant) -> (r: Option<GmManualConstant>)
    requires
        c.wf(),
    ensures
        match r {
            Some(done) => done.wf() && cleaned(draft_of(c), c.link@) == Some(done@),
            None => cleaned(draft_of(c), c.link@) is None,
        },
{
    let name = clean_name(c.name.as_str());
    let n = chars_of(name.as_str());
    if n.len() > 0 && n[0] == '\\' {
        return None;
    }
    let GmManualConstant { name: _, description, link, secondary_descriptors } = c;
    match secondary_descriptors {
        None => Some(GmManualConstant { name, description, link, secondary_descriptors: None }),
        Some(table) => {
            let mut kept = keep_filled(&table);
            let ghost kept_map = text_map(kept.map());
            let d = chars_of(description.as_str());
            proof {
                lemma_as_map(kept.entries@);
                if kept.entries@.len() > 0 {
                    assert(has_key(kept.entries@, kept.entries@[0].0@));
                    assert(kept_map.contains_key(kept.entries@[0].0@));
                } else {
                    assert forall|k: Seq<char>| !kept_map.contains_key(k) by {
                        if has_key(kept.entries@, k) {
                            let i = choose|i: int|
                                0 <= i < kept.entries@.len() && #[trigger] kept.entries@[i].0@ == k;
                        }
                    }
                }
            }
            assert((kept.entries@.len() == 0) == is_empty_map(kept_map));
            let mut description = description;
            if blank(&d) && !kept.is_empty() {
                let ghost before = kept.map();
                match kept.remove_first() {
                    Some(entry) => {
                        proof {
                            assert(is_least(kept_map, entry.0@));
                            lemma_least_unique(kept_map, entry.0@);
                            lemma_text_map_remove(before, entry.0@);
                        }
                        description = entry.1;
                    },
                    None => {},
                }
            }
            proof {
                lemma_as_map(kept.entries@);
                let rest = text_map(kept.map());
                if kept.entries@.len() > 0 {
                    assert(has_key(kept.entries@, kept.entries@[0].0@));
                    assert(rest.contains_key(kept.entries@[0].0@));
                } else {
                    assert forall|k: Seq<char>| !rest.contains_key(k) by {
                        if has_key(kept.entries@, k) {
                            let i = choose|i: int|
                                0 <= i < kept.entries@.len() && #[trigger] kept.entries@[i].0@ == k;
                        }
                    }
                }
            }
            if kept.is_empty() {
                Some(GmManualConstant { name, description, link, secondary_descriptors: None })
            } else {
                Some(GmManualConstant { name, description, link, secondary_descriptors: Some(kept) })
            }
        },
    }
}

/// The constants of `v`, each by its view.
pub open spec fn constants_of(v: Seq<GmManualConstant>) -> Seq<ConstantView> {
    Seq::new(v.len(), |i: int| v[i]@)
}

/// The constants that the rows among the children of node `body` give, from its `k`-th
/// child on, in a table with the columns `scheme`.
pub open spec fn rows_constants(
    nodes: Seq<NodeView>,
    body: int,
    k: int,
    dir: Seq<char>,
    scheme: Seq<OrderView>,
    link: Seq<char>,
) -> Seq<ConstantView>
    decreases nodes[body].children.len() - k,
{
    if k < 0 || k >= nodes[body].children.len() {
        Seq::empty()
    } else {
        let c = nodes[body].children[k] as int;
        let rest = rows_constants(nodes, body, k + 1, dir, scheme, link);
        if nodes[c].kind == NodeKind::Element {
            match cleaned(row_draft(nodes, c, 0, dir, scheme, 0, draft_start()), link) {
                Some(constant) => seq![constant] + rest,
                None => rest,
            }
        } else {
            rest
        }
    }
}

/// The constants that the table at node `table` gives.
///
/// The rows are the element children of the table's first element child, and the first
/// of them is the header. A table whose header does not announce constants gives none.
pub open spec fn table_constants(nodes: Seq<NodeView>, table: int, dir: Seq<char>, link: Seq<char>) -> Seq<
    ConstantView,
> {
    match child_from(nodes, table, 0, WantView::Element) {
        Some(body) => match child_from(nodes, body as int, 0, WantView::Element) {
            Some(header) => match table_scheme(nodes, header as int, dir) {
                Some(scheme) => rows_constants(
                    nodes,
                    body as int,
                    nodes[header as int].position + 1,
                    dir,
                    scheme,
                    link,
                ),
                None => Seq::empty(),
            },
            None => Seq::empty(),
        },
        None => Seq::empty(),
    }
}

/// The constants that the tables at or after index `from` give, in document order.
pub open spec fn page_constants(nodes: Seq<NodeView>, from: int, dir: Seq<char>, link: Seq<char>) -> Seq<
    ConstantView,
>
    decreases nodes.len() - from,
{
    match element_from(nodes, from, "table"@) {
        Some(t) => if from <= t < nodes.len() {
            table_constants(nodes, t as int, dir, link) + page_constants(nodes, t + 1, dir, link)
        } else {
            Seq::empty()
        },
        None => Seq::empty(),
    }
}

proof fn lemma_constants_push(v: Seq<GmManualConstant>, c: GmManualConstant)
    ensures
        constants_of(v.push(c)) == constants_of(v) + seq![c@],
{
    assert(constants_of(v.push(c)) =~= constants_of(v) + seq![c@]);
}

/// Appends the constants that the table at `table` gives to `out`.
pub fn read_table(dom: &Dom, table: usize, directory: &str, link: &str, out: &mut Vec<GmManualConstant>)
    requires
        dom.wf(),
        table < dom.nodes.len(),
        forall|i: int| 0 <= i < old(out)@.len() ==> (#[trigger] old(out)@[i]).wf(),
    ensures
        constants_of(final(out)@) == constants_of(old(out)@) + table_constants(
            dom@,
            table as int,
            directory@,
            link@,
        ),
        forall|i: int| 0 <= i < final(out)@.len() ==> (#[trigger] final(out)@[i]).wf(),
{
    let ghost start = constants_of(out@);
    assert(start + Seq::<ConstantView>::empty() == start);
    let body = match dom.find_child(table, 0, Want::Element) {
        Some(b) => b,
        None => {
            return ;
        },
    };
    let header = match dom.find_child(body, 0, Want::Element) {
        Some(h) => h,
        None => {
            return ;
        },
    };
    let order = match read_scheme(dom, header, directory) {
        Some(o) => o,
        None => {
            return ;
        },
    };
    proof {
        lemma_child_from(dom@, body as int, 0, WantView::Element);
    }
    let node = &dom.nodes[body];
    assert(dom@[body as int] == node@);
    assert(dom@[header as int] == dom.nodes[header as int]@);
    let count = node.children.len();
    let mut k: usize = dom.nodes[header].position + 1;
    let ghost first = k as int;
    let ghost scheme = scheme_of(order@);
    while k < count
        invariant
            dom.wf(),
            body < dom.nodes.len(),
            dom@[body as int] == node@,
            count == node.children.len(),
            scheme == scheme_of(order@),
            forall|i: int| 0 <= i < out@.len() ==> (#[trigger] out@[i]).wf(),
            start + rows_constants(dom@, body as int, first, directory@, scheme, link@) == constants_of(out@)
                + rows_constants(dom@, body as int, k as int, directory@, scheme, link@),
        decreases count - k,
    {
        let row = node.children[k];
        assert(child_ok(dom@, body as int, k as int));
        assert(dom@[row as int] == dom.nodes[row as int]@);
        match dom.nodes[row].kind {
            NodeKind::Element => {
                let draft = read_row(dom, row, directory, &order, link);
                match finish(draft) {
                    Some(constant) => {
                        proof {
                            let before = constants_of(out@);
                            let rest = rows_constants(dom@, body as int, k + 1, directory@, scheme, link@);
                            lemma_constants_push(out@, constant);
                            assert((before + seq![constant@]) + rest == before + (seq![constant@] + rest));
                        }
                        out.push(constant);
                    },
                    None => {},
                }
            },
            _ => {},
        }
        k += 1;
    }
    assert(rows_constants(dom@, body as int, k as int, directory@, scheme, link@) == Seq::<
        ConstantView,
    >::empty());
    assert(constants_of(out@) + Seq::<ConstantView>::empty() == constants_of(out@));
}

/// The constants that the tables of a page give, in document order; `link` is the address
/// of the page.
pub fn parse_constant(dom: &Dom, directory: &str, link: &str) -> (r: Vec<GmManualConstant>)
    requires
        dom.wf(),
    ensures
        constants_of(r@) == page_constants(dom@, 0, directory@, link@),
        forall|i: int| 0 <= i < r@.len() ==> (#[trigger] r@[i]).wf(),
{
    let mut out: Vec<GmManualConstant> = Vec::new();
    let mut from: usize = 0;
    assert(constants_of(out@) =~= Seq::empty());
    assert(Seq::<ConstantView>::empty() + page_constants(dom@, 0, directory@, link@) == page_constants(
        dom@,
        0,
        directory@,
        link@,
    ));
    loop
        invariant
            dom.wf(),
            from <= dom.nodes.len(),
            forall|i: int| 0 <= i < out@.len() ==> (#[trigger] out@[i]).wf(),
            page_constants(dom@, 0, directory@, link@) == constants_of(out@) + page_constants(
                dom@,
                from as int,
                directory@,
                link@,
            ),
        decreases dom.nodes.len() - from,
    {
        match find_element(dom, from, "table") {
            Some(t) => {
                proof {
                    let before = constants_of(out@);
                    let here = table_constants(dom@, t as int, directory@, link@);
                    let rest = page_constants(dom@, t + 1, directory@, link@);
                    assert((before + here) + rest == before + (here + rest));
                }
                read_table(dom, t, directory, link, &mut out);
                from = t + 1;
            },
            None => {
                assert(constants_of(out@) + Seq::<ConstantView>::empty() == constants_of(out@));
                return out;
            },
        }
    }
}

/// The views of the constants of a table, by name.
pub open spec fn constant_views(m: Map<Seq<char>, GmManualConstant>) -> Map<Seq<char>, ConstantView> {
    Map::new(|k: Seq<char>| m.contains_key(k), |k: Seq<char>| m[k]@)
}

/// `m` after each of `constants` is recorded under its name, from the first to the last.
pub open spec fn merged(m: Map<Seq<char>, ConstantView>, constants: Seq<ConstantView>) -> Map<
    Seq<char>,
    ConstantView,
>
    decreases constants.len(),
{
    if constants.len() == 0 {
        m
    } else {
        merged(m.insert(constants[0].name, constants[0]), constants.drop_first())
    }
}

/// The constants of the page with the text `page` at `path`, a path relative to the root
/// of the manual. There are none where the text is not that of one tree or the path
/// gives no address.
pub open spec fn file_constants(page: Seq<char>, path: Seq<char>) -> Seq<ConstantView> {
    match (crate::dom::built(crate::dom::html_events(page)), link_of(path)) {
        (Some(nodes), Some(link)) => page_constants(nodes, 0, directory_of(path), link),
        _ => Seq::empty(),
    }
}

/// Records the constants of the page with the text `page` at `path` in `constants`, each
/// under its name and in place of a constant recorded under that name before.
pub fn parse_constants(page: &str, path: &str, constants: &mut Sorted<GmManualConstant>)
    requires
        old(constants).wf(),
    ensures
        final(constants).wf(),
        constant_views(final(constants).map()) == merged(
            constant_views(old(constants).map()),
            file_constants(page@, path@),
        ),
{
    let dom = match crate::dom::parse_page(page) {
        Some(d) => d,
        None => {
            return ;
        },
    };
    let link = match convert_to_url(path) {
        Some(l) => l,
        None => {
            return ;
        },
    };
    let directory = parent_dir(path);
    let found = parse_constant(&dom, directory.as_str(), link.as_str());
    record_constants(constants, found);
}

/// Records each of `found` in `constants`, from the first to the last.
pub fn record_constants(constants: &mut Sorted<GmManualConstant>, found: Vec<GmManualConstant>)
    requires
        old(constants).wf(),
    ensures
        final(constants).wf(),
        constant_views(final(constants).map()) == merged(
            constant_views(old(constants).map()),
            constants_of(found@),
        ),
{
    let mut found = found;
    let ghost all = constants_of(found@);
    let ghost start = constant_views(constants.map());
    let mut i: usize = 0;
    let n = found.len();
    assert(all.skip(0) == all);
    while found.len() > 0
        invariant
            constants.wf(),
            i + found.len() == n,
            n == all.len(),
            constants_of(found@) == all.skip(i as int),
            merged(start, all) == merged(constant_views(constants.map()), all.skip(i as int)),
        decreases found.len(),
    {
        let ghost before = constants.map();
        let ghost rest = constants_of(found@);
        let c = found.remove(0);
        let name = c.name.clone();
        proof {
            assert(rest[0] == c@);
            assert(constants_of(found@) =~= rest.drop_first());
            assert(rest.drop_first() == all.skip(i + 1));
            assert(constant_views(before.insert(name@, c)) =~= constant_views(before).insert(c@.name, c@));
        }
        constants.insert(name, c);
        i += 1;
    }
}

} // verus!
