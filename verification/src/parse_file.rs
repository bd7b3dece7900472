//! Reading one page: its signature, its parameter table and its sections.

use crate::dom::{
    built, dom_wf, html_events, parse_page, child_from, child_ok, lemma_child_from, parent_ok,
    sibling_after, Dom, NodeKind, NodeView, Want, WantView,
};
use crate::manual::{
    parameters_of, FunctionView, GmManualFunction, GmManualFunctionParameter, GmManualVariable,
    ParameterView, VariableView,
};
use crate::markdown::{markdown_of, Markdown};
use crate::parse_fnames::{convert_to_url, directory_of, link_of, parent_dir};
use crate::text::{
    append, ascii_lowercase, ascii_lowered, blank, chars_of, contains, ends_with, find_char,
    first_pos, has_sub, is_blank, lemma_first_pos_bounds, occurs_at, opt_view, pieces_of, slice_of,
    split, split_on, starts_with, str_contains, string_of, trim, trimmed,
};
use vstd::prelude::*;
use vstd::prelude::*;

verus! {

/// Whether a parameter position must be given.
#[derive(Debug, PartialEq, Eq, Structural, Copy, Clone)]
pub enum Arg {
    Required,
    Optional,
}

/// What has been read of a parameter list so far.
pub struct SigState {
    /// The class of each position read.
    pub positions: Seq<Arg>,
    /// Whether an opening bracket is still unclosed.
    pub optional: bool,
    /// Whether two consecutive dots were seen in a position.
    pub variadic: bool,
}

/// The state before any token is read.
pub open spec fn sig_start() -> SigState {
    SigState { positions: Seq::empty(), optional: false, variadic: false }
}

/// The state after the token `raw` is read in state `st`.
///
/// A token that is blank changes nothing. Any other token adds one position: optional
/// where a bracket is open or the token begins with one. A `[` in the token leaves the
/// bracket open for the tokens that follow, a `]` closes it.
pub open spec fn sig_step(st: SigState, raw: Seq<char>) -> SigState {
    let t = trimmed(raw);
    if t.len() == 0 {
        st
    } else {
        let open_here = st.optional || t[0] == '[';
        SigState {
            positions: st.positions.push(if open_here { Arg::Optional } else { Arg::Required }),
            optional: !t.contains(']') && (st.optional || t.contains('[')),
            variadic: st.variadic || has_sub(t, seq!['.', '.']),
        }
    }
}

/// The state after all of `tokens` are read, from the first to the last, starting in `st`.
pub open spec fn sig_fold(tokens: Seq<Seq<char>>, st: SigState) -> SigState
    decreases tokens.len(),
{
    if tokens.len() == 0 {
        st
    } else {
        sig_fold(tokens.drop_first(), sig_step(st, tokens[0]))
    }
}

/// Whether `sig` holds a `(` with a `)` somewhere after it, counting the first of each.
pub open spec fn callable(sig: Seq<char>) -> bool {
    first_pos(sig, '(') < first_pos(sig, ')') < sig.len()
}

/// The text strictly between the first `(` and the first `)` of a callable `sig`.
pub open spec fn parameter_text(sig: Seq<char>) -> Seq<char> {
    sig.subrange(first_pos(sig, '(') + 1, first_pos(sig, ')'))
}

/// The outcome of reading the parameter list of a callable `sig`.
pub open spec fn signature_state(sig: Seq<char>) -> SigState {
    sig_fold(split_on(parameter_text(sig), ','), sig_start())
}

/// The positions, the variadic mark and the callable mark of `sig`.
pub open spec fn signature_of(sig: Seq<char>) -> (Seq<Arg>, bool, bool) {
    if callable(sig) {
        (signature_state(sig).positions, signature_state(sig).variadic, true)
    } else {
        (Seq::empty(), false, false)
    }
}

/// Reads one token of a parameter list.
fn read_token(raw: &Vec<char>, positions: &mut Vec<Arg>, optional: &mut bool, variadic: &mut bool)
    ensures
        (SigState { positions: final(positions)@, optional: *final(optional), variadic: *final(variadic) })
            == sig_step(
            SigState { positions: old(positions)@, optional: *old(optional), variadic: *old(variadic) },
            raw@,
        ),
{
    let t = trim(raw);
    if t.len() > 0 {
        if t[0] == '[' {
            *optional = true;
        }
        positions.push(if *optional { Arg::Optional } else { Arg::Required });
        if find_char(&t, '[').is_some() {
            *optional = true;
        }
        if find_char(&t, ']').is_some() {
            *optional = false;
        }
        let mut dots: Vec<char> = Vec::new();
        dots.push('.');
        dots.push('.');
        assert(dots@ == seq!['.', '.']);
        if contains(&t, &dots) {
            *variadic = true;
        }
        assert(t@[0] == '[' ==> t@.contains('['));
    }
}

/// Classifies the parameter positions of a signature.
///
/// Returns the class of each position, whether the signature is variadic, and whether it
/// is callable at all.
pub fn parse_signature(sig: &str) -> (r: (Vec<Arg>, bool, bool))
    ensures
        (r.0@, r.1, r.2) == signature_of(sig@),
{
    let s = chars_of(sig);
    let open = find_char(&s, '(');
    let close = find_char(&s, ')');
    let mut positions: Vec<Arg> = Vec::new();
    let mut variadic = false;
    match (open, close) {
        (Some(a), Some(b)) => {
            if a < b {
                let inner = slice_of(&s, a + 1, b);
                let tokens = split(&inner, ',');
                let mut optional = false;
                let mut i: usize = 0;
                proof {
                    assert(pieces_of(tokens@).skip(0) == pieces_of(tokens@));
                    assert(positions@ == Seq::<Arg>::empty());
                }
                while i < tokens.len()
                    invariant
                        i <= tokens.len(),
                        sig_fold(pieces_of(tokens@), sig_start()) == sig_fold(
                            pieces_of(tokens@).skip(i as int),
                            SigState { positions: positions@, optional, variadic },
                        ),
                    decreases tokens.len() - i,
                {
                    proof {
                        let rest = pieces_of(tokens@).skip(i as int);
                        assert(rest[0] == tokens@[i as int]@);
                        assert(rest.drop_first() == pieces_of(tokens@).skip(i + 1));
                    }
                    read_token(&tokens[i], &mut positions, &mut optional, &mut variadic);
                    i += 1;
                }
                assert(pieces_of(tokens@).skip(tokens.len() as int).len() == 0);
                (positions, variadic, true)
            } else {
                (positions, false, false)
            }
        },
        _ => (positions, false, false),
    }
}

/// A signature without parentheses is not callable and has no positions.
pub proof fn lemma_no_parentheses(sig: Seq<char>)
    requires
        !sig.contains('(') || !sig.contains(')'),
    ensures
        signature_of(sig) == (Seq::<Arg>::empty(), false, false),
{
    lemma_first_pos_bounds(sig, '(');
    lemma_first_pos_bounds(sig, ')');
}

/// Whether one of `tokens` holds two consecutive dots.
pub open spec fn some_token_dotted(tokens: Seq<Seq<char>>) -> bool {
    exists|k: int| 0 <= k < tokens.len() && has_sub(trimmed(#[trigger] tokens[k]), seq!['.', '.'])
}

/// Reading tokens marks the state variadic exactly where it was so before or one of the
/// tokens holds two consecutive dots.
pub proof fn lemma_fold_variadic(tokens: Seq<Seq<char>>, st: SigState)
    ensures
        sig_fold(tokens, st).variadic == (st.variadic || some_token_dotted(tokens)),
    decreases tokens.len(),
{
    let dots = seq!['.', '.'];
    if tokens.len() > 0 {
        let rest = tokens.drop_first();
        let next = sig_step(st, tokens[0]);
        lemma_fold_variadic(rest, next);
        assert(next.variadic == (st.variadic || has_sub(trimmed(tokens[0]), dots))) by {
            if trimmed(tokens[0]).len() == 0 {
                if has_sub(trimmed(tokens[0]), dots) {
                    let i = choose|i: int| occurs_at(trimmed(tokens[0]), dots, i);
                    assert(false);
                }
            }
        }
        if some_token_dotted(rest) {
            let k = choose|k: int| 0 <= k < rest.len() && has_sub(trimmed(#[trigger] rest[k]), dots);
            assert(rest[k] == tokens[k + 1]);
            assert(some_token_dotted(tokens));
        }
        if has_sub(trimmed(tokens[0]), dots) {
            assert(some_token_dotted(tokens));
        }
        if some_token_dotted(tokens) {
            let k = choose|k: int|
                0 <= k < tokens.len() && has_sub(trimmed(#[trigger] tokens[k]), dots);
            if k > 0 {
                assert(rest[k - 1] == tokens[k]);
                assert(some_token_dotted(rest));
            }
        }
    }
}

/// A callable signature is variadic exactly where one of the comma-separated tokens of
/// its parameter list holds two consecutive dots.
pub proof fn lemma_variadic_signature(sig: Seq<char>)
    requires
        callable(sig),
    ensures
        signature_of(sig).1 == some_token_dotted(split_on(parameter_text(sig), ',')),
{
    lemma_fold_variadic(split_on(parameter_text(sig), ','), sig_start());
}

/// Whether a row of the parameter table marks its parameter as optional.
pub open spec fn row_optional(row: ParameterView) -> bool {
    ||| has_sub(row.parameter, "optional"@)
    ||| has_sub(row.parameter, "Optional"@)
    ||| has_sub(row.description, "optional"@)
    ||| has_sub(row.description, "Optional"@)
}

/// Whether `t` holds two consecutive dots and does not end with them.
pub open spec fn ellipsis_inside(t: Seq<char>) -> bool {
    has_sub(t, seq!['.', '.']) && !occurs_at(t, seq!['.', '.'], t.len() - 2)
}

/// Whether a row of the parameter table marks the function as variadic.
pub open spec fn row_variadic(row: ParameterView) -> bool {
    ellipsis_inside(row.parameter) || ellipsis_inside(row.description)
}

/// Whether one of `rows` marks the function as variadic.
pub open spec fn some_row_variadic(rows: Seq<ParameterView>) -> bool {
    exists|i: int| 0 <= i < rows.len() && row_variadic(#[trigger] rows[i])
}

/// The class of the parameter of row `i`: optional where the signature says so at that
/// position or the row does; a position that the signature lacks counts as required.
pub open spec fn final_class(guesses: Seq<Arg>, rows: Seq<ParameterView>, i: int) -> Arg {
    if (0 <= i < guesses.len() && guesses[i] == Arg::Optional) || row_optional(rows[i]) {
        Arg::Optional
    } else {
        Arg::Required
    }
}

/// The class of each row's parameter.
pub open spec fn final_classes(guesses: Seq<Arg>, rows: Seq<ParameterView>) -> Seq<Arg> {
    Seq::new(rows.len(), |i: int| final_class(guesses, rows, i))
}

/// The number of required positions at the front of `classes`.
pub open spec fn required_count(classes: Seq<Arg>) -> nat
    decreases classes.len(),
{
    if classes.len() == 0 || classes[0] == Arg::Optional {
        0
    } else {
        1 + required_count(classes.drop_first())
    }
}

/// `required_count` is the index of the first optional position, or the number of
/// positions where none is optional.
pub proof fn lemma_required_count(classes: Seq<Arg>)
    ensures
        required_count(classes) <= classes.len(),
        forall|i: int| 0 <= i < required_count(classes) ==> classes[i] == Arg::Required,
        required_count(classes) < classes.len() ==> classes[required_count(classes) as int]
            == Arg::Optional,
    decreases classes.len(),
{
    if classes.len() > 0 && classes[0] != Arg::Optional {
        let rest = classes.drop_first();
        lemma_required_count(rest);
        assert forall|i: int| 0 <= i < required_count(classes) implies classes[i] == Arg::Required by {
            if i > 0 {
                assert(rest[i - 1] == classes[i]);
            }
        }
        if required_count(classes) < classes.len() {
            assert(rest[required_count(rest) as int] == classes[required_count(classes) as int]);
        }
    }
}

/// The one number with the properties of `required_count`.
pub proof fn lemma_required_count_is(classes: Seq<Arg>, n: int)
    requires
        0 <= n <= classes.len(),
        forall|i: int| 0 <= i < n ==> classes[i] == Arg::Required,
        n < classes.len() ==> classes[n] == Arg::Optional,
    ensures
        required_count(classes) == n,
{
    lemma_required_count(classes);
    let m = required_count(classes) as int;
    if m < n {
        assert(classes[m] == Arg::Required);
    } else if n < m {
        assert(classes[n] == Arg::Required);
    }
}

/// A position that the signature or the row marks as optional is optional in the end.
pub proof fn lemma_optional_is_kept(guesses: Seq<Arg>, rows: Seq<ParameterView>, i: int)
    requires
        0 <= i < rows.len(),
        (i < guesses.len() && guesses[i] == Arg::Optional) || row_optional(rows[i]),
    ensures
        final_classes(guesses, rows)[i] == Arg::Optional,
        required_count(final_classes(guesses, rows)) <= i,
{
    let classes = final_classes(guesses, rows);
    lemma_required_count(classes);
    if required_count(classes) > i {
        assert(classes[i] == Arg::Required);
    }
}

/// What the syntax section of a page describes.
#[derive(Debug, Clone, PartialEq, Eq)]
pub enum Data {
    /// A function with its parameters.
    Function { parameters: Vec<GmManualFunctionParameter>, required_parameters: usize, is_variadic: bool },
    /// A variable.
    Variable,
}

/// A `Data` with its parameters as a sequence of views.
pub enum DataView {
    Function { parameters: Seq<ParameterView>, required_parameters: usize, is_variadic: bool },
    Variable,
}

impl View for Data {
    type V = DataView;

    open spec fn view(&self) -> DataView {
        match self {
            Data::Function { parameters, required_parameters, is_variadic } => DataView::Function {
                parameters: parameters_of(parameters@),
                required_parameters: *required_parameters,
                is_variadic: *is_variadic,
            },
            Data::Variable => DataView::Variable,
        }
    }
}

/// The function that a signature with the positions `guesses` and the mark `variadic`
/// describes together with the rows of its parameter table.
pub open spec fn reconciled(guesses: Seq<Arg>, variadic: bool, rows: Seq<ParameterView>) -> DataView {
    DataView::Function {
        parameters: rows,
        required_parameters: required_count(final_classes(guesses, rows)) as usize,
        is_variadic: variadic || some_row_variadic(rows),
    }
}

/// Whether `t` holds two consecutive dots and does not end with them.
pub fn has_inner_ellipsis(t: &str) -> (r: bool)
    ensures
        r == ellipsis_inside(t@),
{
    let s = chars_of(t);
    let mut dots: Vec<char> = Vec::new();
    dots.push('.');
    dots.push('.');
    assert(dots@ == seq!['.', '.']);
    contains(&s, &dots) && !ends_with(&s, &dots)
}

/// Whether the row marks its parameter as optional.
pub fn is_row_optional(row: &GmManualFunctionParameter) -> (r: bool)
    ensures
        r == row_optional(row@),
{
    str_contains(row.parameter.as_str(), "optional") || str_contains(row.parameter.as_str(), "Optional")
        || str_contains(row.description.as_str(), "optional") || str_contains(
        row.description.as_str(),
        "Optional",
    )
}

/// Joins what the signature says of the parameters with what the rows of the table say.
pub fn reconcile(guesses: &Vec<Arg>, variadic: bool, rows: Vec<GmManualFunctionParameter>) -> (r: Data)
    ensures
        r@ == reconciled(guesses@, variadic, parameters_of(rows@)),
{
    let ghost classes = final_classes(guesses@, parameters_of(rows@));
    let mut is_variadic = variadic;
    let mut required: usize = 0;
    let mut found = false;
    let mut i: usize = 0;
    while i < rows.len()
        invariant
            i <= rows.len(),
            classes == final_classes(guesses@, parameters_of(rows@)),
            is_variadic == (variadic || exists|k: int|
                0 <= k < i && row_variadic(#[trigger] parameters_of(rows@)[k])),
            found ==> required < i && classes[required as int] == Arg::Optional,
            !found ==> required == i,
            forall|k: int| 0 <= k < required ==> classes[k] == Arg::Required,
        decreases rows.len() - i,
    {
        let row = &rows[i];
        assert(parameters_of(rows@)[i as int] == row@);
        let optional = (i < guesses.len() && guesses[i] == Arg::Optional) || is_row_optional(row);
        assert(optional == (classes[i as int] == Arg::Optional));
        if has_inner_ellipsis(row.parameter.as_str()) || has_inner_ellipsis(row.description.as_str()) {
            is_variadic = true;
        }
        if !found {
            if optional {
                found = true;
            } else {
                required = i + 1;
            }
        }
        i += 1;
    }
    proof {
        lemma_required_count_is(classes, required as int);
    }
    Data::Function { parameters: rows, required_parameters: required, is_variadic }
}

/// Whether the markup text of node `i`, in lower case, holds `keyword`.
pub open spec fn speaks_of(nodes: Seq<NodeView>, i: int, dir: Seq<char>, keyword: Seq<char>) -> bool {
    has_sub(ascii_lowered(markdown_of(nodes, i, dir)), keyword)
}

/// Whether node `i` is a heading that speaks of `keyword`.
pub open spec fn heading_matches(nodes: Seq<NodeView>, i: int, dir: Seq<char>, keyword: Seq<char>) -> bool {
    nodes[i].kind == NodeKind::Element && nodes[i].name == "h4"@ && speaks_of(nodes, i, dir, keyword)
}

/// The first heading at or after index `from` that speaks of `keyword`.
pub open spec fn heading_from(nodes: Seq<NodeView>, from: int, dir: Seq<char>, keyword: Seq<char>) -> Option<
    usize,
>
    decreases nodes.len() - from,
{
    if from < 0 || from >= nodes.len() {
        None
    } else if heading_matches(nodes, from, dir, keyword) {
        Some(from as usize)
    } else {
        heading_from(nodes, from + 1, dir, keyword)
    }
}

/// What `heading_from` finds is the first matching heading from `from` on.
pub proof fn lemma_heading_from(nodes: Seq<NodeView>, from: int, dir: Seq<char>, keyword: Seq<char>)
    requires
        0 <= from,
        nodes.len() <= usize::MAX,
    ensures
        match heading_from(nodes, from, dir, keyword) {
            Some(h) => {
                &&& from <= h < nodes.len()
                &&& heading_matches(nodes, h as int, dir, keyword)
                &&& forall|j: int| from <= j < h ==> !heading_matches(nodes, j, dir, keyword)
            },
            None => forall|j: int| from <= j < nodes.len() ==> !heading_matches(nodes, j, dir, keyword),
        },
    decreases nodes.len() - from,
{
    if from < nodes.len() && !heading_matches(nodes, from, dir, keyword) {
        lemma_heading_from(nodes, from + 1, dir, keyword);
    }
}

/// The first content that follows the first heading that speaks of `keyword`.
pub open spec fn section_body(nodes: Seq<NodeView>, dir: Seq<char>, keyword: Seq<char>) -> Option<usize> {
    match heading_from(nodes, 0, dir, keyword) {
        Some(h) => sibling_after(nodes, h as int, WantView::Content),
        None => None,
    }
}

/// Whether the markup text of `node`, in lower case, holds `keyword`.
pub fn node_speaks_of(dom: &Dom, node: usize, directory: &str, keyword: &str) -> (r: bool)
    requires
        dom.wf(),
        node < dom.nodes.len(),
    ensures
        r == speaks_of(dom@, node as int, directory@, keyword@),
{
    let text = Markdown::convert_to_markdown(directory, dom, node);
    let lower = ascii_lowercase(&chars_of(text.as_str()));
    let pat = chars_of(keyword);
    contains(&lower, &pat)
}

/// Finds the first heading at or after `cursor` whose markup text, in lower case, holds
/// `keyword`. The cursor for a search that goes on after it is one more than the result.
pub fn find_heading(dom: &Dom, directory: &str, cursor: usize, keyword: &str) -> (r: Option<usize>)
    requires
        dom.wf(),
    ensures
        r == heading_from(dom@, cursor as int, directory@, keyword@),
        r is Some ==> cursor <= r->0 < dom.nodes.len(),
{
    let mut i: usize = cursor;
    while i < dom.nodes.len()
        invariant
            dom.wf(),
            cursor <= i,
            heading_from(dom@, cursor as int, directory@, keyword@) == heading_from(
                dom@,
                i as int,
                directory@,
                keyword@,
            ),
        decreases dom.nodes.len() - i,
    {
        assert(dom@[i as int] == dom.nodes[i as int]@);
        if dom.nodes[i].is_element_named("h4") && node_speaks_of(dom, i, directory, keyword) {
            return Some(i);
        }
        i += 1;
    }
    None
}

/// Finds the content of the section whose heading speaks of `keyword`.
pub fn find_section(dom: &Dom, directory: &str, keyword: &str) -> (r: Option<usize>)
    requires
        dom.wf(),
    ensures
        r == section_body(dom@, directory@, keyword@),
        r is Some ==> r->0 < dom.nodes.len(),
{
    match find_heading(dom, directory, 0, keyword) {
        Some(h) => dom.find_sibling(h, Want::Content),
        None => None,
    }
}

/// The first element at or after index `from` with the tag name `name`.
pub open spec fn element_from(nodes: Seq<NodeView>, from: int, name: Seq<char>) -> Option<usize>
    decreases nodes.len() - from,
{
    if from < 0 || from >= nodes.len() {
        None
    } else if nodes[from].kind == NodeKind::Element && nodes[from].name == name {
        Some(from as usize)
    } else {
        element_from(nodes, from + 1, name)
    }
}

/// The first element at or after index `from` with the tag name `name`.
pub fn find_element(dom: &Dom, from: usize, name: &str) -> (r: Option<usize>)
    ensures
        r == element_from(dom@, from as int, name@),
        r is Some ==> from <= r->0 < dom.nodes.len(),
{
    let mut i: usize = from;
    while i < dom.nodes.len()
        invariant
            from <= i,
            element_from(dom@, from as int, name@) == element_from(dom@, i as int, name@),
        decreases dom.nodes.len() - i,
    {
        assert(dom@[i as int] == dom.nodes[i as int]@);
        if dom.nodes[i].is_element_named(name) {
            return Some(i);
        }
        i += 1;
    }
    None
}

/// The name and the description of a page.
///
/// The name is the text that the first `h1` element begins with; the description is the
/// markup text of the first content that follows that element. There is neither where
/// there is no such element, where it does not begin with text or where nothing follows.
pub open spec fn name_and_description(nodes: Seq<NodeView>, dir: Seq<char>) -> Option<
    (Seq<char>, Seq<char>),
> {
    match element_from(nodes, 0, "h1"@) {
        Some(title) => {
            let kids = nodes[title as int].children;
            if kids.len() > 0 && nodes[kids[0] as int].kind == NodeKind::Text {
                match sibling_after(nodes, title as int, WantView::Content) {
                    Some(d) => Some((nodes[kids[0] as int].text, markdown_of(nodes, d as int, dir))),
                    None => None,
                }
            } else {
                None
            }
        },
        None => None,
    }
}

/// The characters of both strings of an optional pair.
pub open spec fn pair_view(p: Option<(String, String)>) -> Option<(Seq<char>, Seq<char>)> {
    match p {
        Some((a, b)) => Some((a@, b@)),
        None => None,
    }
}

/// The name and the description of a page.
pub fn parse_name_and_description(dom: &Dom, directory: &str) -> (r: Option<(String, String)>)
    requires
        dom.wf(),
    ensures
        pair_view(r) == name_and_description(dom@, directory@),
{
    match find_element(dom, 0, "h1") {
        Some(title) => {
            let node = &dom.nodes[title];
            assert(dom@[title as int] == node@);
            if node.children.len() == 0 {
                return None;
            }
            assert(child_ok(dom@, title as int, 0));
            let first = &dom.nodes[node.children[0]];
            assert(dom@[node.children[0] as int] == first@);
            match first.kind {
                NodeKind::Text => match dom.find_sibling(title, Want::Content) {
                    Some(d) => Some((first.text.clone(), Markdown::convert_to_markdown(directory, dom, d))),
                    None => None,
                },
                _ => None,
            }
        },
        None => None,
    }
}

/// `t` without the code fence around it, where it has one.
pub open spec fn unfenced(t: Seq<char>) -> Seq<char> {
    if t.len() >= 8 && occurs_at(t, "```\n"@, 0) && occurs_at(t, "\n```"@, t.len() - 4) {
        t.subrange(4, t.len() - 4)
    } else {
        t
    }
}

/// What a page returns: the markup text of the content of its "returns" section, without
/// the code fence where that is all it is.
pub open spec fn returns_of(nodes: Seq<NodeView>, dir: Seq<char>) -> Option<Seq<char>> {
    match section_body(nodes, dir, "returns"@) {
        Some(b) => Some(unfenced(markdown_of(nodes, b as int, dir))),
        None => None,
    }
}

/// `text` without the code fence around it.
pub fn strip_fence(text: &str) -> (r: String)
    ensures
        r@ == unfenced(text@),
{
    let t = chars_of(text);
    let head = chars_of("```\n");
    let tail = chars_of("\n```");
    proof {
        reveal_strlit("```\n");
        reveal_strlit("\n```");
    }
    if t.len() >= 8 && starts_with(&t, &head) && ends_with(&t, &tail) {
        let inner = slice_of(&t, 4, t.len() - 4);
        string_of(&inner)
    } else {
        string_of(&t)
    }
}

/// What a page returns.
pub fn parse_returns(dom: &Dom, directory: &str) -> (r: Option<String>)
    requires
        dom.wf(),
    ensures
        opt_view(r) == returns_of(dom@, directory@),
{
    match find_section(dom, directory, "returns") {
        Some(b) => {
            let text = Markdown::convert_to_markdown(directory, dom, b);
            Some(strip_fence(text.as_str()))
        },
        None => None,
    }
}

/// The example text `acc` continued with the children of node `p` from its `k`-th on.
///
/// Blank text adds a line break, other text adds itself trimmed, an element adds its
/// markup text. The example ends before an element whose markup text is blank and before
/// a node that is neither text nor element.
pub open spec fn example_tail(nodes: Seq<NodeView>, p: int, k: int, dir: Seq<char>, acc: Seq<char>) -> Seq<
    char,
>
    decreases nodes[p].children.len() - k,
{
    if k < 0 || k >= nodes[p].children.len() {
        acc
    } else {
        let c = nodes[p].children[k] as int;
        match nodes[c].kind {
            NodeKind::Text => example_tail(
                nodes,
                p,
                k + 1,
                dir,
                acc + (if is_blank(nodes[c].text) {
                    seq!['\n']
                } else {
                    trimmed(nodes[c].text)
                }),
            ),
            NodeKind::Element => if is_blank(markdown_of(nodes, c, dir)) {
                acc
            } else {
                example_tail(nodes, p, k + 1, dir, acc + markdown_of(nodes, c, dir))
            },
            NodeKind::Other => acc,
        }
    }
}

/// The example of a page: the markup text of the content of its "example" section and of
/// what follows that content.
pub open spec fn example_of(nodes: Seq<NodeView>, dir: Seq<char>) -> Option<Seq<char>> {
    match section_body(nodes, dir, "example"@) {
        Some(b) => match nodes[b as int].parent {
            Some(p) => Some(
                example_tail(
                    nodes,
                    p as int,
                    nodes[b as int].position + 1,
                    dir,
                    markdown_of(nodes, b as int, dir),
                ),
            ),
            None => None,
        },
        None => None,
    }
}

/// The example of a page.
pub fn parse_example(dom: &Dom, directory: &str) -> (r: Option<String>)
    requires
        dom.wf(),
    ensures
        opt_view(r) == example_of(dom@, directory@),
{
    match find_section(dom, directory, "example") {
        Some(b) => {
            let first = &dom.nodes[b];
            assert(dom@[b as int] == first@);
            match first.parent {
                Some(p) => {
                    assert(parent_ok(dom@, b as int));
                    let parent = &dom.nodes[p];
                    assert(dom@[p as int] == parent@);
                    let text = Markdown::convert_to_markdown(directory, dom, b);
                    let mut out = chars_of(text.as_str());
                    let count = parent.children.len();
                    let mut k: usize = first.position + 1;
                    let ghost whole = example_tail(dom@, p as int, k as int, directory@, out@);
                    while k < count
                        invariant
                            dom.wf(),
                            p < dom.nodes.len(),
                            dom@[p as int] == parent@,
                            count == parent.children.len(),
                            example_of(dom@, directory@) == Some(whole),
                            whole == example_tail(dom@, p as int, k as int, directory@, out@),
                        decreases count - k,
                    {
                        let c = parent.children[k];
                        assert(child_ok(dom@, p as int, k as int));
                        let child = &dom.nodes[c];
                        assert(dom@[c as int] == child@);
                        match child.kind {
                            NodeKind::Text => {
                                let t = chars_of(child.text.as_str());
                                if blank(&t) {
                                    let ghost before = out@;
                                    out.push('\n');
                                    assert(out@ == before + seq!['\n']);
                                } else {
                                    let trimmed_text = trim(&t);
                                    append(&mut out, &trimmed_text);
                                }
                            },
                            NodeKind::Element => {
                                let next = Markdown::convert_to_markdown(directory, dom, c);
                                let chars = chars_of(next.as_str());
                                if blank(&chars) {
                                    return Some(string_of(&out));
                                }
                                append(&mut out, &chars);
                            },
                            NodeKind::Other => {
                                return Some(string_of(&out));
                            },
                        }
                        k += 1;
                    }
                    Some(string_of(&out))
                },
                None => None,
            }
        },
        None => None,
    }
}

/// Whether node `i` is a header cell that speaks of `keyword`.
pub open spec fn header_cell_matches(nodes: Seq<NodeView>, i: int, dir: Seq<char>, keyword: Seq<char>) -> bool {
    nodes[i].kind == NodeKind::Element && nodes[i].name == "th"@ && speaks_of(nodes, i, dir, keyword)
}

/// The first header cell among the children of node `row`, from its `k`-th child on, that
/// speaks of `keyword`.
pub open spec fn header_cell_from(
    nodes: Seq<NodeView>,
    row: int,
    k: int,
    dir: Seq<char>,
    keyword: Seq<char>,
) -> Option<usize>
    decreases nodes[row].children.len() - k,
{
    if k < 0 || k >= nodes[row].children.len() {
        None
    } else if header_cell_matches(nodes, nodes[row].children[k] as int, dir, keyword) {
        Some(nodes[row].children[k])
    } else {
        header_cell_from(nodes, row, k + 1, dir, keyword)
    }
}

/// Whether one of the header cells of the row at node `row` speaks of `keyword`.
pub open spec fn header_speaks_of(nodes: Seq<NodeView>, row: int, dir: Seq<char>, keyword: Seq<char>) -> bool {
    header_cell_from(nodes, row, 0, dir, keyword) is Some
}

/// Whether one of the header cells of the row at `row` speaks of `keyword`.
pub fn header_has(dom: &Dom, row: usize, directory: &str, keyword: &str) -> (r: bool)
    requires
        dom.wf(),
        row < dom.nodes.len(),
    ensures
        r == header_speaks_of(dom@, row as int, directory@, keyword@),
{
    let node = &dom.nodes[row];
    assert(dom@[row as int] == node@);
    let mut k: usize = 0;
    while k < node.children.len()
        invariant
            dom.wf(),
            row < dom.nodes.len(),
            dom@[row as int] == node@,
            header_cell_from(dom@, row as int, 0, directory@, keyword@) == header_cell_from(
                dom@,
                row as int,
                k as int,
                directory@,
                keyword@,
            ),
        decreases node.children.len() - k,
    {
        let c = node.children[k];
        assert(child_ok(dom@, row as int, k as int));
        assert(dom@[c as int] == dom.nodes[c as int]@);
        if dom.nodes[c].is_element_named("th") && node_speaks_of(dom, c, directory, keyword) {
            return true;
        }
        k += 1;
    }
    false
}

/// The parameter that the table row at node `row` describes: the markup texts of its
/// first two cells. There is none where the row has fewer than two cells.
pub open spec fn row_parameter(nodes: Seq<NodeView>, row: int, dir: Seq<char>) -> Option<ParameterView> {
    match child_from(nodes, row, 0, WantView::Element) {
        Some(first) => match sibling_after(nodes, first as int, WantView::Element) {
            Some(second) => Some(
                ParameterView {
                    parameter: markdown_of(nodes, first as int, dir),
                    description: markdown_of(nodes, second as int, dir),
                },
            ),
            None => None,
        },
        None => None,
    }
}

/// The parameters that the rows among the children of node `body` describe, from its
/// `k`-th child on. There are none at all where one row has fewer than two cells.
pub open spec fn table_rows(nodes: Seq<NodeView>, body: int, k: int, dir: Seq<char>) -> Option<
    Seq<ParameterView>,
>
    decreases nodes[body].children.len() - k,
{
    if k < 0 || k >= nodes[body].children.len() {
        Some(Seq::empty())
    } else {
        let c = nodes[body].children[k] as int;
        if nodes[c].kind == NodeKind::Element {
            match (row_parameter(nodes, c, dir), table_rows(nodes, body, k + 1, dir)) {
                (Some(row), Some(rest)) => Some(seq![row] + rest),
                _ => None,
            }
        } else {
            table_rows(nodes, body, k + 1, dir)
        }
    }
}

/// The function that the table at node `table` describes together with a signature.
///
/// The rows are the element children of the table's first element child, and the first
/// of them is the header. Where no header cell speaks of arguments, the table gives no
/// parameters. There is no function where the table is empty or a row is short.
pub open spec fn table_function(
    nodes: Seq<NodeView>,
    table: int,
    dir: Seq<char>,
    guesses: Seq<Arg>,
    variadic: bool,
) -> Option<DataView> {
    match child_from(nodes, table, 0, WantView::Element) {
        Some(body) => match child_from(nodes, body as int, 0, WantView::Element) {
            Some(header) => if header_speaks_of(nodes, header as int, dir, "argument"@) {
                match table_rows(nodes, body as int, nodes[header as int].position + 1, dir) {
                    Some(rows) => Some(reconciled(guesses, variadic, rows)),
                    None => None,
                }
            } else {
                Some(reconciled(guesses, variadic, Seq::empty()))
            },
            None => Some(reconciled(guesses, variadic, Seq::empty())),
        },
        None => None,
    }
}

/// What the syntax section of a page describes.
///
/// The signature is the markup text of the content of the section. A signature that is
/// not callable makes the page that of a variable. Otherwise the first table that follows
/// the signature gives the parameters. There is nothing where the section, its content
/// or the table is missing.
pub open spec fn parameters_from(nodes: Seq<NodeView>, dir: Seq<char>) -> Option<DataView> {
    match section_body(nodes, dir, "syntax"@) {
        Some(s) => {
            let sig = signature_of(markdown_of(nodes, s as int, dir));
            if !sig.2 {
                Some(DataView::Variable)
            } else {
                match sibling_after(nodes, s as int, WantView::Named("table"@)) {
                    Some(table) => table_function(nodes, table as int, dir, sig.0, sig.1),
                    None => None,
                }
            }
        },
        None => None,
    }
}

/// The view of an optional `Data`.
pub open spec fn data_view(d: Option<Data>) -> Option<DataView> {
    match d {
        Some(x) => Some(x@),
        None => None,
    }
}

/// The parameter that the table row at `row` describes.
pub fn parse_row(dom: &Dom, row: usize, directory: &str) -> (r: Option<GmManualFunctionParameter>)
    requires
        dom.wf(),
        row < dom.nodes.len(),
    ensures
        match r {
            Some(p) => row_parameter(dom@, row as int, directory@) == Some(p@),
            None => row_parameter(dom@, row as int, directory@) is None,
        },
{
    match dom.find_child(row, 0, Want::Element) {
        Some(first) => match dom.find_sibling(first, Want::Element) {
            Some(second) => Some(
                GmManualFunctionParameter {
                    parameter: Markdown::convert_to_markdown(directory, dom, first),
                    description: Markdown::convert_to_markdown(directory, dom, second),
                },
            ),
            None => None,
        },
        None => None,
    }
}

/// The parameters that the rows among the children of `body` describe, from the `k`-th on.
pub fn parse_rows(dom: &Dom, body: usize, k: usize, directory: &str) -> (r: Option<
    Vec<GmManualFunctionParameter>,
>)
    requires
        dom.wf(),
        body < dom.nodes.len(),
    ensures
        match r {
            Some(rows) => table_rows(dom@, body as int, k as int, directory@) == Some(
                parameters_of(rows@),
            ),
            None => table_rows(dom@, body as int, k as int, directory@) is None,
        },
{
    let node = &dom.nodes[body];
    assert(dom@[body as int] == node@);
    let mut rows: Vec<GmManualFunctionParameter> = Vec::new();
    let mut j: usize = k;
    assert(parameters_of(rows@) =~= Seq::empty());
    while j < node.children.len()
        invariant
            dom.wf(),
            body < dom.nodes.len(),
            dom@[body as int] == node@,
            k <= j,
            table_rows(dom@, body as int, k as int, directory@) == match table_rows(
                dom@,
                body as int,
                j as int,
                directory@,
            ) {
                Some(rest) => Some(parameters_of(rows@) + rest),
                None => None,
            },
        decreases node.children.len() - j,
    {
        let c = node.children[j];
        assert(child_ok(dom@, body as int, j as int));
        assert(dom@[c as int] == dom.nodes[c as int]@);
        match dom.nodes[c].kind {
            NodeKind::Element => match parse_row(dom, c, directory) {
                Some(row) => {
                    proof {
                        let before = parameters_of(rows@);
                        assert(parameters_of(rows@.push(row)) =~= before + seq![row@]);
                        match table_rows(dom@, body as int, j + 1, directory@) {
                            Some(rest) => {
                                assert((before + seq![row@]) + rest == before + (seq![row@] + rest));
                            },
                            None => {},
                        }
                    }
                    rows.push(row);
                },
                None => {
                    return None;
                },
            },
            _ => {},
        }
        j += 1;
    }
    assert(parameters_of(rows@) + Seq::<ParameterView>::empty() == parameters_of(rows@));
    Some(rows)
}

/// The function that the table at `table` describes together with a signature.
pub fn parse_table(dom: &Dom, table: usize, directory: &str, guesses: &Vec<Arg>, variadic: bool) -> (r:
    Option<Data>)
    requires
        dom.wf(),
        table < dom.nodes.len(),
    ensures
        data_view(r) == table_function(dom@, table as int, directory@, guesses@, variadic),
{
    match dom.find_child(table, 0, Want::Element) {
        Some(body) => match dom.find_child(body, 0, Want::Element) {
            Some(header) => {
                if header_has(dom, header, directory, "argument") {
                    proof {
                        lemma_child_from(dom@, body as int, 0, WantView::Element);
                    }
                    assert(dom@[header as int] == dom.nodes[header as int]@);
                    let count = dom.nodes[body].children.len();
                    assert(dom@[body as int] == dom.nodes[body as int]@);
                    match parse_rows(dom, body, dom.nodes[header].position + 1, directory) {
                        Some(rows) => Some(reconcile(guesses, variadic, rows)),
                        None => None,
                    }
                } else {
                    let none: Vec<GmManualFunctionParameter> = Vec::new();
                    assert(parameters_of(none@) =~= Seq::empty());
                    Some(reconcile(guesses, variadic, none))
                }
            },
            None => {
                let none: Vec<GmManualFunctionParameter> = Vec::new();
                assert(parameters_of(none@) =~= Seq::empty());
                Some(reconcile(guesses, variadic, none))
            },
        },
        None => None,
    }
}

/// What the syntax section of a page describes.
pub fn parse_parameters(dom: &Dom, directory: &str) -> (r: Option<Data>)
    requires
        dom.wf(),
    ensures
        data_view(r) == parameters_from(dom@, directory@),
{
    match find_section(dom, directory, "syntax") {
        Some(s) => {
            let text = Markdown::convert_to_markdown(directory, dom, s);
            let (guesses, variadic, is_function) = parse_signature(text.as_str());
            if !is_function {
                Some(Data::Variable)
            } else {
                match dom.find_sibling(s, Want::Named("table")) {
                    Some(table) => parse_table(dom, table, directory, &guesses, variadic),
                    None => None,
                }
            }
        },
        None => None,
    }
}

/// What one page contributes to the manual.
#[derive(Debug, Clone, PartialEq, Eq)]
pub enum DocEntry {
    Function(GmManualFunction),
    Variable(GmManualVariable),
}

/// A `DocEntry` by the view of its record.
pub enum EntryView {
    Function(FunctionView),
    Variable(VariableView),
}

impl View for DocEntry {
    type V = EntryView;

    open spec fn view(&self) -> EntryView {
        match self {
            DocEntry::Function(f) => EntryView::Function(f@),
            DocEntry::Variable(v) => EntryView::Variable(v@),
        }
    }
}

/// The view of an optional entry.
pub open spec fn entry_view(e: Option<DocEntry>) -> Option<EntryView> {
    match e {
        Some(x) => Some(x@),
        None => None,
    }
}

/// What the syntax section describes, or a function without parameters where it
/// describes nothing.
pub open spec fn parameters_or_none(nodes: Seq<NodeView>, dir: Seq<char>) -> DataView {
    match parameters_from(nodes, dir) {
        Some(d) => d,
        None => DataView::Function { parameters: Seq::empty(), required_parameters: 0, is_variadic: false },
    }
}

/// The record of a page whose address is `link`.
///
/// There is one exactly where the page has a name with a description, a "returns"
/// section and an "example" section: a function where its syntax section describes one,
/// a variable where the signature is not callable.
pub open spec fn page_entry(nodes: Seq<NodeView>, dir: Seq<char>, link: Seq<char>) -> Option<EntryView> {
    match (name_and_description(nodes, dir), returns_of(nodes, dir), example_of(nodes, dir)) {
        (Some(nd), Some(ret), Some(example)) => Some(
            match parameters_or_none(nodes, dir) {
                DataView::Function { parameters, required_parameters, is_variadic } => EntryView::Function(
                    FunctionView {
                        name: nd.0,
                        parameters,
                        required_parameters,
                        is_variadic,
                        example,
                        description: nd.1,
                        returns: ret,
                        link,
                    },
                ),
                DataView::Variable => EntryView::Variable(
                    VariableView { name: nd.0, example, description: nd.1, returns: ret, link },
                ),
            },
        ),
        _ => None,
    }
}

/// Builds the record of a page from its tree; `link` is the address of the page.
pub fn extract_entry(dom: &Dom, directory: &str, link: String) -> (r: Option<DocEntry>)
    requires
        dom.wf(),
    ensures
        entry_view(r) == page_entry(dom@, directory@, link@),
{
    let name_description = parse_name_and_description(dom, directory);
    let data = match parse_parameters(dom, directory) {
        Some(d) => d,
        None => {
            let none: Vec<GmManualFunctionParameter> = Vec::new();
            assert(parameters_of(none@) =~= Seq::empty());
            Data::Function { parameters: none, required_parameters: 0, is_variadic: false }
        },
    };
    assert(data@ == parameters_or_none(dom@, directory@));
    let ret = parse_returns(dom, directory);
    let example = parse_example(dom, directory);
    match (name_description, ret, example) {
        (Some((name, description)), Some(ret), Some(example)) => Some(
            match data {
                Data::Function { parameters, required_parameters, is_variadic } => DocEntry::Function(
                    GmManualFunction {
                        name,
                        parameters,
                        required_parameters,
                        is_variadic,
                        example,
                        description,
                        returns: ret,
                        link,
                    },
                ),
                Data::Variable => DocEntry::Variable(
                    GmManualVariable { name, example, description, returns: ret, link },
                ),
            },
        ),
        _ => None,
    }
}

/// The record of the page with the text `page` at `path`, a path relative to the root of
/// the manual.
///
/// There is none where the text is not that of one tree or the path gives no address.
pub open spec fn file_entry(page: Seq<char>, path: Seq<char>) -> Option<EntryView> {
    match (built(html_events(page)), link_of(path)) {
        (Some(nodes), Some(link)) => page_entry(nodes, directory_of(path), link),
        _ => None,
    }
}

/// Reads the page with the text `page` at `path`, a path relative to the root of the
/// manual.
pub fn parse_function_file(page: &str, path: &str) -> (r: Option<DocEntry>)
    ensures
        entry_view(r) == file_entry(page@, path@),
{
    let dom = match parse_page(page) {
        Some(d) => d,
        None => {
            return None;
        },
    };
    let link = match convert_to_url(path) {
        Some(l) => l,
        None => {
            return None;
        },
    };
    let directory = parent_dir(path);
    extract_entry(&dom, directory.as_str(), link)
}

/// A page without an "example" section gives no record.
pub proof fn lemma_no_example_no_entry(nodes: Seq<NodeView>, dir: Seq<char>, link: Seq<char>)
    requires
        heading_from(nodes, 0, dir, "example"@) is None,
    ensures
        page_entry(nodes, dir, link) is None,
{
}

/// A page gives a record exactly where it has a name with a description, a "returns"
/// section and an "example" section, each with content.
pub proof fn lemma_entry_needs_all(nodes: Seq<NodeView>, dir: Seq<char>, link: Seq<char>)
    ensures
        page_entry(nodes, dir, link) is Some <==> name_and_description(nodes, dir) is Some && returns_of(
            nodes,
            dir,
        ) is Some && example_of(nodes, dir) is Some,
{
}

/// A page with every section whose syntax line is not callable gives a variable and no
/// function.
pub proof fn lemma_not_callable_is_variable(nodes: Seq<NodeView>, dir: Seq<char>, link: Seq<char>)
    requires
        name_and_description(nodes, dir) is Some,
        returns_of(nodes, dir) is Some,
        example_of(nodes, dir) is Some,
        section_body(nodes, dir, "syntax"@) is Some,
        !callable(markdown_of(nodes, section_body(nodes, dir, "syntax"@)->0 as int, dir)),
    ensures
        ({
            let titled = name_and_description(nodes, dir)->0;
            page_entry(nodes, dir, link) == Some(
                EntryView::Variable(
                    VariableView {
                        name: titled.0,
                        example: example_of(nodes, dir)->0,
                        description: titled.1,
                        returns: returns_of(nodes, dir)->0,
                        link,
                    },
                ),
            )
        }),
{
}

/// The number of required parameters of a function record never exceeds the number of
/// its parameters.
pub proof fn lemma_required_within(guesses: Seq<Arg>, variadic: bool, rows: Seq<ParameterView>)
    requires
        rows.len() <= usize::MAX,
    ensures
        reconciled(guesses, variadic, rows) matches DataView::Function {
            parameters,
            required_parameters,
            ..
        } && required_parameters <= parameters.len() && required_parameters == required_count(
            final_classes(guesses, rows),
        ),
{
    lemma_required_count(final_classes(guesses, rows));
}

/// A table gives no more parameters than it has rows.
pub proof fn lemma_table_rows_bound(nodes: Seq<NodeView>, body: int, k: int, dir: Seq<char>)
    requires
        0 <= k,
    ensures
        match table_rows(nodes, body, k, dir) {
            Some(rows) => rows.len() + k <= nodes[body].children.len() || rows.len() == 0,
            None => true,
        },
    decreases nodes[body].children.len() - k,
{
    if k < nodes[body].children.len() {
        lemma_table_rows_bound(nodes, body, k + 1, dir);
    }
}

/// The content of a section is a node of the tree, and a child of the parent of its heading.
pub proof fn lemma_section_body(nodes: Seq<NodeView>, dir: Seq<char>, keyword: Seq<char>)
    requires
        dom_wf(nodes),
        nodes.len() <= usize::MAX,
    ensures
        match section_body(nodes, dir, keyword) {
            Some(b) => 0 < b < nodes.len() && nodes[b as int].parent is Some && nodes[b as int].parent->0
                < nodes.len(),
            None => true,
        },
{
    lemma_heading_from(nodes, 0, dir, keyword);
    match heading_from(nodes, 0, dir, keyword) {
        Some(h) => {
            assert(parent_ok(nodes, h as int));
            match nodes[h as int].parent {
                Some(p) => {
                    lemma_child_from(nodes, p as int, nodes[h as int].position + 1, WantView::Content);
                },
                None => {},
            }
        },
        None => {},
    }
}

/// In the record of a function the number of required parameters never exceeds the
/// number of parameters.
pub proof fn lemma_function_record(nodes: Seq<NodeView>, dir: Seq<char>, link: Seq<char>)
    requires
        dom_wf(nodes),
        nodes.len() <= usize::MAX,
    ensures
        match page_entry(nodes, dir, link) {
            Some(EntryView::Function(f)) => f.required_parameters <= f.parameters.len(),
            _ => true,
        },
{
    lemma_section_body(nodes, dir, "syntax"@);
    match section_body(nodes, dir, "syntax"@) {
        Some(s) => {
            let sig = signature_of(markdown_of(nodes, s as int, dir));
            let p = nodes[s as int].parent->0;
            lemma_child_from(nodes, p as int, nodes[s as int].position + 1, WantView::Named("table"@));
            match sibling_after(nodes, s as int, WantView::Named("table"@)) {
                Some(table) => {
                    lemma_child_from(nodes, table as int, 0, WantView::Element);
                    match child_from(nodes, table as int, 0, WantView::Element) {
                        Some(body) => {
                            assert(parent_ok(nodes, body as int));
                            match child_from(nodes, body as int, 0, WantView::Element) {
                                Some(header) => {
                                    let k = nodes[header as int].position + 1;
                                    lemma_table_rows_bound(nodes, body as int, k, dir);
                                    match table_rows(nodes, body as int, k, dir) {
                                        Some(rows) => {
                                            lemma_required_within(sig.0, sig.1, rows);
                                        },
                                        None => {},
                                    }
                                },
                                None => {},
                            }
                            lemma_required_within(sig.0, sig.1, Seq::empty());
                        },
                        None => {},
                    }
                },
                None => {},
            }
        },
        None => {},
    }
}

} // verus!
