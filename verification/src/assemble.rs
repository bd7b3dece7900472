//! Putting the records of the pages together into one manual.

use crate::dom::{parse_page, Dom};
use crate::manual::{FunctionView, GmManual, GmManualFunction, GmManualVariable, VariableView};
use crate::parse_constants::{constant_views, file_constants, merged, parse_constant, record_constants};
use crate::parse_file::{
    example_of, extract_entry, file_entry, name_and_description, parse_example,
    parse_name_and_description, parse_returns, returns_of, DocEntry, EntryView,
};
use crate::parse_fnames::{convert_to_url, parent_dir};
use vstd::prelude::*;

verus! {

/// The views of the functions of a table, by name.
pub open spec fn function_views(m: Map<Seq<char>, GmManualFunction>) -> Map<Seq<char>, FunctionView> {
    Map::new(|k: Seq<char>| m.contains_key(k), |k: Seq<char>| m[k]@)
}

/// The views of the variables of a table, by name.
pub open spec fn variable_views(m: Map<Seq<char>, GmManualVariable>) -> Map<Seq<char>, VariableView> {
    Map::new(|k: Seq<char>| m.contains_key(k), |k: Seq<char>| m[k]@)
}

/// The functions `m` after the record `entry` of a page is added: a function is recorded
/// under its name, anything else changes nothing.
pub open spec fn with_function(m: Map<Seq<char>, FunctionView>, entry: Option<EntryView>) -> Map<
    Seq<char>,
    FunctionView,
> {
    match entry {
        Some(EntryView::Function(f)) => m.insert(f.name, f),
        _ => m,
    }
}

/// The variables `m` after the record `entry` of a page is added: a variable is recorded
/// under its name, anything else changes nothing.
pub open spec fn with_variable(m: Map<Seq<char>, VariableView>, entry: Option<EntryView>) -> Map<
    Seq<char>,
    VariableView,
> {
    match entry {
        Some(EntryView::Variable(v)) => m.insert(v.name, v),
        _ => m,
    }
}

/// A page changes the functions or the variables of a manual, never both.
pub proof fn lemma_one_record_per_page(
    functions: Map<Seq<char>, FunctionView>,
    variables: Map<Seq<char>, VariableView>,
    entry: Option<EntryView>,
)
    ensures
        with_function(functions, entry) == functions || with_variable(variables, entry) == variables,
{
}

/// Of two records under one name the later one stays.
pub proof fn lemma_last_write_wins<V>(m: Map<Seq<char>, V>, name: Seq<char>, first: V, second: V)
    ensures
        m.insert(name, first).insert(name, second) == m.insert(name, second),
{
    assert(m.insert(name, first).insert(name, second) =~= m.insert(name, second));
}

/// Records under different names can be added in either order.
pub proof fn lemma_order_is_free<V>(m: Map<Seq<char>, V>, a: Seq<char>, x: V, b: Seq<char>, y: V)
    requires
        a != b,
    ensures
        m.insert(a, x).insert(b, y) == m.insert(b, y).insert(a, x),
{
    assert(m.insert(a, x).insert(b, y) =~= m.insert(b, y).insert(a, x));
}

/// Records the entry of a page in the manual, under its name and in place of a record of
/// the same kind under that name.
pub fn add_entry(manual: &mut GmManual, entry: DocEntry)
    requires
        old(manual).wf(),
    ensures
        final(manual).wf(),
        function_views(final(manual).functions.map()) == with_function(
            function_views(old(manual).functions.map()),
            Some(entry@),
        ),
        variable_views(final(manual).variables.map()) == with_variable(
            variable_views(old(manual).variables.map()),
            Some(entry@),
        ),
        final(manual).constants == old(manual).constants,
{
    let ghost functions = manual.functions.map();
    let ghost variables = manual.variables.map();
    match entry {
        DocEntry::Function(f) => {
            manual.add_function(f);
            assert(function_views(functions.insert(f.name@, f)) =~= function_views(functions).insert(
                f@.name,
                f@,
            ));
        },
        DocEntry::Variable(v) => {
            manual.add_variable(v);
            assert(variable_views(variables.insert(v.name@, v)) =~= variable_views(variables).insert(
                v@.name,
                v@,
            ));
        },
    }
}

/// Which of the parts that a record needs a page has.
#[derive(Debug, Clone, Copy, PartialEq, Eq, Structural)]
pub struct Located {
    /// Whether the page has a name with a description.
    pub name_description: bool,
    /// Whether the page has a "returns" section.
    pub returns_section: bool,
    /// Whether the page has an "example" section.
    pub example_section: bool,
}

/// Says which of the parts that a record needs the page has.
pub fn located_sections(dom: &Dom, directory: &str) -> (r: Located)
    requires
        dom.wf(),
    ensures
        r.name_description == name_and_description(dom@, directory@) is Some,
        r.returns_section == returns_of(dom@, directory@) is Some,
        r.example_section == example_of(dom@, directory@) is Some,
{
    Located {
        name_description: parse_name_and_description(dom, directory).is_some(),
        returns_section: parse_returns(dom, directory).is_some(),
        example_section: parse_example(dom, directory).is_some(),
    }
}

/// Adds what the page with the text `page` at `path` gives to the manual: its record,
/// where it has one, and its constants. `path` is relative to the root of the manual.
///
/// Returns whether the page gave a function or a variable.
pub fn add_page(manual: &mut GmManual, page: &str, path: &str) -> (recorded: bool)
    requires
        old(manual).wf(),
    ensures
        final(manual).wf(),
        recorded == file_entry(page@, path@) is Some,
        function_views(final(manual).functions.map()) == with_function(
            function_views(old(manual).functions.map()),
            file_entry(page@, path@),
        ),
        variable_views(final(manual).variables.map()) == with_variable(
            variable_views(old(manual).variables.map()),
            file_entry(page@, path@),
        ),
        constant_views(final(manual).constants.map()) == merged(
            constant_views(old(manual).constants.map()),
            file_constants(page@, path@),
        ),
{
    let dom = match parse_page(page) {
        Some(d) => d,
        None => {
            return false;
        },
    };
    let link = match convert_to_url(path) {
        Some(l) => l,
        None => {
            return false;
        },
    };
    let directory = parent_dir(path);
    let found = parse_constant(&dom, directory.as_str(), link.as_str());
    record_constants(&mut manual.constants, found);
    match extract_entry(&dom, directory.as_str(), link) {
        Some(entry) => {
            add_entry(manual, entry);
            true
        },
        None => false,
    }
}

} // verus!
