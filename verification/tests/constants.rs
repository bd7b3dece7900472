use gm_docs_parser::dom::parse_page;
use gm_docs_parser::manual::GmManualConstant;
use gm_docs_parser::parse_constants::{
    classify_column, clean_name, finish, keep_filled, parse_constant, parse_constants, put, read_scheme,
    record_constants, Order,
};
use gm_docs_parser::parse_file::parse_function_file;
use gm_docs_parser::sorted::Sorted;

const PATH: &str = "GameMaker_Language/GML_Reference/Drawing/Colour/colours.htm";
const LINK: &str = "https://manual.yoyogames.com/GameMaker_Language/GML_Reference/Drawing/Colour/colours.htm";

fn table(header: &[&str], rows: &[&[&str]]) -> String {
    let mut out = String::from("<table>\n<tbody>\n<tr>");
    for cell in header {
        out.push_str(&format!("<th>{}</th>", cell));
    }
    out.push_str("</tr>\n");
    for row in rows {
        out.push_str("<tr>");
        for cell in row.iter() {
            out.push_str(&format!("<td>{}</td>", cell));
        }
        out.push_str("</tr>\n");
    }
    out.push_str("</tbody>\n</table>\n");
    out
}

fn page(body: &str) -> String {
    format!("<html><body>\n{}</body></html>", body)
}

fn constant(name: &str, description: &str, secondary: &[(&str, &str)]) -> GmManualConstant {
    let secondary_descriptors = if secondary.is_empty() {
        None
    } else {
        let mut table = Sorted::new();
        for (key, value) in secondary {
            table.insert(key.to_string(), value.to_string());
        }
        Some(table)
    };
    GmManualConstant {
        name: name.to_string(),
        description: description.to_string(),
        link: LINK.to_string(),
        secondary_descriptors,
    }
}

fn constants_of_page(body: &str) -> Vec<GmManualConstant> {
    let dom = parse_page(&page(body)).unwrap();
    parse_constant(&dom, "GameMaker_Language/GML_Reference/Drawing/Colour", LINK)
}

#[test]
fn backticks_are_stripped_from_the_name() {
    let body = table(&["Constant", "Description"], &[&["`c_red`", "the color red"]]);
    assert_eq!(constants_of_page(&body), vec![constant("c_red", "the color red", &[])]);
    let body = table(&["Constant", "Description"], &[&["<tt>c_red</tt>", "the color red"]]);
    assert_eq!(constants_of_page(&body), vec![constant("c_red", "the color red", &[])]);
}

#[test]
fn constants_are_recorded_by_name() {
    let body = table(
        &["Constant", "Description"],
        &[&["<tt>c_red</tt>", "the color red"], &["c_blue", "blue"], &["<tt>c_red</tt>", "red again"]],
    );
    let mut constants = Sorted::new();
    parse_constants(&page(&body), PATH, &mut constants);
    assert_eq!(constants.len(), 2);
    assert_eq!(constants.get("c_red"), Some(&constant("c_red", "red again", &[])));
    assert_eq!(constants.get("c_blue"), Some(&constant("c_blue", "blue", &[])));
    assert_eq!(constants.get("c_green"), None);
    assert_eq!(constants.entries[0].0, "c_blue");
}

#[test]
fn table_without_constant_header_is_skipped() {
    let body = table(&["Argument", "Description"], &[&["x", "the x"]])
        + &table(&["The CONSTANT", "What it is"], &[&["<b>c_two</b>", "two"]])
        + "<table><tbody><tr><td>Constant</td><td>Description</td></tr><tr><td>c_no</td><td>no</td></tr></tbody></table>";
    assert_eq!(constants_of_page(&body), vec![constant("c_two", "two", &[])]);
}

#[test]
fn constant_column_need_not_be_the_first() {
    let body = table(
        &["Value", "<i>Constant</i>", "Constant value", "Description"],
        &[&["1", "c_one", "one", "the first"]],
    );
    assert_eq!(
        constants_of_page(&body),
        vec![constant("c_one", "the first", &[("Constant value", "one"), ("Value", "1")])]
    );
}

#[test]
fn description_header_is_found_in_any_case() {
    let body = table(&["Constant", "DESCRIPTION"], &[&["c_one", "one"]]);
    assert_eq!(constants_of_page(&body), vec![constant("c_one", "one", &[])]);
}

#[test]
fn secondary_columns_are_kept_by_header() {
    let body = table(
        &["Constant", "Value", "Description", "Alias"],
        &[&["<b>vk_a</b>", "65", "the A key", "a"], &["vk_b", "66", "the B key", " "]],
    );
    assert_eq!(
        constants_of_page(&body),
        vec![
            constant("vk_a", "the A key", &[("Alias", "a"), ("Value", "65")]),
            constant("vk_b", "the B key", &[("Value", "66")]),
        ]
    );
}

#[test]
fn blank_description_takes_the_first_secondary_column() {
    let body = table(
        &["Constant", "Value", "Alias", "Description"],
        &[&["vk_a", "65", "a", ""], &["vk_b", "66", "", "&nbsp;"], &["vk_c", "", "", ""]],
    );
    assert_eq!(
        constants_of_page(&body),
        vec![
            constant("vk_a", "a", &[("Value", "65")]),
            constant("vk_b", "66", &[]),
            constant("vk_c", "", &[]),
        ]
    );
}

#[test]
fn name_with_backslash_is_dropped() {
    let body = table(&["Constant", "Description"], &[&["\\n", "a line break"], &["ok", "fine"]]);
    assert_eq!(constants_of_page(&body), vec![constant("ok", "fine", &[])]);
}

#[test]
fn cells_beyond_the_columns_are_passed_over() {
    let body = table(&["Constant", "Description"], &[&["c_one", "one", "extra", "more"], &["c_two"]]);
    assert_eq!(
        constants_of_page(&body),
        vec![constant("c_one", "one", &[]), constant("c_two", "", &[])]
    );
}

#[test]
fn every_table_of_a_page_is_read() {
    let body = table(&["Constant", "Description"], &[&["c_one", "one"]])
        + "<p>between</p>"
        + &table(&["Constant", "Description"], &[&["c_two", "two"]]);
    assert_eq!(
        constants_of_page(&body),
        vec![constant("c_one", "one", &[]), constant("c_two", "two", &[])]
    );
}

#[test]
fn constants_are_found_on_a_page_without_example() {
    let body = String::from("<h1>colours</h1><p>The colours.</p>")
        + &table(&["Constant", "Description"], &[&["<tt>c_red</tt>", "the color red"]]);
    assert_eq!(parse_function_file(&page(&body), PATH), None);
    let mut constants = Sorted::new();
    parse_constants(&page(&body), PATH, &mut constants);
    assert_eq!(constants.entries, vec![("c_red".to_string(), constant("c_red", "the color red", &[]))]);
}

#[test]
fn names_lose_one_layer_of_marks() {
    assert_eq!(clean_name("`c_red`"), "c_red");
    assert_eq!(clean_name("**c_red**"), "c_red");
    assert_eq!(clean_name("`**c_red**`"), "c_red");
    assert_eq!(clean_name("**`c_red`**"), "`c_red`");
    assert_eq!(clean_name("``c_red``"), "`c_red`");
    assert_eq!(clean_name("`c_red"), "`c_red");
    assert_eq!(clean_name("*c_red*"), "*c_red*");
    assert_eq!(clean_name("`"), "`");
    assert_eq!(clean_name("``"), "");
    assert_eq!(clean_name("***"), "***");
    assert_eq!(clean_name("****"), "");
    assert_eq!(clean_name(""), "");
}

#[test]
fn columns_are_classified_by_header() {
    assert_eq!(classify_column("Description".to_string()), Order::Description);
    assert_eq!(classify_column("A DESCRIPTION of it".to_string()), Order::Description);
    assert_eq!(classify_column("Value".to_string()), Order::Other("Value".to_string()));
    assert_eq!(classify_column(String::new()), Order::Other(String::new()));
}

#[test]
fn scheme_holds_the_header_cells() {
    let dom = parse_page(&page(
        "<table><tbody><tr><th>Constant</th> <th>Value</th><td>x</td><th>Description</th></tr></tbody></table>",
    ))
    .unwrap();
    let row = dom.nodes.iter().position(|n| n.name == "tr").unwrap();
    assert_eq!(
        read_scheme(&dom, row, ""),
        Some(vec![Order::Constant, Order::Other("Value".to_string()), Order::Description])
    );
    assert_eq!(read_scheme(&dom, 0, ""), None);
}

#[test]
fn finish_cleans_a_row() {
    let mut draft = constant("", "", &[]);
    put(&mut draft, &Order::Constant, "`c_x`".to_string());
    put(&mut draft, &Order::Other("B".to_string()), "second".to_string());
    put(&mut draft, &Order::Other("A".to_string()), "first".to_string());
    put(&mut draft, &Order::Other("A".to_string()), "first again".to_string());
    put(&mut draft, &Order::Other(" ".to_string()), "no header".to_string());
    put(&mut draft, &Order::Description, " ".to_string());
    assert_eq!(finish(draft), Some(constant("c_x", "first again", &[("B", "second")])));

    let mut dropped = constant("", "", &[]);
    put(&mut dropped, &Order::Constant, "`\\t`".to_string());
    assert_eq!(finish(dropped), None);
}

#[test]
fn filled_entries_are_kept_in_order() {
    let mut table = Sorted::new();
    for (key, value) in [("b", "2"), ("", "x"), ("a", " "), ("c", "3"), (" \t", "y")] {
        table.insert(key.to_string(), value.to_string());
    }
    let kept = keep_filled(&table);
    assert_eq!(
        kept.entries,
        vec![("b".to_string(), "2".to_string()), ("c".to_string(), "3".to_string())]
    );
}

#[test]
fn later_constants_replace_earlier_ones() {
    let mut constants = Sorted::new();
    constants.insert("c_one".to_string(), constant("c_one", "old", &[]));
    record_constants(
        &mut constants,
        vec![constant("c_two", "two", &[]), constant("c_one", "new", &[]), constant("c_two", "newer", &[])],
    );
    assert_eq!(
        constants.entries,
        vec![
            ("c_one".to_string(), constant("c_one", "new", &[])),
            ("c_two".to_string(), constant("c_two", "newer", &[])),
        ]
    );
}
