use gm_docs_parser::assemble::{add_entry, add_page, located_sections, Located};
use gm_docs_parser::dom::parse_page;
use gm_docs_parser::manual::{GmManual, GmManualVariable};
use gm_docs_parser::parse_file::DocEntry;

fn variable(name: &str, returns: &str) -> GmManualVariable {
    GmManualVariable {
        name: name.to_string(),
        example: "e".to_string(),
        description: "d".to_string(),
        returns: returns.to_string(),
        link: "l".to_string(),
    }
}

fn page(name: &str, syntax: &str, rest: &str) -> String {
    format!(
        "<html><body><h1>{}</h1><p>About.</p><h4>Syntax</h4><p>{}</p><h4>Returns</h4><p>Real</p>{}</body></html>",
        name, syntax, rest
    )
}

const TABLE: &str = "<table><tbody><tr><th>Constant</th><th>Description</th></tr><tr><td>c_red</td><td>red</td></tr></tbody></table>";

#[test]
fn entries_are_recorded_by_kind_and_name() {
    let mut manual = GmManual::new();
    add_entry(&mut manual, DocEntry::Variable(variable("x", "first")));
    add_entry(&mut manual, DocEntry::Variable(variable("x", "second")));
    add_entry(&mut manual, DocEntry::Variable(variable("a", "third")));
    assert_eq!(manual.variables.len(), 2);
    assert_eq!(manual.variables.get("x"), Some(&variable("x", "second")));
    assert_eq!(manual.variables.get("a"), Some(&variable("a", "third")));
    assert_eq!(manual.functions.len(), 0);
    assert_eq!(manual.constants.len(), 0);
}

#[test]
fn page_gives_one_record_and_its_constants() {
    let mut manual = GmManual::new();
    let with_example = format!("<h4>Example</h4><p>use it</p>{}", TABLE);
    assert!(add_page(&mut manual, &page("f", "f(a);", &with_example), "GameMaker_Language/f.htm"));
    assert!(add_page(&mut manual, &page("v", "v;", &with_example), "GameMaker_Language/v.htm"));
    assert_eq!(manual.functions.len(), 1);
    assert_eq!(manual.variables.len(), 1);
    assert_eq!(manual.constants.len(), 1);
    assert_eq!(manual.functions.get("f").unwrap().link, "https://manual.yoyogames.com/GameMaker_Language/f.htm");
    assert_eq!(manual.functions.get("f").unwrap().required_parameters, 0);
    assert_eq!(manual.variables.get("v").unwrap().returns, "Real");
    assert_eq!(
        manual.constants.get("c_red").unwrap().link,
        "https://manual.yoyogames.com/GameMaker_Language/v.htm"
    );
}

#[test]
fn page_without_example_gives_only_constants() {
    let mut manual = GmManual::new();
    assert!(!add_page(&mut manual, &page("f", "f(a);", TABLE), "GameMaker_Language/f.htm"));
    assert_eq!(manual.functions.len(), 0);
    assert_eq!(manual.variables.len(), 0);
    assert_eq!(manual.constants.len(), 1);
    assert_eq!(manual.constants.get("c_red").unwrap().description, "red");
}

#[test]
fn missing_parts_are_told_apart() {
    let dom = parse_page(&page("f", "f();", "")).unwrap();
    assert_eq!(
        located_sections(&dom, ""),
        Located { name_description: true, returns_section: true, example_section: false }
    );
    let dom = parse_page("<html><body><h4>Example</h4><p>e</p></body></html>").unwrap();
    assert_eq!(
        located_sections(&dom, ""),
        Located { name_description: false, returns_section: false, example_section: true }
    );
}
