use gm_docs_parser::arg::InputOpts;
use gm_docs_parser::parse_fnames::{
    base_path, convert_to_url, force_extension, join_path, keeps_entry, parent_dir, parse_fnames,
    select_pages,
};
use std::path::Path;

#[test]
fn convert_back() {
    let path = Path::new(
        "data/GameMaker_Language/GML_Reference/Game_Input/Mouse_Input/mouse_clear.htm",
    );

    let output = path.strip_prefix("data/").unwrap();

    assert_eq!(
        output,
        Path::new("GameMaker_Language/GML_Reference/Game_Input/Mouse_Input/mouse_clear.htm")
    );

    assert_eq!(
        join_path(
            "data/",
            "GameMaker_Language/GML_Reference/Game_Input/Mouse_Input/mouse_clear.htm"
        ),
        "data/GameMaker_Language/GML_Reference/Game_Input/Mouse_Input/mouse_clear.htm"
    );
}

#[test]
fn join_adds_one_separator() {
    assert_eq!(join_path("a/b", "c.htm"), "a/b/c.htm");
    assert_eq!(join_path("a/b/", "c.htm"), "a/b/c.htm");
    assert_eq!(join_path("", "c.htm"), "c.htm");
    assert_eq!(join_path("a", ""), "a/");
    assert_eq!(join_path("a/b", "/c.htm"), "/c.htm");
    assert_eq!(join_path("a/b", "../c.htm"), "a/b/../c.htm");
}

#[test]
fn join_agrees_with_std_paths() {
    for (dir, rel) in [("a/b", "c.htm"), ("a/b/", "c.htm"), ("", "c"), ("a", "/c"), ("a", "")] {
        assert_eq!(Path::new(&join_path(dir, rel)), Path::new(dir).join(rel));
    }
}

#[test]
fn parent_is_what_precedes_the_last_slash() {
    assert_eq!(parent_dir("a/b/c.htm"), "a/b");
    assert_eq!(parent_dir("c.htm"), "");
    assert_eq!(parent_dir("/c.htm"), "");
    assert_eq!(parent_dir("a/"), "a");
    assert_eq!(parent_dir(""), "");
}

#[test]
fn url_of_a_page() {
    assert_eq!(
        convert_to_url("GameMaker_Language/GML_Reference/Game_Input/Mouse_Input/mouse_clear.htm"),
        Some(
            "https://manual.yoyogames.com/GameMaker_Language/GML_Reference/Game_Input/Mouse_Input/mouse_clear.htm"
                .to_string()
        )
    );
}

#[test]
fn url_is_canonical() {
    assert_eq!(
        convert_to_url("a b/../c d.htm"),
        Some("https://manual.yoyogames.com/c%20d.htm".to_string())
    );
}

#[test]
fn base_path_is_the_input_path() {
    let opts = InputOpts {
        input_path: "data/manual".to_string(),
        output_path: None,
        do_not_emit: true,
    };
    assert_eq!(base_path(&opts), "data/manual");
}

#[test]
fn extension_is_forced() {
    assert_eq!(force_extension("a/b/page.html"), "a/b/page.htm");
    assert_eq!(force_extension("a/b/page"), "a/b/page.htm");
    assert_eq!(force_extension("a.b/page"), "a.b/page.htm");
    assert_eq!(force_extension("a/page.tar.gz"), "a/page.tar.htm");
    assert_eq!(force_extension("a/.hidden"), "a/.hidden.htm");
    assert_eq!(force_extension("a/page."), "a/page.htm");
    assert_eq!(force_extension("a/"), "a/");
    assert_eq!(force_extension("a/.."), "a/..");
    assert_eq!(force_extension(""), "");
}

#[test]
fn extension_agrees_with_std_paths() {
    for path in ["a/b/page.html", "a/b/page", "a.b/page", "a/page.tar.gz", "a/.hidden", "a/page.", "a/.."] {
        assert_eq!(Path::new(&force_extension(path)), Path::new(path).with_extension("htm"));
    }
}

#[test]
fn index_entries_are_filtered() {
    let marker = "GameMaker_Language/GML_Reference/x/page.htm";
    assert!(keeps_entry("mouse_clear", marker));
    assert!(!keeps_entry("Mouse_clear", marker));
    assert!(!keeps_entry("mouse_clear", "GameMaker_Language/GML_Reference/x/Page.htm"));
    assert!(!keeps_entry("mouse_clear", "Elsewhere/x/page.htm"));
    assert!(keeps_entry("mouse_clear", "Upper/GameMaker_Language/GML_Reference/page.htm"));
    assert!(!keeps_entry("ärger_Ü", marker));
}

#[test]
fn pages_are_selected_in_order_and_once() {
    let entries = vec![
        ("zeta".to_string(), "GameMaker_Language/GML_Reference/b/zeta.html".to_string()),
        ("alpha".to_string(), "GameMaker_Language/GML_Reference/a/alpha".to_string()),
        ("Beta".to_string(), "GameMaker_Language/GML_Reference/a/beta.htm".to_string()),
        ("again".to_string(), "GameMaker_Language/GML_Reference/a/alpha.htm".to_string()),
        ("other".to_string(), "Somewhere/else.htm".to_string()),
    ];
    assert_eq!(
        select_pages(&entries),
        vec![
            "GameMaker_Language/GML_Reference/a/alpha.htm".to_string(),
            "GameMaker_Language/GML_Reference/b/zeta.htm".to_string(),
        ]
    );
}

#[test]
fn index_text_is_parsed() {
    let text = "{\"mouse_clear\": \"GameMaker_Language/GML_Reference/Game_Input/mouse_clear.htm\", \"Keyword\": \"GameMaker_Language/GML_Reference/k.htm\", \"draw_text\": \"GameMaker_Language/GML_Reference/Drawing/draw_text\"}";
    assert_eq!(
        parse_fnames(text),
        Some(vec![
            "GameMaker_Language/GML_Reference/Drawing/draw_text.htm".to_string(),
            "GameMaker_Language/GML_Reference/Game_Input/mouse_clear.htm".to_string(),
        ])
    );
}

#[test]
fn broken_index_gives_nothing() {
    assert_eq!(parse_fnames("not an index"), None);
    assert_eq!(parse_fnames("[1, 2]"), None);
}
