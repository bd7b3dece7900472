use gm_docs_parser::markdown::{image_run, Markdown, Style};

fn link(dest: &str) -> Style {
    Style::Hyperlink(dest.to_string())
}

fn harness(input: Vec<Markdown>, output: Vec<Markdown>) {
    let simp = Markdown::simplify_markdown(input);

    assert_eq!(simp, output);
}

#[test]
fn test_whatever() {
    harness(
        vec![
            Markdown::new("a".to_string(), Style::CodeFull),
            Markdown::new("b".to_string(), Style::CodeFull),
        ],
        vec![Markdown::new("ab".to_string(), Style::CodeFull)],
    );

    harness(
        vec![
            Markdown::new("a".to_string(), Style::CodeFull),
            Markdown::new("b".to_string(), Style::Bold),
            Markdown::new("c".to_string(), Style::CodeFull),
        ],
        vec![
            Markdown::new("a".to_string(), Style::CodeFull),
            Markdown::new("b".to_string(), Style::Bold),
            Markdown::new("c".to_string(), Style::CodeFull),
        ],
    );

    harness(
        vec![
            Markdown::new("a".to_string(), Style::CodeFull),
            Markdown::new("b".to_string(), Style::Bold),
            Markdown::new("b".to_string(), Style::Bold),
            Markdown::new("c".to_string(), Style::CodeFull),
        ],
        vec![
            Markdown::new("a".to_string(), Style::CodeFull),
            Markdown::new("bb".to_string(), Style::Bold),
            Markdown::new("c".to_string(), Style::CodeFull),
        ],
    );

    harness(
        vec![
            Markdown::new("a".to_string(), link("hey")),
            Markdown::new("a".to_string(), link("hey")),
        ],
        vec![
            Markdown::new("a".to_string(), link("hey")),
            Markdown::new("a".to_string(), link("hey")),
        ],
    );

    harness(
        vec![
            Markdown::new("a".to_string(), link("hey")),
            Markdown::new("b".to_string(), Style::Italic),
            Markdown::new("a".to_string(), link("hey")),
        ],
        vec![
            Markdown::new("a".to_string(), link("hey")),
            Markdown::new("b".to_string(), Style::Italic),
            Markdown::new("a".to_string(), link("hey")),
        ],
    );

    harness(
        vec![
            Markdown::new("a".to_string(), link("hey")),
            Markdown::new("a".to_string(), link("hey")),
            Markdown::new("b".to_string(), Style::Italic),
            Markdown::new("hello".to_string(), Style::Italic),
        ],
        vec![
            Markdown::new("a".to_string(), link("hey")),
            Markdown::new("a".to_string(), link("hey")),
            Markdown::new("bhello".to_string(), Style::Italic),
        ],
    );
}

#[test]
fn simplify_empty_input_is_empty() {
    harness(vec![], vec![]);
}

#[test]
fn simplify_single_run_is_kept() {
    harness(
        vec![Markdown::new("only".to_string(), Style::Tooltip("tooltip".to_string()))],
        vec![Markdown::new("only".to_string(), Style::Tooltip("tooltip".to_string()))],
    );
}

#[test]
fn simplify_merges_a_long_stretch() {
    harness(
        vec![
            Markdown::new("a".to_string(), Style::Plain),
            Markdown::new("b".to_string(), Style::Plain),
            Markdown::new("c".to_string(), Style::Plain),
            Markdown::new("d".to_string(), Style::CodeSnippet),
        ],
        vec![
            Markdown::new("abc".to_string(), Style::Plain),
            Markdown::new("d".to_string(), Style::CodeSnippet),
        ],
    );
}

#[test]
fn simplify_never_merges_tooltips() {
    harness(
        vec![
            Markdown::new("a".to_string(), Style::Tooltip("tooltip".to_string())),
            Markdown::new("a".to_string(), Style::Tooltip("tooltip".to_string())),
        ],
        vec![
            Markdown::new("a".to_string(), Style::Tooltip("tooltip".to_string())),
            Markdown::new("a".to_string(), Style::Tooltip("tooltip".to_string())),
        ],
    );
}

#[test]
fn simplify_twice_is_simplify_once() {
    let input = vec![
        Markdown::new("a".to_string(), Style::Bold),
        Markdown::new("b".to_string(), Style::Bold),
        Markdown::new("x".to_string(), link("hey")),
        Markdown::new("x".to_string(), link("hey")),
        Markdown::new("c".to_string(), Style::Plain),
        Markdown::new("d".to_string(), Style::Plain),
        Markdown::new("e".to_string(), Style::Italic),
    ];
    let once = Markdown::simplify_markdown(input);
    let twice = Markdown::simplify_markdown(once.clone());
    assert_eq!(once.len(), 5);
    assert_eq!(once, twice);
}

#[test]
fn combinatorial_styles() {
    assert!(Style::Plain.is_combinatorial());
    assert!(Style::Bold.is_combinatorial());
    assert!(Style::Italic.is_combinatorial());
    assert!(Style::CodeSnippet.is_combinatorial());
    assert!(Style::CodeFull.is_combinatorial());
    assert!(!link("x").is_combinatorial());
    assert!(!Style::Tooltip("t".to_string()).is_combinatorial());
}

#[test]
fn default_style_is_plain() {
    assert_eq!(Style::default(), Style::Plain);
}

#[test]
fn same_compares_payloads() {
    assert!(link("a").same(&link("a")));
    assert!(!link("a").same(&link("b")));
    assert!(!link("a").same(&Style::Tooltip("a".to_string())));
    assert!(Style::Bold.same(&Style::Bold));
    assert!(!Style::Bold.same(&Style::Italic));
    assert_eq!(link("a").duplicate(), link("a"));
}

#[test]
fn render_each_style() {
    let run = |style: Style| Markdown::new("  text \n".to_string(), style).to_string();
    assert_eq!(run(Style::Plain), "text");
    assert_eq!(run(Style::Bold), "**text**");
    assert_eq!(run(Style::Italic), "*text*");
    assert_eq!(run(Style::CodeSnippet), "`text`");
    assert_eq!(run(Style::CodeFull), "```\ntext\n```");
    assert_eq!(run(Style::Tooltip("tooltip".to_string())), "text (tooltip)");
}

#[test]
fn render_hyperlink_resolves_destination() {
    let md = Markdown::new(" here ".to_string(), link("GameMaker_Language/a b.htm"));
    assert_eq!(
        md.to_string(),
        "[here](https://manual.yoyogames.com/GameMaker_Language/a%20b.htm)"
    );
}

#[test]
fn render_with_given_link() {
    let md = Markdown::new(" here ".to_string(), link("ignored"));
    assert_eq!(md.render_with(Some("https://example.org/")), "[here](https://example.org/)");
    assert_eq!(md.render_with(None), "here");
}

#[test]
fn image_run_formats_alt_text() {
    assert_eq!(
        image_run("logo", Some("https://example.org/l.png")),
        Markdown::new("[logo](https://example.org/l.png)".to_string(), Style::Plain)
    );
    assert_eq!(image_run("logo", None), Markdown::new("logo".to_string(), Style::Plain));
}
