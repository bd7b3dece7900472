use gm_docs_parser::manual::GmManualFunctionParameter;
use gm_docs_parser::parse_file::{has_inner_ellipsis, is_row_optional, parse_signature, reconcile, Arg, Data};

fn row(parameter: &str, description: &str) -> GmManualFunctionParameter {
    GmManualFunctionParameter {
        parameter: parameter.to_string(),
        description: description.to_string(),
    }
}

#[test]
fn bracket_spans_several_tokens() {
    assert_eq!(
        parse_signature("f(a, b [, c, d])"),
        (vec![Arg::Required, Arg::Required, Arg::Optional, Arg::Optional], false, true)
    );
}

#[test]
fn dots_inside_a_token_mean_variadic() {
    assert_eq!(
        parse_signature("choose(val0, val1, val2... max_val)"),
        (vec![Arg::Required, Arg::Required, Arg::Required], true, true)
    );
}

#[test]
fn no_parentheses_is_not_callable() {
    assert_eq!(parse_signature("mouse_x"), (vec![], false, false));
    assert_eq!(parse_signature(""), (vec![], false, false));
    assert_eq!(parse_signature("a, b, [c]..."), (vec![], false, false));
}

#[test]
fn one_parenthesis_is_not_callable() {
    assert_eq!(parse_signature("f(a, b"), (vec![], false, false));
    assert_eq!(parse_signature("f a, b)"), (vec![], false, false));
}

#[test]
fn closing_before_opening_is_not_callable() {
    assert_eq!(parse_signature(")a, b("), (vec![], false, false));
}

#[test]
fn empty_parameter_list_is_callable() {
    assert_eq!(parse_signature("f()"), (vec![], false, true));
    assert_eq!(parse_signature("f(   )"), (vec![], false, true));
    assert_eq!(parse_signature("f( , )"), (vec![], false, true));
}

#[test]
fn single_short_parameter_counts() {
    assert_eq!(parse_signature("f(a)"), (vec![Arg::Required], false, true));
}

#[test]
fn bracket_opens_and_closes_within_a_token() {
    assert_eq!(
        parse_signature("f(x, y, [z])"),
        (vec![Arg::Required, Arg::Required, Arg::Optional], false, true)
    );
    assert_eq!(
        parse_signature("f([a], b)"),
        (vec![Arg::Optional, Arg::Required], false, true)
    );
    assert_eq!(
        parse_signature("f(a [, b], c)"),
        (vec![Arg::Required, Arg::Optional, Arg::Required], false, true)
    );
}

#[test]
fn only_the_first_pair_of_parentheses_counts() {
    assert_eq!(
        parse_signature("f(a, b) or g(c)"),
        (vec![Arg::Required, Arg::Required], false, true)
    );
}

#[test]
fn signature_inside_a_code_fence() {
    assert_eq!(
        parse_signature("```\nds_list_add(id, val1 [, val2, ... max_val]);\n```"),
        (vec![Arg::Required, Arg::Required, Arg::Optional, Arg::Optional], true, true)
    );
}

#[test]
fn row_hint_upgrades_a_required_position() {
    let data = reconcile(
        &vec![Arg::Required, Arg::Required, Arg::Optional],
        false,
        vec![
            row("x", "The x position"),
            row("y", "The y position, optional"),
            row("z", "The z position"),
        ],
    );
    assert_eq!(
        data,
        Data::Function {
            parameters: vec![
                row("x", "The x position"),
                row("y", "The y position, optional"),
                row("z", "The z position"),
            ],
            required_parameters: 1,
            is_variadic: false,
        }
    );
}

#[test]
fn optional_position_is_never_downgraded() {
    let data = reconcile(
        &vec![Arg::Optional, Arg::Required],
        false,
        vec![row("a", "plain"), row("b", "plain")],
    );
    assert_eq!(
        data,
        Data::Function {
            parameters: vec![row("a", "plain"), row("b", "plain")],
            required_parameters: 0,
            is_variadic: false,
        }
    );
}

#[test]
fn rows_beyond_the_signature_are_required() {
    let data = reconcile(
        &vec![Arg::Required],
        false,
        vec![row("a", ""), row("b", ""), row("c", "Optional thing")],
    );
    assert_eq!(
        data,
        Data::Function {
            parameters: vec![row("a", ""), row("b", ""), row("c", "Optional thing")],
            required_parameters: 2,
            is_variadic: false,
        }
    );
}

#[test]
fn all_required_counts_every_row() {
    let data = reconcile(&vec![], false, vec![row("a", ""), row("b", "")]);
    assert_eq!(
        data,
        Data::Function {
            parameters: vec![row("a", ""), row("b", "")],
            required_parameters: 2,
            is_variadic: false,
        }
    );
}

#[test]
fn required_count_stays_within_the_rows() {
    let data = reconcile(&vec![Arg::Required, Arg::Required, Arg::Optional], true, vec![]);
    assert_eq!(
        data,
        Data::Function { parameters: vec![], required_parameters: 0, is_variadic: true }
    );
}

#[test]
fn row_ellipsis_means_variadic_unless_trailing() {
    let variadic = |parameter: &str, description: &str| match reconcile(
        &vec![],
        false,
        vec![row(parameter, description)],
    ) {
        Data::Function { is_variadic, .. } => is_variadic,
        Data::Variable => false,
    };
    assert!(variadic("val1 ... max_val", "values"));
    assert!(variadic("val", "one, two .. and more"));
    assert!(!variadic("val", "and so on.."));
    assert!(!variadic("val...", "values"));
    assert!(!variadic("val", "values"));
    assert!(variadic("val...", "a..b"));
}

#[test]
fn ellipsis_and_optional_hints() {
    assert!(has_inner_ellipsis("a..b"));
    assert!(has_inner_ellipsis("..b"));
    assert!(!has_inner_ellipsis("ab.."));
    assert!(!has_inner_ellipsis(".."));
    assert!(!has_inner_ellipsis("a.b"));
    assert!(!has_inner_ellipsis("a..b.."));
    assert!(is_row_optional(&row("[optional] x", "")));
    assert!(is_row_optional(&row("x", "Optional.")));
    assert!(!is_row_optional(&row("x", "OPTIONAL")));
    assert!(!is_row_optional(&row("x", "option")));
}
