use minidom::css::parse_css;
use minidom::dom::{parse_attribute, parse_html};

#[test]
fn tree_renders_as_indented_lines() {
    let dom = parse_html("<a x=\"1\">hi</a>");
    assert_eq!(dom.render(), "a: [x=\"1\"]\n  Text: [value=\"hi\"]\n");
}

#[test]
fn attribute_less_node_renders_without_brackets() {
    let dom = parse_html("<a><b></b></a>");
    assert_eq!(dom.render(), "a:\n  b:\n");
}

#[test]
fn empty_root_renders_as_a_bare_text_line() {
    let dom = parse_html("");
    assert_eq!(dom.render(), "Text:\n");
}

#[test]
fn deeper_levels_indent_two_spaces_each() {
    let dom = parse_html("<a><b><c></c></b></a>");
    assert_eq!(dom.render(), "a:\n  b:\n    c:\n");
}

#[test]
fn stylesheet_renders_one_line_per_selector() {
    let sheet = parse_css("a, b.c { x:1 }");
    assert_eq!(
        sheet.render(),
        "a:\t [x=\"1\"]\nb.c:\t [x=\"1\"]\n"
    );
}

#[test]
fn stylesheet_renders_empty_declarations_as_empty_brackets() {
    let sheet = parse_css("p{}");
    assert_eq!(sheet.render(), "p:\t []\n");
}

#[test]
fn stylesheet_render_separates_pairs_with_commas() {
    let sheet = parse_css("p{color:red;margin:0}");
    assert_eq!(sheet.render(), "p:\t [color=\"red\", margin=\"0\"]\n");
}

#[test]
fn parse_attribute_reads_one_pair_and_reports_the_next_index() {
    let chars: Vec<char> = "k=\"v\" rest".chars().collect();
    let (key, value, next) = parse_attribute(&chars, 0);
    assert_eq!(key, "k");
    assert_eq!(value, "v");
    assert_eq!(next, 5);
}

#[test]
fn parse_attribute_without_equals_gives_an_empty_value() {
    let chars: Vec<char> = "disabled>".chars().collect();
    let (key, value, next) = parse_attribute(&chars, 0);
    assert_eq!(key, "disabled");
    assert_eq!(value, "");
    assert_eq!(next, 8);
}
