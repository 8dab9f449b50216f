use minidom::css::parse_css;

#[test]
fn empty_input_yields_empty_rule_list() {
    let sheet = parse_css("");
    assert!(sheet.rules.is_empty());
}

#[test]
fn single_rule_with_declarations() {
    let sheet = parse_css("p{color:red;margin:0}");
    assert_eq!(sheet.rules.len(), 1);
    assert_eq!(sheet.rules[0].selector, vec!["p".to_string()]);
    assert_eq!(
        sheet.rules[0].declarations,
        vec![
            ("color".to_string(), "red".to_string()),
            ("margin".to_string(), "0".to_string()),
        ]
    );
}

#[test]
fn style_pipeline_round_trip_is_idempotent() {
    let sheet = parse_css("p{color:red;margin:0}");
    assert_eq!(sheet.rules.len(), 1);
    let first = sheet.rules[0].declarations.clone();
    let mut again = String::new();
    again.push_str("p{");
    for (i, (prop, value)) in first.iter().enumerate() {
        if i > 0 {
            again.push(';');
        }
        again.push_str(prop);
        again.push(':');
        again.push_str(value);
    }
    again.push('}');
    let reparsed = parse_css(&again);
    assert_eq!(reparsed.rules.len(), 1);
    assert_eq!(reparsed.rules[0].selector, sheet.rules[0].selector);
    assert_eq!(reparsed.rules[0].declarations, first);
}

#[test]
fn selector_groups_split_on_commas_and_trim() {
    let sheet = parse_css("a, b.c { x:1 }");
    assert_eq!(sheet.rules.len(), 1);
    assert_eq!(
        sheet.rules[0].selector,
        vec!["a".to_string(), "b.c".to_string()]
    );
    assert_eq!(
        sheet.rules[0].declarations,
        vec![("x".to_string(), "1".to_string())]
    );
}

#[test]
fn empty_selector_pieces_are_dropped() {
    let sheet = parse_css("a,,b{x:1}");
    assert_eq!(
        sheet.rules[0].selector,
        vec!["a".to_string(), "b".to_string()]
    );
}

#[test]
fn declaration_without_colon_gets_an_empty_value() {
    let sheet = parse_css("p{color}");
    assert_eq!(
        sheet.rules[0].declarations,
        vec![("color".to_string(), "".to_string())]
    );
}

#[test]
fn declaration_value_keeps_text_after_the_first_colon() {
    let sheet = parse_css("p{background: url:x }");
    assert_eq!(
        sheet.rules[0].declarations,
        vec![("background".to_string(), "url:x".to_string())]
    );
}

#[test]
fn unterminated_block_runs_to_end_of_input() {
    let sheet = parse_css("p{color:red");
    assert_eq!(sheet.rules.len(), 1);
    assert_eq!(
        sheet.rules[0].declarations,
        vec![("color".to_string(), "red".to_string())]
    );
}

#[test]
fn trailing_selector_text_without_a_block_is_discarded() {
    let sheet = parse_css("p{x:1} h1");
    assert_eq!(sheet.rules.len(), 1);
}

#[test]
fn several_rules_keep_their_order() {
    let sheet = parse_css("body{m:0}\nh1, h2 {c: blue; w : bold }\np{}");
    assert_eq!(sheet.rules.len(), 3);
    assert_eq!(sheet.rules[0].selector, vec!["body".to_string()]);
    assert_eq!(
        sheet.rules[0].declarations,
        vec![("m".to_string(), "0".to_string())]
    );
    assert_eq!(
        sheet.rules[1].selector,
        vec!["h1".to_string(), "h2".to_string()]
    );
    assert_eq!(
        sheet.rules[1].declarations,
        vec![
            ("c".to_string(), "blue".to_string()),
            ("w".to_string(), "bold".to_string()),
        ]
    );
    assert_eq!(sheet.rules[2].selector, vec!["p".to_string()]);
    assert!(sheet.rules[2].declarations.is_empty());
}

#[test]
fn empty_declaration_pieces_are_dropped() {
    let sheet = parse_css("p{ ; a:1 ;; b:2 ; }");
    assert_eq!(
        sheet.rules[0].declarations,
        vec![
            ("a".to_string(), "1".to_string()),
            ("b".to_string(), "2".to_string()),
        ]
    );
}
