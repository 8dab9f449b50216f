use minidom::dom::parse_html;

#[test]
fn empty_input_yields_empty_root() {
    let dom = parse_html("");
    assert_eq!(dom.nodes.len(), 1);
    assert_eq!(dom.nodes[0].tag, None);
    assert!(dom.nodes[0].attributes.is_empty());
    assert!(dom.nodes[0].children.is_empty());
    assert_eq!(dom.nodes[0].parent, None);
}

#[test]
fn whitespace_only_input_yields_empty_root() {
    let dom = parse_html("   \n\t ");
    assert_eq!(dom.nodes.len(), 1);
    assert_eq!(dom.nodes[0].tag, None);
    assert!(dom.nodes[0].children.is_empty());
}

#[test]
fn single_element() {
    let dom = parse_html("<a></a>");
    assert_eq!(dom.nodes.len(), 1);
    assert_eq!(dom.nodes[0].tag, Some("a".to_string()));
    assert!(dom.nodes[0].attributes.is_empty());
    assert!(dom.nodes[0].children.is_empty());
}

#[test]
fn duplicate_attribute_keys_are_preserved_in_order() {
    let dom = parse_html("<a x=\"1\" x=\"2\">");
    assert_eq!(dom.nodes.len(), 1);
    assert_eq!(dom.nodes[0].tag, Some("a".to_string()));
    assert_eq!(
        dom.nodes[0].attributes,
        vec![
            ("x".to_string(), "1".to_string()),
            ("x".to_string(), "2".to_string()),
        ]
    );
}

#[test]
fn attribute_forms() {
    let dom = parse_html("<a b c='d' e=f g=\"h\">");
    assert_eq!(
        dom.nodes[0].attributes,
        vec![
            ("b".to_string(), "".to_string()),
            ("c".to_string(), "d".to_string()),
            ("e".to_string(), "f".to_string()),
            ("g".to_string(), "h".to_string()),
        ]
    );
}

#[test]
fn unterminated_quoted_value_runs_to_end_of_input() {
    let dom = parse_html("<a x=\"open");
    assert_eq!(dom.nodes.len(), 1);
    assert_eq!(
        dom.nodes[0].attributes,
        vec![("x".to_string(), "open".to_string())]
    );
}

#[test]
fn closing_tag_ascent_is_depth_based_not_name_matched() {
    let dom = parse_html("<a><b></a></b>");
    assert_eq!(dom.nodes.len(), 2);
    assert_eq!(dom.nodes[0].tag, Some("a".to_string()));
    assert_eq!(dom.nodes[0].children, vec![1]);
    assert_eq!(dom.nodes[1].tag, Some("b".to_string()));
    assert!(dom.nodes[1].children.is_empty());
    assert_eq!(dom.nodes[1].parent, Some(0));
}

#[test]
fn whitespace_only_text_run_is_dropped() {
    let dom = parse_html("<a>   </a>");
    assert_eq!(dom.nodes.len(), 1);
    assert_eq!(dom.nodes[0].tag, Some("a".to_string()));
    assert!(dom.nodes[0].children.is_empty());
}

#[test]
fn text_run_is_trimmed_into_a_text_leaf() {
    let dom = parse_html("<a>  hello world </a>");
    assert_eq!(dom.nodes.len(), 2);
    assert_eq!(dom.nodes[0].children, vec![1]);
    assert_eq!(dom.nodes[1].tag, None);
    assert_eq!(
        dom.nodes[1].attributes,
        vec![("value".to_string(), "hello world".to_string())]
    );
    assert_eq!(dom.nodes[1].parent, Some(0));
}

#[test]
fn text_before_any_element_creates_an_element_less_root() {
    let dom = parse_html("hi<a>");
    assert_eq!(dom.nodes.len(), 3);
    assert_eq!(dom.nodes[0].tag, None);
    assert_eq!(dom.nodes[0].children, vec![1, 2]);
    assert_eq!(dom.nodes[1].tag, None);
    assert_eq!(
        dom.nodes[1].attributes,
        vec![("value".to_string(), "hi".to_string())]
    );
    assert_eq!(dom.nodes[2].tag, Some("a".to_string()));
}

#[test]
fn text_runs_are_trimmed_of_unicode_whitespace() {
    let dom = parse_html("<a>\u{00A0}\u{2003}x\u{3000}</a>");
    assert_eq!(dom.nodes.len(), 2);
    assert_eq!(
        dom.nodes[1].attributes,
        vec![("value".to_string(), "x".to_string())]
    );
}

#[test]
fn excess_close_at_root_is_a_no_op() {
    let dom = parse_html("</x><a></a>");
    assert_eq!(dom.nodes.len(), 1);
    assert_eq!(dom.nodes[0].tag, Some("a".to_string()));
}

#[test]
fn sibling_after_closed_root_nests_under_it() {
    let dom = parse_html("<a></a><b></b>");
    assert_eq!(dom.nodes.len(), 2);
    assert_eq!(dom.nodes[0].tag, Some("a".to_string()));
    assert_eq!(dom.nodes[0].children, vec![1]);
    assert_eq!(dom.nodes[1].tag, Some("b".to_string()));
}

#[test]
fn unclosed_elements_stay_open_to_end_of_input() {
    let dom = parse_html("<a><b>deep");
    assert_eq!(dom.nodes.len(), 3);
    assert_eq!(dom.nodes[0].children, vec![1]);
    assert_eq!(dom.nodes[1].children, vec![2]);
    assert_eq!(dom.nodes[2].tag, None);
    assert_eq!(
        dom.nodes[2].attributes,
        vec![("value".to_string(), "deep".to_string())]
    );
}

#[test]
fn nested_document_structure() {
    let dom = parse_html("<html><body><h1 class=\"t\">Hi</h1><p>x</p></body></html>");
    assert_eq!(dom.nodes[0].tag, Some("html".to_string()));
    assert_eq!(dom.nodes[0].children, vec![1]);
    assert_eq!(dom.nodes[1].tag, Some("body".to_string()));
    assert_eq!(dom.nodes[1].children, vec![2, 4]);
    assert_eq!(dom.nodes[2].tag, Some("h1".to_string()));
    assert_eq!(
        dom.nodes[2].attributes,
        vec![("class".to_string(), "t".to_string())]
    );
    assert_eq!(dom.nodes[2].children, vec![3]);
    assert_eq!(
        dom.nodes[3].attributes,
        vec![("value".to_string(), "Hi".to_string())]
    );
    assert_eq!(dom.nodes[4].tag, Some("p".to_string()));
    assert_eq!(dom.nodes[4].children, vec![5]);
}

#[test]
fn every_non_root_node_sits_in_its_parents_child_list_once() {
    let inputs = [
        "",
        "text only",
        "<a><b></a></b>",
        "<a x=1><b><c></c></b><d></d></a>",
        "</></><a>< b>odd<a",
        "<html><body><p>one</p><p>two</p></body>",
    ];
    for input in inputs {
        let dom = parse_html(input);
        assert!(!dom.nodes.is_empty());
        assert_eq!(dom.nodes[0].parent, None);
        for i in 1..dom.nodes.len() {
            let p = dom.nodes[i].parent.expect("non-root node must have a parent");
            assert!(p < i);
            let occurrences = dom.nodes[p]
                .children
                .iter()
                .filter(|&&c| c == i)
                .count();
            assert_eq!(occurrences, 1);
        }
        for (i, node) in dom.nodes.iter().enumerate() {
            let mut last = i;
            for &c in &node.children {
                assert!(c > last);
                assert!(c < dom.nodes.len());
                assert_eq!(dom.nodes[c].parent, Some(i));
                last = c;
            }
        }
    }
}
