use json_tree::render::Line;
use json_tree::tree::Tree;
use json_tree::value::JsonValue;

fn num(n: &str) -> JsonValue {
    JsonValue::Number(n.to_string())
}

fn sample() -> JsonValue {
    JsonValue::Object(vec![
        ("a".to_string(), num("1")),
        ("b".to_string(), JsonValue::Array(vec![num("2"), num("3")])),
    ])
}

fn plain(lines: &[Line]) -> Vec<String> {
    lines.iter().map(|l| l.spans.iter().map(|s| s.text.as_str()).collect::<String>()).collect()
}

#[test]
fn renders_nested_document() {
    let t = Tree::from_value(&sample());
    assert_eq!(
        plain(&t.to_text()),
        vec!["{", "  \"a\": 1,", "  \"b\": [", "    2,", "    3", "  ]", "}"]
    );
    assert_eq!(t.line_count(), Some(7));
}

#[test]
fn renders_scalars() {
    let doc = JsonValue::Array(vec![
        JsonValue::Null,
        JsonValue::Bool(false),
        JsonValue::Str("hi".to_string()),
        num("-2.5"),
    ]);
    let t = Tree::from_value(&doc);
    assert_eq!(
        plain(&t.to_text()),
        vec!["[", "  null,", "  false,", "  \"hi\",", "  -2.5", "]"]
    );
}

#[test]
fn collapsed_nodes_take_one_line() {
    let mut t = Tree::from_value(&sample());
    t.next_node_down();
    t.next_node_down();
    t.toggle_current_node_visibility();
    assert_eq!(plain(&t.to_text()), vec!["{", "  \"a\": 1,", "  \"b\": [...]", "}"]);
    assert_eq!(t.line_count(), Some(4));
    assert_eq!(t.find_current_line(), 2);
    t.next_node_up();
    t.next_node_up();
    t.toggle_current_node_visibility();
    assert_eq!(plain(&t.to_text()), vec!["{...}"]);
}

#[test]
fn highlight_covers_only_own_lines() {
    let mut t = Tree::from_value(&sample());
    t.next_node_down();
    t.next_node_down();
    let text = t.to_text();
    let flags: Vec<bool> = text.iter().map(|l| l.spans.iter().any(|s| s.highlighted)).collect();
    assert_eq!(flags, vec![false, false, true, false, false, true, false]);
    assert!(text[5].spans.iter().all(|s| s.highlighted));
    let root_only = Tree::from_value(&sample()).to_text();
    assert!(root_only[0].spans[0].highlighted);
    assert!(!root_only[1].spans.iter().any(|s| s.highlighted));
}

#[test]
fn line_locator_matches_rendered_lines() {
    let mut t = Tree::from_value(&sample());
    let expected = [0usize, 1, 2, 3, 4];
    for (i, want) in expected.iter().enumerate() {
        if i > 0 {
            t.next_node_down();
        }
        assert_eq!(t.find_current_line(), *want);
    }
}

#[test]
fn collapse_keeps_earlier_lines() {
    let mut t = Tree::from_value(&sample());
    t.next_node_down();
    let a_line = t.find_current_line();
    t.next_node_down();
    t.toggle_current_node_visibility();
    t.next_node_up();
    assert_eq!(t.find_current_line(), a_line);
}
