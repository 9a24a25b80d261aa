use json_tree::node::{NodeType, Scalar};
use json_tree::render::Line;
use json_tree::tree::Tree;
use json_tree::value::JsonValue;

fn num(n: &str) -> JsonValue {
    JsonValue::Number(n.to_string())
}

fn obj(entries: Vec<(&str, JsonValue)>) -> JsonValue {
    JsonValue::Object(entries.into_iter().map(|(k, v)| (k.to_string(), v)).collect())
}

fn sample() -> JsonValue {
    obj(vec![("a", num("1")), ("b", JsonValue::Array(vec![num("2"), num("3")]))])
}

fn plain(lines: &[Line]) -> Vec<String> {
    lines.iter().map(|l| l.spans.iter().map(|s| s.text.as_str()).collect::<String>()).collect()
}

fn highlighted_count(t: &Tree) -> usize {
    (0..t.node_count()).filter(|&k| t.key_to_node(k).highlighted).count()
}

#[test]
fn object_scenario_moves_and_collapses() {
    let mut t = Tree::from_value(&sample());
    assert_eq!(t.current(), t.root());
    assert_eq!(t.find_current_line(), 0);
    assert!(t.key_to_node(t.root()).highlighted);

    let a = t.next_node_down().unwrap();
    assert!(matches!(&t.key_to_node(a).node, NodeType::Terminal(Scalar::Number(n)) if n == "1"));
    assert_eq!(t.find_current_line(), 1);

    let b = t.next_node_down().unwrap();
    assert!(matches!(&t.key_to_node(b).node, NodeType::NonTerminal(v) if v.is_array()));
    assert_eq!(t.find_current_line(), 2);

    t.toggle_current_node_visibility();
    assert_eq!(t.next_node_down(), None);
    assert_eq!(t.current(), b);
    assert_eq!(t.find_current_line(), 2);
}

#[test]
fn sequence_scenario_moves_up_to_root() {
    let mut t = Tree::from_value(&JsonValue::Array(vec![num("10"), num("20"), num("30")]));
    let first = t.next_node_down().unwrap();
    let second = t.next_node_down().unwrap();
    assert_eq!(t.current(), second);
    assert_eq!(t.next_node_up(), Some(first));
    assert_eq!(t.next_node_up(), Some(t.root()));
    assert_eq!(t.next_node_up(), None);
    assert_eq!(t.current(), t.root());
}

#[test]
fn down_then_up_returns_to_start() {
    let doc = obj(vec![
        ("x", JsonValue::Array(vec![obj(vec![("y", JsonValue::Null)]), JsonValue::Bool(true)])),
        ("z", JsonValue::Str("s".to_string())),
    ]);
    let mut t = Tree::from_value(&doc);
    let mut visited = vec![t.current()];
    while let Some(k) = t.next_node_down() {
        visited.push(k);
    }
    assert_eq!(visited.len(), t.node_count());
    for w in visited.windows(2).rev() {
        assert_eq!(t.next_node_up(), Some(w[0]));
        assert_eq!(t.next_node_down(), Some(w[1]));
        assert_eq!(t.next_node_up(), Some(w[0]));
    }
}

#[test]
fn walk_skips_collapsed_subtree_in_preorder() {
    let doc = JsonValue::Array(vec![
        JsonValue::Array(vec![num("1"), num("2")]),
        num("3"),
    ]);
    let mut t = Tree::from_value(&doc);
    let inner = t.next_node_down().unwrap();
    t.toggle_current_node_visibility();
    let last = t.next_node_down().unwrap();
    assert!(matches!(&t.key_to_node(last).node, NodeType::Terminal(Scalar::Number(n)) if n == "3"));
    assert_eq!(t.next_node_down(), None);
    assert_eq!(t.next_node_up(), Some(inner));
}

#[test]
fn exactly_one_highlight_after_moves() {
    let mut t = Tree::from_value(&sample());
    assert_eq!(highlighted_count(&t), 1);
    for step in 0..12 {
        if step % 3 == 2 {
            t.next_node_up();
        } else {
            t.next_node_down();
        }
        assert_eq!(highlighted_count(&t), 1);
        assert!(t.key_to_node(t.current()).highlighted);
    }
}

#[test]
fn toggle_highlight_flips_current_only() {
    let mut t = Tree::from_value(&sample());
    t.toggle_current_node_highlight();
    assert_eq!(highlighted_count(&t), 0);
    t.toggle_current_node_highlight();
    assert_eq!(highlighted_count(&t), 1);
    t.next_node_down();
    t.toggle_current_node_highlight();
    t.highlight_current_node();
    assert!(t.key_to_node(t.current()).highlighted);
}

#[test]
fn empty_composites_are_leaves() {
    let doc = JsonValue::Array(vec![JsonValue::Array(vec![]), obj(vec![]), num("5")]);
    let mut t = Tree::from_value(&doc);
    let e1 = t.next_node_down().unwrap();
    let e2 = t.next_node_down().unwrap();
    let five = t.next_node_down().unwrap();
    assert_eq!(t.next_node_down(), None);
    assert_eq!(t.next_node_up(), Some(e2));
    assert_eq!(t.next_node_up(), Some(e1));
    assert_ne!(e1, five);
    assert_eq!(
        plain(&t.to_text()),
        vec!["[", "  [", "  ],", "  {", "  },", "  5", "]"]
    );
}

#[test]
fn toggling_a_terminal_changes_nothing() {
    let mut t = Tree::from_value(&sample());
    t.next_node_down();
    let before = plain(&t.to_text());
    t.toggle_current_node_visibility();
    assert_eq!(plain(&t.to_text()), before);
}
