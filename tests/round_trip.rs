use json_tree::render::Line;
use json_tree::tree::Tree;
use json_tree::value::JsonValue;
use serde_json::Value;

fn to_document(v: &Value) -> JsonValue {
    match v {
        Value::Null => JsonValue::Null,
        Value::Bool(b) => JsonValue::Bool(*b),
        Value::Number(n) => JsonValue::Number(n.to_string()),
        Value::String(s) => JsonValue::Str(s.clone()),
        Value::Array(items) => JsonValue::Array(items.iter().map(to_document).collect()),
        Value::Object(map) => {
            JsonValue::Object(map.iter().map(|(k, v)| (k.clone(), to_document(v))).collect())
        }
    }
}

fn joined(lines: &[Line]) -> String {
    lines
        .iter()
        .map(|l| l.spans.iter().map(|s| s.text.as_str()).collect::<String>())
        .collect::<Vec<_>>()
        .join("\n")
}

fn round_trip(src: &str) {
    let source_value: Value = serde_json::from_str(src).unwrap();
    let tree = Tree::from_value(&to_document(&source_value));
    let printed = joined(&tree.to_text());
    let reparsed: Value = serde_json::from_str(&printed).unwrap();
    assert_eq!(reparsed, source_value);
}

#[test]
fn rendered_document_reparses_to_same_value() {
    round_trip(r#"{"a": 1, "b": [2, 3]}"#);
    round_trip(r#"[null, true, false, -1.5, "x y", {"k": [], "m": {}}, [[1], [2, [3]]]]"#);
    round_trip("42");
    round_trip(r#""alone""#);
}
