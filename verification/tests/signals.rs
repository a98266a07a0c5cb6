use webhub_handler::encode_safe;
use webhub_handler::json::JsonValue;
use webhub_handler::render::{value_to_text, write_signal_value};
use webhub_handler::BufferWriter;

fn render_signal(value: &str) -> String {
    let mut writer = BufferWriter::new();
    write_signal_value(&JsonValue::String(value.to_string()), false, &mut writer).unwrap();
    writer.content().to_string()
}

#[test]
fn test_escape_ampersand() {
    assert_eq!(render_signal("&"), "&amp;");
}

#[test]
fn test_escape_less_than() {
    assert_eq!(render_signal("<"), "&lt;");
}

#[test]
fn test_escape_greater_than() {
    assert_eq!(render_signal(">"), "&gt;");
}

#[test]
fn test_escape_double_quote() {
    assert_eq!(render_signal("\""), "&quot;");
}

#[test]
fn test_escape_single_quote() {
    let result = render_signal("'");
    assert_eq!(result, "&#x27;", "Expected &#x27; for single quote, got: {result}");
}

#[test]
fn test_escape_multiple_special_chars() {
    let result = render_signal("<script>alert('xss');</script>");
    assert!(
        result.contains("&lt;") && result.contains("&gt;"),
        "Expected escaped HTML, got: {}",
        result
    );
    assert!(!result.contains("<script>"), "Should not contain raw <script> tag");
}

#[test]
fn test_escape_no_special_chars() {
    assert_eq!(render_signal("Hello World"), "Hello World");
}

#[test]
fn test_escape_empty_string() {
    assert_eq!(render_signal(""), "");
}

#[test]
fn test_escape_special_at_beginning() {
    let result = render_signal("<Hello");
    assert!(result.starts_with("&lt;"), "Expected &lt; at start, got: {}", result);
}

#[test]
fn test_escape_special_at_end() {
    let result = render_signal("Hello>");
    assert!(result.ends_with("&gt;"), "Expected &gt; at end, got: {}", result);
}

#[test]
fn test_escape_special_in_middle() {
    let result = render_signal("Hel&lo");
    assert!(result.contains("&amp;"), "Expected &amp; in middle, got: {}", result);
}

#[test]
fn test_raw_signal_not_escaped() {
    let value = JsonValue::String("<strong>hi</strong>".to_string());
    let mut writer = BufferWriter::new();
    write_signal_value(&value, false, &mut writer).unwrap();
    write_signal_value(&value, true, &mut writer).unwrap();
    assert_eq!(
        writer.content(),
        "&lt;strong&gt;hi&lt;&#x2F;strong&gt;<strong>hi</strong>"
    );
}

#[test]
fn encode_safe_escapes_every_critical_character() {
    assert_eq!(encode_safe("&<>\"'/"), "&amp;&lt;&gt;&quot;&#x27;&#x2F;");
    assert_eq!(encode_safe("plain text 123"), "plain text 123");
}

#[test]
fn encode_safe_output_contains_no_markup_characters() {
    let out = encode_safe("<a href=\"x\">it's</a>");
    assert!(!out.contains('<') && !out.contains('>') && !out.contains('"') && !out.contains('\''));
}

#[test]
fn non_string_signal_renders_as_compact_json() {
    let value = JsonValue::Array(vec![
        JsonValue::Number("1".to_string()),
        JsonValue::Bool(true),
        JsonValue::Null,
        JsonValue::String("a\"b".to_string()),
    ]);
    assert_eq!(value_to_text(&value), "[1,true,null,\"a\\\"b\"]");
    let mut writer = BufferWriter::new();
    write_signal_value(&value, false, &mut writer).unwrap();
    assert_eq!(writer.content(), "[1,true,null,&quot;a\\&quot;b&quot;]");
    let mut raw = BufferWriter::new();
    write_signal_value(&value, true, &mut raw).unwrap();
    assert_eq!(raw.content(), "[1,true,null,\"a\\\"b\"]");
}

#[test]
fn string_signal_value_text_is_unquoted() {
    assert_eq!(value_to_text(&JsonValue::String("hi".to_string())), "hi");
    assert_eq!(value_to_text(&JsonValue::Number("42".to_string())), "42");
}
