use webhub_handler::json::JsonValue;
use webhub_handler::render::{
    apply_boolean_attribute, apply_complex_attribute, apply_dynamic_attribute, apply_static_attribute,
    apply_template_attribute, attribute_kind, begin_attribute, condition_result, loop_items,
    render_template_attr_value, strip_binding_prefix, AttributeFragment, AttributeKind, ConditionOutcome, TemplatePart,
};
use webhub_handler::scope::RenderScope;
use webhub_handler::{BufferWriter, HandlerError};

fn attr(name: &str, value: &str) -> AttributeFragment {
    AttributeFragment {
        name: name.to_string(),
        value: value.to_string(),
        template: String::new(),
        raw_value: false,
        complex: false,
        attr_start: false,
        attr_skip: false,
        has_condition: false,
    }
}

fn s(text: &str) -> JsonValue {
    JsonValue::String(text.to_string())
}

#[test]
fn attribute_kinds_follow_priority_order() {
    let mut a = attr("x", "v");
    assert_eq!(attribute_kind(&a), AttributeKind::Dynamic);
    a.complex = true;
    assert_eq!(attribute_kind(&a), AttributeKind::Complex);
    a.raw_value = true;
    assert_eq!(attribute_kind(&a), AttributeKind::Static);
    a.template = "tpl".to_string();
    assert_eq!(attribute_kind(&a), AttributeKind::Template);
    a.has_condition = true;
    assert_eq!(attribute_kind(&a), AttributeKind::Boolean);
    assert_eq!(attribute_kind(&attr("x", "")), AttributeKind::Empty);
}

#[test]
fn dynamic_attribute_with_string_value() {
    let mut scope = RenderScope::new();
    let mut w = BufferWriter::new();
    apply_dynamic_attribute(&attr("value", "inputValue"), Some(s("Hello")), "value", &mut scope, &mut w).unwrap();
    assert_eq!(w.content(), " value=\"Hello\"");
    assert!(matches!(scope.component_attrs.get("value"), Some(JsonValue::String(v)) if v == "Hello"));
}

#[test]
fn dynamic_attribute_with_falsy_numeric_value() {
    let mut scope = RenderScope::new();
    let mut w = BufferWriter::new();
    let zero = JsonValue::Number("0".to_string());
    apply_dynamic_attribute(&attr("handle", "number"), Some(zero), "handle", &mut scope, &mut w).unwrap();
    assert_eq!(w.content(), " handle=\"0\"");
}

#[test]
fn dynamic_attribute_array_value_is_escaped() {
    let mut scope = RenderScope::new();
    let mut w = BufferWriter::new();
    let value = JsonValue::Array(vec![s("\" autofocus onfocus=alert(1) x=\"")]);
    apply_dynamic_attribute(&attr("href", "value"), Some(value), "href", &mut scope, &mut w).unwrap();
    let content = w.content();
    assert!(!content.contains("\" autofocus"), "{content}");
    assert_eq!(content.matches('=').count(), 3, "{content}");
    assert_eq!(content.matches('"').count(), 2, "{content}");
}

#[test]
fn dynamic_attribute_missing_or_null_value_is_empty() {
    let mut scope = RenderScope::new();
    let mut w = BufferWriter::new();
    apply_dynamic_attribute(&attr("title", "missing"), None, "title", &mut scope, &mut w).unwrap();
    apply_dynamic_attribute(&attr("alt", "nothing"), Some(JsonValue::Null), "alt", &mut scope, &mut w).unwrap();
    assert_eq!(w.content(), " title=\"\" alt=\"\"");
    assert!(matches!(scope.component_attrs.get("title"), Some(JsonValue::String(v)) if v.is_empty()));
    assert!(matches!(scope.component_attrs.get("alt"), Some(JsonValue::Null)));
}

#[test]
fn skipped_attribute_is_written_but_not_recorded() {
    let mut scope = RenderScope::new();
    let mut w = BufferWriter::new();
    let mut a = attr("class", "cls");
    a.attr_skip = true;
    apply_dynamic_attribute(&a, Some(s("big")), "class", &mut scope, &mut w).unwrap();
    assert_eq!(w.content(), " class=\"big\"");
    assert!(scope.component_attrs.get("class").is_none());
}

#[test]
fn boolean_attribute_present_only_when_condition_holds() {
    let mut scope = RenderScope::new();
    let mut w = BufferWriter::new();
    let mut a = attr("disabled", "isDisabled");
    a.has_condition = true;
    apply_boolean_attribute(&a, true, "disabled", &mut scope, &mut w).unwrap();
    assert_eq!(w.content(), " disabled");
    assert!(matches!(scope.component_attrs.get("disabled"), Some(JsonValue::Bool(true))));
    let mut w2 = BufferWriter::new();
    apply_boolean_attribute(&a, false, "disabled", &mut scope, &mut w2).unwrap();
    assert_eq!(w2.content(), "");
    assert!(matches!(scope.component_attrs.get("disabled"), Some(JsonValue::Bool(false))));
}

#[test]
fn template_attribute_is_escaped_but_recorded_raw() {
    let value = JsonValue::Number("3".to_string());
    let parts = [TemplatePart::Raw("a<b "), TemplatePart::Signal(Some(&value)), TemplatePart::Signal(None)];
    let raw = render_template_attr_value(&parts);
    assert_eq!(raw, "a<b 3");
    let mut scope = RenderScope::new();
    let mut w = BufferWriter::new();
    apply_template_attribute(&attr("title", ""), raw, "title", &mut scope, &mut w).unwrap();
    assert_eq!(w.content(), " title=\"a&lt;b 3\"");
    assert!(matches!(scope.component_attrs.get("title"), Some(JsonValue::String(v)) if v == "a<b 3"));
}

#[test]
fn static_attribute_is_written_verbatim() {
    let mut scope = RenderScope::new();
    let mut w = BufferWriter::new();
    let mut a = attr("type", "text");
    a.raw_value = true;
    apply_static_attribute(&a, "type", &mut scope, &mut w).unwrap();
    assert_eq!(w.content(), " type=\"text\"");
    assert!(matches!(scope.component_attrs.get("type"), Some(JsonValue::String(v)) if v == "text"));
}

#[test]
fn complex_attribute_is_recorded_and_not_written() {
    let mut scope = RenderScope::new();
    let mut a = attr(":items", "list");
    a.complex = true;
    let list = JsonValue::Array(vec![s("x")]);
    apply_complex_attribute(&a, Some(list), "items", &mut scope);
    assert!(matches!(scope.component_attrs.get("items"), Some(JsonValue::Array(v)) if v.len() == 1));
    apply_complex_attribute(&a, None, "other", &mut scope);
    assert!(scope.component_attrs.get("other").is_none());
}

#[test]
fn first_component_attribute_clears_earlier_ones() {
    let mut scope = RenderScope::new();
    scope.record_component_attr("stale".to_string(), s("old"));
    let mut a = attr("x", "y");
    begin_attribute(&a, &mut scope);
    assert!(scope.component_attrs.get("stale").is_some());
    a.attr_start = true;
    begin_attribute(&a, &mut scope);
    assert!(scope.component_attrs.get("stale").is_none());
}

#[test]
fn binding_prefix_is_stripped_once() {
    assert_eq!(strip_binding_prefix(":items"), "items");
    assert_eq!(strip_binding_prefix("::x"), ":x");
    assert_eq!(strip_binding_prefix("plain"), "plain");
    assert_eq!(strip_binding_prefix(""), "");
}

#[test]
fn condition_outcomes() {
    assert!(condition_result(ConditionOutcome::Holds(true)).unwrap());
    assert!(!condition_result(ConditionOutcome::Holds(false)).unwrap());
    assert!(!condition_result(ConditionOutcome::MissingValue).unwrap());
    match condition_result(ConditionOutcome::Failed("bad op".to_string())) {
        Err(HandlerError::Evaluation(m)) => assert_eq!(m, "bad op"),
        other => panic!("unexpected {other:?}"),
    }
}

#[test]
fn loop_items_of_array_missing_and_scalar() {
    let items = loop_items(Some(JsonValue::Array(vec![s("a"), s("b")])), "list").unwrap();
    assert_eq!(items.len(), 2);
    assert!(loop_items(None, "list").unwrap().is_empty());
    match loop_items(Some(s("nope")), "list") {
        Err(HandlerError::TypeError(m)) => assert_eq!(m, "Collection 'list' is not an array"),
        other => panic!("unexpected {other:?}"),
    }
}

#[test]
fn boolean_attribute_without_condition_succeeds_silently() {
    let mut scope = RenderScope::new();
    let mut w = BufferWriter::new();
    let mut a = attr("hidden", "flag");
    a.has_condition = true;
    assert!(apply_boolean_attribute(&a, false, "hidden", &mut scope, &mut w).is_ok());
    assert_eq!(w.content(), "");
}
