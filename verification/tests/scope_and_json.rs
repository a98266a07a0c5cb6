use webhub_handler::bootstrap::{write_script_safe_json, write_script_safe_json_str};
use webhub_handler::json::{json_to_string, push_json_array, push_json_str_list, script_safe_string, JsonValue};
use webhub_handler::plugin::fast_v3::{decode_element_data, route_state_json, route_state_scalars};
use webhub_handler::scope::{split_first_segment, LocalResolution, RenderScope, Vars};
use webhub_handler::writer::{decimal_string, write_attr, write_json_field_name, write_pieces, write_usize};
use webhub_handler::{BufferWriter, ResponseWriter};

fn s(text: &str) -> JsonValue {
    JsonValue::String(text.to_string())
}

fn text_of(v: Option<&JsonValue>) -> Option<String> {
    match v {
        Some(JsonValue::String(t)) => Some(t.clone()),
        _ => None,
    }
}

#[test]
fn nested_for_loops_reusing_same_variable_name_dont_corrupt_scope() {
    let mut scope = RenderScope::new();
    let outer = scope.begin_loop("item", true);
    assert!(outer.is_none());
    scope.set_loop_item("item", s("outer-1"));
    let inner = scope.begin_loop("item", true);
    assert_eq!(text_of(inner.as_ref()), Some("outer-1".to_string()));
    scope.set_loop_item("item", s("inner-1"));
    assert_eq!(text_of(scope.local_vars.get("item")), Some("inner-1".to_string()));
    scope.end_loop("item", inner);
    assert_eq!(text_of(scope.local_vars.get("item")), Some("outer-1".to_string()));
    scope.end_loop("item", outer);
    assert!(scope.local_vars.get("item").is_none());
}

#[test]
fn empty_loop_leaves_no_binding() {
    let mut scope = RenderScope::new();
    let saved = scope.begin_loop("row", false);
    scope.set_loop_item("row", s("never"));
    assert!(scope.local_vars.get("row").is_none());
    scope.end_loop("row", saved);
    assert!(scope.local_vars.get("row").is_none());
}

#[test]
fn component_scope_swaps_in_attributes_and_restores_parent() {
    let mut scope = RenderScope::new();
    let saved = scope.begin_loop("item", true);
    scope.set_loop_item("item", s("parent"));
    scope.record_component_attr("label".to_string(), s("child"));
    let parent = scope.enter_component();
    assert_eq!(text_of(scope.local_vars.get("label")), Some("child".to_string()));
    assert!(scope.local_vars.get("item").is_none());
    assert!(scope.component_attrs.get("label").is_none());
    scope.exit_component(parent);
    assert_eq!(text_of(scope.local_vars.get("item")), Some("parent".to_string()));
    assert!(scope.local_vars.get("label").is_none());
    scope.end_loop("item", saved);
}

#[test]
fn resolve_local_paths() {
    let mut scope = RenderScope::new();
    let saved = scope.begin_loop("user", true);
    scope.set_loop_item("user", JsonValue::Object(vec![("name".to_string(), s("Ann"))]));
    assert!(matches!(scope.resolve_local("user"), LocalResolution::Whole(JsonValue::Object(_))));
    assert!(matches!(scope.resolve_local("user.name"), LocalResolution::Nested(_, "name")));
    assert!(matches!(scope.resolve_local("title"), LocalResolution::NotLocal));
    assert!(matches!(scope.resolve_local("title.user"), LocalResolution::NotLocal));
    scope.end_loop("user", saved);
}

#[test]
fn split_first_segment_cases() {
    assert_eq!(split_first_segment("a.b.c"), ("a", Some("b.c")));
    assert_eq!(split_first_segment("abc"), ("abc", None));
    assert_eq!(split_first_segment(".x"), ("", Some("x")));
    assert_eq!(split_first_segment("x."), ("x", Some("")));
}

#[test]
fn vars_insert_get_remove_take() {
    let mut vars = Vars::new();
    vars.insert("a".to_string(), s("1"));
    vars.insert("a".to_string(), s("2"));
    assert_eq!(text_of(vars.get("a")), Some("2".to_string()));
    let removed = vars.remove("a");
    assert_eq!(text_of(removed.as_ref()), Some("2".to_string()));
    assert!(vars.get("a").is_none());
    vars.insert("b".to_string(), s("3"));
    let taken = vars.take();
    assert!(vars.get("b").is_none());
    assert_eq!(text_of(taken.get("b")), Some("3".to_string()));
}

#[test]
fn json_serialization_is_compact() {
    let v = JsonValue::Object(vec![
        ("a".to_string(), JsonValue::Array(vec![JsonValue::Number("1.5".to_string()), JsonValue::Null])),
        ("b".to_string(), JsonValue::Bool(false)),
        ("c".to_string(), JsonValue::Object(Vec::new())),
        ("d".to_string(), JsonValue::Array(Vec::new())),
    ]);
    assert_eq!(json_to_string(&v), "{\"a\":[1.5,null],\"b\":false,\"c\":{},\"d\":[]}");
    let copy = v.deep_clone();
    assert_eq!(json_to_string(&copy), json_to_string(&v));
}

#[test]
fn json_lists() {
    let mut out = String::new();
    push_json_str_list(&mut out, &["a", "b\"c"]);
    assert_eq!(out, "[\"a\",\"b\\\"c\"]");
    let mut empty = String::new();
    push_json_str_list(&mut empty, &[]);
    assert_eq!(empty, "[]");
    let mut arr = String::new();
    push_json_array(&mut arr, &[JsonValue::Bool(true), s("x")]);
    assert_eq!(arr, "[true,\"x\"]");
}

#[test]
fn script_safe_escapes_every_closing_tag_opener() {
    assert_eq!(script_safe_string("a</script></b>"), "a<\\/script><\\/b>");
    assert_eq!(script_safe_string("/< /<"), "/< /<");
    assert_eq!(script_safe_string("<</"), "<<\\/");
    let mut w = BufferWriter::new();
    write_script_safe_json(&mut w, &s("</script>")).unwrap();
    write_script_safe_json_str(&mut w, "{\"k\":\"</x>\"}").unwrap();
    assert_eq!(w.content(), "\"<\\/script>\"{\"k\":\"<\\/x>\"}");
}

#[test]
fn decimal_rendering() {
    assert_eq!(decimal_string(0), "0");
    assert_eq!(decimal_string(7), "7");
    assert_eq!(decimal_string(10), "10");
    assert_eq!(decimal_string(4096), "4096");
    let mut w = BufferWriter::new();
    write_usize(&mut w, 305).unwrap();
    assert_eq!(w.content(), "305");
}

#[test]
fn writer_helpers() {
    let mut w = BufferWriter::new();
    write_pieces(&mut w, &["<", "div", ">"]).unwrap();
    write_attr(&mut w, "id", "main").unwrap();
    let mut wrote = false;
    write_json_field_name(&mut w, &mut wrote, "first").unwrap();
    write_json_field_name(&mut w, &mut wrote, "second").unwrap();
    assert!(wrote);
    assert_eq!(w.content(), "<div> id=\"main\"\"first\":,\"second\":");
    assert!(!w.ended());
    w.end().unwrap();
    assert!(w.ended());
    assert_eq!(w.content(), "<div> id=\"main\"\"first\":,\"second\":");
}

#[test]
fn route_state_scalars_and_json() {
    let state = JsonValue::Object(vec![
        ("count".to_string(), JsonValue::Number("3".to_string())),
        ("flag".to_string(), JsonValue::Bool(true)),
        ("gone".to_string(), JsonValue::Null),
        ("name".to_string(), s("x")),
    ]);
    let scalars = route_state_scalars(&state);
    let pairs: Vec<(String, String)> = scalars.iter().map(|(k, v)| (k.to_string(), v.clone())).collect();
    assert_eq!(
        pairs,
        vec![
            ("count".to_string(), "3".to_string()),
            ("flag".to_string(), "true".to_string()),
            ("name".to_string(), "x".to_string()),
        ]
    );
    assert_eq!(route_state_json(&state), None);
    let complex = JsonValue::Object(vec![("items".to_string(), JsonValue::Array(vec![s("a")]))]);
    assert_eq!(route_state_json(&complex), Some("{\"items\":[\"a\"]}".to_string()));
    assert!(route_state_scalars(&s("scalar")).is_empty());
    assert_eq!(route_state_json(&s("scalar")), None);
}

#[test]
fn element_data_decoding() {
    assert_eq!(decode_element_data(&7u32.to_le_bytes()), Ok(7));
    assert_eq!(decode_element_data(&[]), Err(0));
    assert_eq!(decode_element_data(&[1, 2]), Err(2));
}

struct CountingWriter {
    calls: usize,
}

impl ResponseWriter for CountingWriter {
    fn write(&mut self, _content: &str) -> webhub_handler::Result<()> {
        self.calls += 1;
        Ok(())
    }
    fn end(&mut self) -> webhub_handler::Result<()> {
        Ok(())
    }
}

#[test]
fn empty_script_safe_json_is_not_written() {
    let mut w = CountingWriter { calls: 0 };
    write_script_safe_json_str(&mut w, "").unwrap();
    assert_eq!(w.calls, 0);
    write_script_safe_json_str(&mut w, "{}").unwrap();
    assert_eq!(w.calls, 1);
}

#[test]
fn missing_fragment_lookup_names_the_id() {
    use_require_fragment();
}

fn use_require_fragment() {
    let lists = vec![("a".to_string(), 1)];
    let found = lists.iter().find(|(k, _)| k == "a").map(|(_, v)| v);
    assert_eq!(*webhub_handler::render::require_fragment(found, "a").unwrap(), 1);
    let missing = lists.iter().find(|(k, _)| k == "b").map(|(_, v)| v);
    match webhub_handler::render::require_fragment(missing, "b") {
        Err(webhub_handler::HandlerError::MissingFragment(m)) => assert_eq!(m, "b"),
        other => panic!("unexpected {other:?}"),
    }
}
