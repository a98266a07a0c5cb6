use webhub_handler::bootstrap::write_selected_state;
use webhub_handler::json::{json_to_string, push_json_string, JsonValue};
use webhub_handler::state::{
    collect_hydration_state, collect_navigation_state, insert_sorted, push_projected_state, ComponentCatalog,
    ComponentMeta, ProjectionMode, StateSelection,
};
use webhub_handler::BufferWriter;

fn s(text: &str) -> JsonValue {
    JsonValue::String(text.to_string())
}

fn n(text: &str) -> JsonValue {
    JsonValue::Number(text.to_string())
}

fn obj(members: Vec<(&str, JsonValue)>) -> JsonValue {
    JsonValue::Object(members.into_iter().map(|(k, v)| (k.to_string(), v)).collect())
}

fn keys(list: &[&str]) -> Vec<String> {
    list.iter().map(|k| k.to_string()).collect()
}

fn component(name: &str) -> ComponentMeta {
    ComponentMeta {
        name: name.to_string(),
        hydration_mode: ProjectionMode::Undeclared,
        hydration_keys: Vec::new(),
        navigation_mode: ProjectionMode::Undeclared,
        navigation_keys: Vec::new(),
        css: String::new(),
        css_href: String::new(),
    }
}

fn catalog(components: Vec<ComponentMeta>) -> ComponentCatalog {
    ComponentCatalog { initial_state_from_components: true, components }
}

fn selected(state: &JsonValue, selection: &StateSelection) -> String {
    let mut sink = BufferWriter::new();
    write_selected_state(&mut sink, state, selection).unwrap();
    sink.content().to_string()
}

#[test]
fn write_selected_state_projects_and_escapes() {
    let state = obj(vec![("drop", s("secret")), ("keep", s("</script><b>"))]);
    let selection = StateSelection::Keys(keys(&["keep"]));
    assert_eq!(selected(&state, &selection), r#"{"keep":"<\/script><b>"}"#);
}

#[test]
fn write_selected_state_non_object_projection_emits_empty_object() {
    let state = s("scalar state has nothing hydratable");
    let selection = StateSelection::Keys(keys(&[]));
    assert_eq!(selected(&state, &selection), "{}");
}

#[test]
fn write_selected_state_schema_first_skips_missing_and_duplicate_keys() {
    let state = obj(vec![("keptA", n("1")), ("keptB", n("2")), ("serverOnlyA", n("3")), ("serverOnlyB", n("4"))]);
    let selection = StateSelection::Keys(keys(&["keptA", "keptA", "keptB", "missing"]));
    assert_eq!(selected(&state, &selection), r#"{"keptA":1,"keptB":2}"#);
}

#[test]
fn write_selected_state_map_first_matches_schema_first_output() {
    let state = obj(vec![("keptA", n("1")), ("keptB", n("2"))]);
    let selection = StateSelection::Keys(keys(&["keptA", "keptB", "missingA", "missingB"]));
    assert_eq!(selected(&state, &selection), r#"{"keptA":1,"keptB":2}"#);
}

#[test]
fn write_selected_state_full_preserves_and_escapes_state() {
    let state = obj(vec![("serverOnly", s("</script><b>")), ("value", n("42"))]);
    assert_eq!(
        selected(&state, &StateSelection::Full),
        r#"{"serverOnly":"<\/script><b>","value":42}"#
    );
}

#[test]
fn legacy_navigation_keys_with_default_mode_remain_keyed() {
    let mut shell = component("app-shell");
    shell.navigation_keys = keys(&["selected"]);
    let catalog = catalog(vec![shell]);
    match collect_navigation_state(&catalog, &keys(&["app-shell"])) {
        StateSelection::Keys(keys) => assert_eq!(keys, vec!["selected"]),
        StateSelection::Full => panic!("legacy navigation keys should remain projected"),
    }
}

#[test]
fn hydration_keys_are_sorted_and_deduplicated_across_components() {
    let mut a = component("a-comp");
    a.hydration_mode = ProjectionMode::Keys;
    a.hydration_keys = keys(&["zeta", "alpha"]);
    let mut b = component("b-comp");
    b.hydration_mode = ProjectionMode::Keys;
    b.hydration_keys = keys(&["alpha", "mid"]);
    let catalog = catalog(vec![a, b]);
    match collect_hydration_state(&catalog, &keys(&["a-comp", "b-comp"])) {
        StateSelection::Keys(k) => assert_eq!(k, vec!["alpha", "mid", "zeta"]),
        StateSelection::Full => panic!("declared keys should project"),
    }
}

#[test]
fn unknown_component_selects_full_state() {
    let catalog = catalog(vec![component("known")]);
    assert!(matches!(
        collect_hydration_state(&catalog, &keys(&["known", "unknown"])),
        StateSelection::Full
    ));
}

#[test]
fn all_mode_selects_full_state() {
    let mut shell = component("app-shell");
    shell.hydration_mode = ProjectionMode::All;
    let catalog = catalog(vec![shell]);
    assert!(matches!(
        collect_hydration_state(&catalog, &keys(&["app-shell"])),
        StateSelection::Full
    ));
}

#[test]
fn unrecognized_mode_selects_full_state() {
    let mut shell = component("app-shell");
    shell.hydration_mode = ProjectionMode::Unrecognized;
    shell.hydration_keys = keys(&["name"]);
    let catalog = catalog(vec![shell]);
    assert!(matches!(
        collect_hydration_state(&catalog, &keys(&["app-shell"])),
        StateSelection::Full
    ));
}

#[test]
fn no_reachable_components_select_no_keys() {
    let catalog = catalog(vec![component("app-shell")]);
    match collect_hydration_state(&catalog, &[]) {
        StateSelection::Keys(k) => assert!(k.is_empty()),
        StateSelection::Full => panic!("no components need no state"),
    }
}

#[test]
fn non_component_strategy_selects_full_state() {
    let mut shell = component("app-shell");
    shell.hydration_mode = ProjectionMode::Keys;
    shell.hydration_keys = keys(&["name"]);
    let mut catalog = catalog(vec![shell]);
    catalog.initial_state_from_components = false;
    assert!(matches!(
        collect_hydration_state(&catalog, &keys(&["app-shell"])),
        StateSelection::Full
    ));
}

#[test]
fn navigation_surface_is_separate_from_hydration() {
    let mut page = component("items-page");
    page.navigation_mode = ProjectionMode::Keys;
    page.navigation_keys = keys(&["items"]);
    let catalog = catalog(vec![page]);
    match collect_hydration_state(&catalog, &keys(&["items-page"])) {
        StateSelection::Keys(k) => assert!(k.is_empty()),
        StateSelection::Full => panic!("no hydration keys declared"),
    }
    match collect_navigation_state(&catalog, &keys(&["items-page"])) {
        StateSelection::Keys(k) => assert_eq!(k, vec!["items"]),
        StateSelection::Full => panic!("navigation keys declared"),
    }
}

#[test]
fn insert_sorted_keeps_order_and_skips_duplicates() {
    let mut list = Vec::new();
    for k in ["m", "c", "x", "c", "a", "m"] {
        insert_sorted(&mut list, &k.to_string());
    }
    assert_eq!(list, vec!["a", "c", "m", "x"]);
}

#[test]
fn projection_keeps_only_listed_members_with_their_values() {
    let state = obj(vec![("name", s("Alice")), ("tokens", obj(vec![("light", s("red"))]))]);
    let mut out = String::new();
    push_projected_state(&mut out, &state, &keys(&["name"]));
    assert_eq!(out, r#"{"name":"Alice"}"#);
    let mut all = String::new();
    push_projected_state(&mut all, &state, &keys(&["name", "tokens"]));
    assert_eq!(all, json_to_string(&state));
}

#[test]
fn json_string_literal_escapes_quotes_backslashes_and_controls() {
    let mut out = String::new();
    push_json_string(&mut out, "a\"b\\c\n\u{1}\té");
    assert_eq!(out, "\"a\\\"b\\\\c\\n\\u0001\\té\"");
}
