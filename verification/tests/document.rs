use webhub_handler::bootstrap::{write_webhub_data_block, webhubBootstrap, TemplatePayload};
use webhub_handler::document::{
    component_css_hrefs, component_style_specs, css_module_for, filter_non_empty, pending_css_modules, write_head_end, DocumentHooks, NameSet,
};
use webhub_handler::json::JsonValue;
use webhub_handler::state::{ComponentCatalog, ComponentMeta, ProjectionMode, StateSelection};
use webhub_handler::{BufferWriter, RenderOptions};

fn component(name: &str, css: &str, css_href: &str) -> ComponentMeta {
    ComponentMeta {
        name: name.to_string(),
        hydration_mode: ProjectionMode::Undeclared,
        hydration_keys: Vec::new(),
        navigation_mode: ProjectionMode::Undeclared,
        navigation_keys: Vec::new(),
        css: css.to_string(),
        css_href: css_href.to_string(),
    }
}

fn names(list: &[&str]) -> Vec<String> {
    list.iter().map(|k| k.to_string()).collect()
}

#[test]
fn head_end_writes_nonce_links_and_inject_in_order() {
    let mut w = BufferWriter::new();
    write_head_end(&mut w, Some("n\"1"), &["/a.css", "/b.css"], false, Some("<meta name=\"x\">")).unwrap();
    assert_eq!(
        w.content(),
        "<meta name=\"webhub-nonce\" content=\"n&quot;1\"><link rel=\"stylesheet\" href=\"/a.css\"><link rel=\"stylesheet\" href=\"/b.css\"><meta name=\"x\">"
    );
}

#[test]
fn head_end_uses_preloads_for_shadow_dom() {
    let mut w = BufferWriter::new();
    write_head_end(&mut w, None, &["/a.css"], true, None).unwrap();
    assert_eq!(
        w.content(),
        "<link rel=\"preload\" href=\"/a.css\" as=\"style\" data-webhub-ssr-preload=\"style\">"
    );
}

#[test]
fn head_end_writes_nothing_when_nothing_is_set() {
    let mut w = BufferWriter::new();
    write_head_end(&mut w, None, &[], false, None).unwrap();
    assert_eq!(w.content(), "");
}

#[test]
fn document_hooks_fire_once_and_only_for_raw_signals() {
    let mut hooks = DocumentHooks::new();
    assert!(!hooks.claim_head_end(false, "head_end"));
    assert!(!hooks.claim_head_end(true, "body_end"));
    assert!(hooks.claim_head_end(true, "head_end"));
    assert!(!hooks.claim_head_end(true, "head_end"));
    assert!(hooks.head_end_emitted && !hooks.body_end_emitted);
    assert!(hooks.claim_body_end(true, "body_end"));
    assert!(!hooks.claim_body_end(true, "body_end"));
    assert!(hooks.body_end_emitted);
}

#[test]
fn name_set_insert_and_contains() {
    let mut set = NameSet::new();
    assert!(!set.contains("a"));
    set.insert("a");
    set.insert("a");
    set.insert("b");
    assert!(set.contains("a") && set.contains("b") && !set.contains("c"));
}

#[test]
fn component_stylesheets_follow_document_order() {
    let catalog = ComponentCatalog {
        initial_state_from_components: false,
        components: vec![
            component("x-a", ".a{}", "/a.css"),
            component("x-b", "", ""),
            component("x-c", ".c{}", "/c.css"),
        ],
    };
    let order = names(&["x-c", "x-b", "unknown", "x-a"]);
    assert_eq!(component_css_hrefs(&catalog, &order), vec!["/c.css", "/a.css"]);
    assert_eq!(component_style_specs(&catalog, &order), vec!["x-c", "x-a"]);
}

#[test]
fn css_module_is_due_once_per_component() {
    let catalog = ComponentCatalog {
        initial_state_from_components: false,
        components: vec![component("x-a", ".a{}", ""), component("x-b", "", "")],
    };
    let mut rendered = NameSet::new();
    assert_eq!(css_module_for(&catalog, &rendered, "x-a"), Some(".a{}"));
    assert_eq!(css_module_for(&catalog, &rendered, "x-b"), None);
    assert_eq!(css_module_for(&catalog, &rendered, "nope"), None);
    rendered.insert("x-a");
    assert_eq!(css_module_for(&catalog, &rendered, "x-a"), None);
}

#[test]
fn empty_inject_and_nonce_are_unset() {
    assert_eq!(filter_non_empty(Some("")), None);
    assert_eq!(filter_non_empty(Some("x")), Some("x"));
    assert_eq!(filter_non_empty(None), None);
    let opts = RenderOptions::new("index.html", "/").with_nonce("").with_head_inject("").with_body_inject("");
    assert_eq!(opts.nonce, None);
    assert_eq!(opts.head_inject, None);
    assert_eq!(opts.body_inject, None);
}

#[test]
fn render_options_builders_set_fields() {
    let opts = RenderOptions::new("index.html", "/about")
        .with_nonce("abc")
        .with_head_inject("<meta>")
        .with_body_inject("<script></script>");
    assert_eq!(opts.entry_id, "index.html");
    assert_eq!(opts.request_path, "/about");
    assert_eq!(opts.nonce, Some("abc"));
    assert_eq!(opts.head_inject, Some("<meta>"));
    assert_eq!(opts.body_inject, Some("<script></script>"));
    let plain = RenderOptions::new("e", "/");
    assert_eq!(plain.nonce, None);
    assert_eq!(plain.head_inject, None);
    assert_eq!(plain.body_inject, None);
}

#[test]
fn data_block_holds_every_field_in_order() {
    let state = JsonValue::Object(vec![("x".to_string(), JsonValue::Number("1".to_string()))]);
    let chain = vec![JsonValue::Object(vec![("p".to_string(), JsonValue::String("/".to_string()))])];
    let templates = [
        TemplatePayload { tag_name: "my-el", template_json: "{\"h\":\"</p>\"}" },
        TemplatePayload { tag_name: "empty-el", template_json: "" },
    ];
    let css = ["/a.css"];
    let styles = ["s"];
    let bootstrap = webhubBootstrap {
        state: &state,
        state_selection: StateSelection::Full,
        chain: &chain,
        inventory: "3",
        nonce: Some("n1"),
        css_hrefs: &css,
        style_specs: &styles,
        templates: &templates,
    };
    let mut w = BufferWriter::new();
    write_webhub_data_block(&mut w, bootstrap).unwrap();
    assert_eq!(
        w.content(),
        "<script type=\"application/json\" id=\"webhub-data\" nonce=\"n1\">{\"chain\":[{\"p\":\"/\"}],\"css\":[\"/a.css\"],\"inventory\":\"3\",\"nonce\":\"n1\",\"state\":{\"x\":1},\"styles\":[\"s\"],\"templates\":{\"my-el\":{\"h\":\"<\\/p>\"}}}</script>\n"
    );
}

#[test]
fn data_block_minimal_fields() {
    let state = JsonValue::Object(vec![
        ("name".to_string(), JsonValue::String("Alice".to_string())),
        ("secret".to_string(), JsonValue::String("x".to_string())),
    ]);
    let templates = [TemplatePayload { tag_name: "empty-el", template_json: "" }];
    let bootstrap = webhubBootstrap {
        state: &state,
        state_selection: StateSelection::Keys(vec!["name".to_string()]),
        chain: &[],
        inventory: "",
        nonce: None,
        css_hrefs: &[],
        style_specs: &[],
        templates: &templates,
    };
    let mut w = BufferWriter::new();
    write_webhub_data_block(&mut w, bootstrap).unwrap();
    assert_eq!(
        w.content(),
        "<script type=\"application/json\" id=\"webhub-data\">{\"inventory\":\"\",\"state\":{\"name\":\"Alice\"}}</script>\n"
    );
}

#[test]
fn pending_css_modules_skip_rendered_and_css_free_components() {
    let catalog = ComponentCatalog {
        initial_state_from_components: false,
        components: vec![
            component("x-a", ".a{}", ""),
            component("x-b", "", ""),
            component("x-c", ".c{}", ""),
        ],
    };
    let mut rendered = NameSet::new();
    rendered.insert("x-a");
    assert_eq!(rendered.names(), &["x-a".to_string()]);
    let reachable = names(&["x-a", "x-b", "x-c", "x-d"]);
    assert_eq!(pending_css_modules(&catalog, &rendered, &reachable), vec![("x-c", ".c{}")]);
}
