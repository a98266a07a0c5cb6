use webhub_handler::plugin::FastV3HydrationPlugin;
use webhub_handler::{HandlerError, ResponseWriter, Result};

struct TestWriter {
    output: String,
}

impl TestWriter {
    fn new() -> Self {
        Self { output: String::new() }
    }
}

impl ResponseWriter for TestWriter {
    fn write(&mut self, content: &str) -> Result<()> {
        self.output.push_str(content);
        Ok(())
    }
    fn end(&mut self) -> Result<()> {
        Ok(())
    }
}

#[test]
fn test_root_scope_disabled() {
    let mut plugin = FastV3HydrationPlugin::new();
    let mut writer = TestWriter::new();
    plugin.on_binding_start("x", &mut writer).unwrap();
    plugin.on_binding_end("x", &mut writer).unwrap();
    plugin.on_repeat_item_start(0, &mut writer).unwrap();
    plugin.on_repeat_item_end(0, &mut writer).unwrap();
    let data = 3u32.to_le_bytes();
    plugin.on_element_data(&data, &mut writer).unwrap();
    assert_eq!(writer.output, "");
}

#[test]
fn test_binding_start_format() {
    let mut plugin = FastV3HydrationPlugin::new();
    plugin.push_scope();
    let mut writer = TestWriter::new();
    plugin.on_binding_start("userName", &mut writer).unwrap();
    assert_eq!(writer.output, "<!--fe:b-->");
}

#[test]
fn test_binding_end_format() {
    let mut plugin = FastV3HydrationPlugin::new();
    plugin.push_scope();
    let mut writer = TestWriter::new();
    plugin.on_binding_start("userName", &mut writer).unwrap();
    writer.output.clear();
    plugin.on_binding_end("userName", &mut writer).unwrap();
    assert_eq!(writer.output, "<!--fe:/b-->");
}

#[test]
fn test_binding_sequence_uses_compact_markers() {
    let mut plugin = FastV3HydrationPlugin::new();
    plugin.push_scope();
    let mut writer = TestWriter::new();
    plugin.on_binding_start("a", &mut writer).unwrap();
    plugin.on_binding_end("a", &mut writer).unwrap();
    writer.output.clear();
    plugin.on_binding_start("b", &mut writer).unwrap();
    assert_eq!(writer.output, "<!--fe:b-->");
}

#[test]
fn test_scopes_emit_compact_markers() {
    let mut plugin = FastV3HydrationPlugin::new();
    let mut writer = TestWriter::new();
    plugin.push_scope();
    plugin.on_binding_start("a", &mut writer).unwrap();
    plugin.on_binding_end("a", &mut writer).unwrap();
    plugin.push_scope();
    writer.output.clear();
    plugin.on_binding_start("b", &mut writer).unwrap();
    assert_eq!(writer.output, "<!--fe:b-->");
    plugin.on_binding_end("b", &mut writer).unwrap();
    plugin.pop_scope();
    writer.output.clear();
    plugin.on_binding_start("c", &mut writer).unwrap();
    assert_eq!(writer.output, "<!--fe:b-->");
}

#[test]
fn test_repeat_item_markers() {
    let mut plugin = FastV3HydrationPlugin::new();
    plugin.push_scope();
    let mut writer = TestWriter::new();
    plugin.on_repeat_item_start(0, &mut writer).unwrap();
    assert_eq!(writer.output, "<!--fe:r-->");
    writer.output.clear();
    plugin.on_repeat_item_end(0, &mut writer).unwrap();
    assert_eq!(writer.output, "<!--fe:/r-->");
}

#[test]
fn test_attribute_binding_single() {
    let mut plugin = FastV3HydrationPlugin::new();
    plugin.push_scope();
    let mut writer = TestWriter::new();
    let data = 1u32.to_le_bytes();
    plugin.on_element_data(&data, &mut writer).unwrap();
    assert_eq!(writer.output, r#" data-fe="1""#);
}

#[test]
fn test_attribute_binding_multi() {
    let mut plugin = FastV3HydrationPlugin::new();
    plugin.push_scope();
    let mut writer = TestWriter::new();
    let data = 3u32.to_le_bytes();
    plugin.on_element_data(&data, &mut writer).unwrap();
    assert_eq!(writer.output, r#" data-fe="3""#);
}

#[test]
fn test_attribute_binding_zero_count_no_output() {
    let mut plugin = FastV3HydrationPlugin::new();
    plugin.push_scope();
    let mut writer = TestWriter::new();
    let data = 0u32.to_le_bytes();
    plugin.on_element_data(&data, &mut writer).unwrap();
    assert_eq!(writer.output, "");
}

#[test]
fn test_attribute_binding_count_allows_following_binding() {
    let mut plugin = FastV3HydrationPlugin::new();
    plugin.push_scope();
    let mut writer = TestWriter::new();
    let data = 3u32.to_le_bytes();
    plugin.on_element_data(&data, &mut writer).unwrap();
    assert_eq!(writer.output, r#" data-fe="3""#);
    writer.output.clear();
    plugin.on_binding_start("x", &mut writer).unwrap();
    assert_eq!(writer.output, "<!--fe:b-->");
}

#[test]
fn test_nested_scopes_emit_compact_markers() {
    let mut plugin = FastV3HydrationPlugin::new();
    let mut writer = TestWriter::new();
    plugin.push_scope();
    plugin.on_binding_start("root", &mut writer).unwrap();
    plugin.on_binding_end("root", &mut writer).unwrap();
    plugin.push_scope();
    writer.output.clear();
    plugin.on_binding_start("for-1", &mut writer).unwrap();
    assert_eq!(writer.output, "<!--fe:b-->");
    plugin.push_scope();
    writer.output.clear();
    plugin.on_binding_start("signal", &mut writer).unwrap();
    assert_eq!(writer.output, "<!--fe:b-->");
    plugin.on_binding_end("signal", &mut writer).unwrap();
    plugin.pop_scope();
    plugin.on_binding_end("for-1", &mut writer).unwrap();
    plugin.pop_scope();
    writer.output.clear();
    plugin.on_binding_start("root2", &mut writer).unwrap();
    assert_eq!(writer.output, "<!--fe:b-->");
}

#[test]
fn test_empty_element_data_returns_error() {
    let mut plugin = FastV3HydrationPlugin::new();
    plugin.push_scope();
    let mut writer = TestWriter::new();
    let result = plugin.on_element_data(&[], &mut writer);
    assert!(
        matches!(result, Err(HandlerError::PluginData(ref msg)) if msg.contains("expected 4 bytes")),
        "invalid payload length should produce a plugin-data error: {result:?}"
    );
    assert_eq!(writer.output, "");
}

#[test]
fn test_short_element_data_returns_error() {
    let mut plugin = FastV3HydrationPlugin::new();
    plugin.push_scope();
    let mut writer = TestWriter::new();
    let result = plugin.on_element_data(&[1, 2], &mut writer);
    assert!(
        matches!(result, Err(HandlerError::PluginData(ref msg)) if msg.contains("expected 4 bytes")),
        "invalid payload length should produce a plugin-data error: {result:?}"
    );
    assert_eq!(writer.output, "");
}

#[test]
fn test_for_if_hooks_delegate_to_binding_hooks() {
    {
        let mut plugin_for = FastV3HydrationPlugin::new();
        plugin_for.push_scope();
        let mut writer_for = TestWriter::new();
        plugin_for.on_for_start("items", &mut writer_for).unwrap();
        plugin_for.on_for_end("items", &mut writer_for).unwrap();

        let mut plugin_bind = FastV3HydrationPlugin::new();
        plugin_bind.push_scope();
        let mut writer_bind = TestWriter::new();
        plugin_bind.on_binding_start("items", &mut writer_bind).unwrap();
        plugin_bind.on_binding_end("items", &mut writer_bind).unwrap();

        assert_eq!(
            writer_for.output, writer_bind.output,
            "on_for_* should delegate to on_binding_*"
        );
    }
    {
        let mut plugin_if = FastV3HydrationPlugin::new();
        plugin_if.push_scope();
        let mut writer_if = TestWriter::new();
        plugin_if.on_if_start("visible", &mut writer_if).unwrap();
        plugin_if.on_if_end("visible", &mut writer_if).unwrap();

        let mut plugin_bind = FastV3HydrationPlugin::new();
        plugin_bind.push_scope();
        let mut writer_bind = TestWriter::new();
        plugin_bind.on_binding_start("visible", &mut writer_bind).unwrap();
        plugin_bind.on_binding_end("visible", &mut writer_bind).unwrap();

        assert_eq!(
            writer_if.output, writer_bind.output,
            "on_if_* should delegate to on_binding_*"
        );
    }
}

#[test]
fn binding_counter_headroom() {
    let mut plugin = FastV3HydrationPlugin::new();
    assert!(plugin.can_advance_by(u32::MAX));
    plugin.push_scope();
    assert!(plugin.can_advance_by(1));
}

#[test]
fn default_plugin_starts_with_disabled_root_scope() {
    let mut plugin = FastV3HydrationPlugin::default();
    let mut writer = TestWriter::new();
    plugin.on_binding_start("x", &mut writer).unwrap();
    assert_eq!(writer.output, "");
    plugin.push_scope();
    plugin.on_binding_start("x", &mut writer).unwrap();
    plugin.pop_scope();
    plugin.on_binding_end("x", &mut writer).unwrap();
    assert_eq!(writer.output, "<!--fe:b-->");
}
