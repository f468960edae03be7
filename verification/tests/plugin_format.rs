use common::plugin_format::PluginFormat;

#[test]
fn default_is_clap() {
    assert_eq!(PluginFormat::default(), PluginFormat::Clap);
}

#[test]
fn formats_have_names_and_extensions() {
    assert_eq!(PluginFormat::Vst3.as_str(), "VST3");
    assert_eq!(PluginFormat::Clap.extension(), "clap");
    assert_eq!(PluginFormat::Builtin.extension(), "");
}
