use common::protocol::{ChildKind, PROTOCOL_FINGERPRINT};

#[test]
fn protocol_fingerprint_is_nonzero() {
    assert_ne!(PROTOCOL_FINGERPRINT, 0);
}

#[test]
fn child_kind_as_str() {
    assert_eq!(ChildKind::Audio.as_str(), "audio");
    assert_eq!(ChildKind::PluginHost.as_str(), "plugin_host");
}
