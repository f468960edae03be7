use common::port_config::{PluginProbe, PortConfig};

fn probe(ports: PortConfig, has_embedded_gui: bool) -> PluginProbe {
    PluginProbe { ports, has_embedded_gui }
}

#[test]
fn round_trip() {
    for p in [
        probe(
            PortConfig {
                has_note_input: true,
                has_note_output: true,
                has_audio_output: true,
                has_audio_input: true,
                has_video_input: false,
                has_video_output: false,
            },
            true,
        ),
        probe(
            PortConfig {
                has_note_input: true,
                has_note_output: false,
                has_audio_output: true,
                has_audio_input: false,
                has_video_input: false,
                has_video_output: false,
            },
            false,
        ),
        probe(
            PortConfig {
                has_note_input: false,
                has_note_output: false,
                has_audio_output: false,
                has_audio_input: false,
                has_video_input: true,
                has_video_output: true,
            },
            false,
        ),
        PluginProbe::default(),
    ] {
        assert_eq!(PluginProbe::parse_line(&p.to_line()), Some(p));
    }
}

#[test]
fn parse_is_order_independent() {
    let p = PluginProbe::parse_line(
        "embed_gui=true video_out=true audio_in=true audio_out=false note_out=true note_in=true video_in=false",
    )
    .unwrap();
    assert_eq!(
        p,
        probe(
            PortConfig {
                has_note_input: true,
                has_note_output: true,
                has_audio_output: false,
                has_audio_input: true,
                has_video_input: false,
                has_video_output: true,
            },
            true,
        )
    );
}

#[test]
fn parse_rejects_incomplete_or_malformed() {
    assert_eq!(PluginProbe::parse_line("note_in=true note_out=true"), None);
    assert_eq!(
        PluginProbe::parse_line(
            "note_in=true note_out=true audio_out=true audio_in=false video_in=false video_out=false"
        ),
        None
    );
    assert_eq!(PluginProbe::parse_line("note_in=yes note_out=true audio_out=true"), None);
    assert_eq!(PluginProbe::parse_line(""), None);
    assert_eq!(PluginProbe::parse_line("garbage"), None);
}

#[test]
fn ports_resolve_to_the_known_ones() {
    let none = PluginProbe::default().ports;
    let mut video = none;
    video.has_video_output = true;
    assert!(none.is_unresolved());
    assert!(video.is_video() && !video.is_unresolved());
    assert_eq!(PortConfig::resolve(video, Some(none)), video);
    assert_eq!(PortConfig::resolve(none, Some(video)), video);
}
