use tpt_visual::assets::{is_media_path, sequence_file_name, ProxyConfig};
use tpt_visual::effects::{effect_kind, registered_effects, EffectError};
use tpt_visual::nodes::{CanvasNode, TransitionKind};

#[test]
fn proxy_config_targets() {
    assert!(ProxyConfig::for_source(720).is_none());
    assert_eq!(
        ProxyConfig::for_source(2160).map(|c| c.target_height),
        Some(1080)
    );
    assert_eq!(
        ProxyConfig::for_source(1080).map(|c| c.target_height),
        Some(540)
    );
    assert_eq!(ProxyConfig::for_source(1079), None);
    assert_eq!(ProxyConfig::for_source(2159).map(|c| c.target_height), Some(540));
}

#[test]
fn sequence_names_are_zero_padded() {
    assert_eq!(sequence_file_name("frame_", 7, 4, "png"), "frame_0007.png");
    assert_eq!(sequence_file_name("f", 12345, 3, "jpg"), "f12345.jpg");
    assert_eq!(sequence_file_name("", 0, 0, "png"), "0.png");
}

#[test]
fn media_paths_pick_the_container_decoder() {
    assert!(is_media_path("clips/a.mp4"));
    assert!(is_media_path("b.mov"));
    assert!(!is_media_path("procedural://bars.mp4"));
    assert!(!is_media_path("still.png"));
}

#[test]
fn registry_names_resolve() {
    let names = registered_effects();
    assert_eq!(names.len(), 11);
    for name in &names {
        let kind = effect_kind(name).unwrap();
        assert_eq!(kind.name(), *name);
    }
    match effect_kind("definitely_not_an_effect") {
        Err(EffectError::UnknownEffect(n)) => assert_eq!(n, "definitely_not_an_effect"),
        _ => panic!("expected unknown effect"),
    }
}

#[test]
fn transition_modes() {
    assert_eq!(TransitionKind::Crossfade.shader_mode(), 0);
    assert_eq!(TransitionKind::Wipe.shader_mode(), 1);
    assert_eq!(TransitionKind::Dissolve.shader_mode(), 2);
    assert!(TransitionKind::default() == TransitionKind::Crossfade);
    let _canvas: CanvasNode = CanvasNode::new();
}
