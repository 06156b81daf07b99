use tpt_visual::effects::{effect_kind, effect_param_property, flatten_curve_lut, registered_effects};
use tpt_visual::nodes::{effect_pass_plan, PassInput, PassOutput, PassStep};
use tpt_visual::shaders::{embedded_shader_names, is_embedded_shader, name_of};

#[test]
fn effect_chain_ping_pongs_through_scratch_textures() {
    let plan = effect_pass_plan(&vec![2, 0, 1]);
    assert_eq!(
        plan,
        vec![
            PassStep { effect: 0, pass: 0, input: PassInput::NodeInput, output: PassOutput::Scratch(0) },
            PassStep { effect: 0, pass: 1, input: PassInput::Scratch(0), output: PassOutput::Scratch(1) },
            PassStep { effect: 2, pass: 0, input: PassInput::Scratch(1), output: PassOutput::NodeOutput },
        ]
    );
}

#[test]
fn single_pass_reads_input_and_writes_output() {
    let plan = effect_pass_plan(&vec![1]);
    assert_eq!(plan, vec![PassStep { effect: 0, pass: 0, input: PassInput::NodeInput, output: PassOutput::NodeOutput }]);
    assert!(effect_pass_plan(&vec![0, 0]).is_empty());
}

#[test]
fn curve_lut_texels_are_flattened() {
    let lut = vec![[1u8, 2, 3, 4], [5, 6, 7, 8]];
    assert_eq!(flatten_curve_lut(&lut), vec![1, 2, 3, 4, 5, 6, 7, 8]);
}

#[test]
fn keyframed_effect_parameter_names() {
    assert_eq!(effect_param_property(3, "radius"), "effects.3.radius");
    assert_eq!(effect_param_property(0, "amount"), "effects.0.amount");
}

#[test]
fn shader_names_resolve_to_static_copies() {
    let owned = String::from("transition");
    assert_eq!(name_of(&owned), "transition");
    assert!(is_embedded_shader("blit"));
    assert!(!is_embedded_shader("missing"));
    assert_eq!(embedded_shader_names().len(), 6);
}

#[test]
fn every_registered_effect_renders_at_least_one_pass() {
    for name in registered_effects() {
        let kind = effect_kind(name).unwrap();
        assert_eq!(kind.name(), name);
        let expected = if name == "gaussian_blur" || name == "box_blur" { 2 } else { 1 };
        assert_eq!(kind.pass_count(), expected, "{name}");
        assert!(kind.pass_count() >= 1);
    }
}
