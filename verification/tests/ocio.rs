use tpt_visual::ocio::{attributes, ocio_support, scan_config_colorspaces, scan_config_roles};

const SAMPLE: &str = r#"
    <OCIOConfig>
        <Role name="scene_linear" colorspace="ACES - ACEScg"/>
        <Role name="texture" colorspace="sRGB - Texture"/>
        <ColorSpace name="ACES - ACEScg" family="ACES" isdata="false"/>
        <ColorSpace name="sRGB - Texture" family="Textures" isdata="false"/>
        <ColorSpace name="Raw" isdata="true"/>
    </OCIOConfig>
    "#;

#[test]
fn scans_colorspaces_with_families() {
    let spaces = scan_config_colorspaces(SAMPLE);
    assert_eq!(spaces.len(), 3);
    assert_eq!(spaces[0].name, "ACES - ACEScg");
    assert_eq!(spaces[0].family.as_deref(), Some("ACES"));
    assert_eq!(spaces[2].name, "Raw");
    assert_eq!(spaces[2].family, None);
}

#[test]
fn scans_roles() {
    let roles = scan_config_roles(SAMPLE);
    assert_eq!(roles.len(), 2);
    assert_eq!(roles[0].name, "scene_linear");
    assert_eq!(roles[0].color_space, "ACES - ACEScg");
}

#[test]
fn reports_support_level() {
    let support = ocio_support();
    assert!(support.config_scanning);
    assert!(
        !support.file_transforms,
        "transform compiler is future work"
    );
}

#[test]
fn attributes_are_quote_aware() {
    let attrs = attributes(r#" name='a b' x=y family="F" broken="open"#);
    assert_eq!(
        attrs,
        vec![("name".to_string(), "a b".to_string()), ("family".to_string(), "F".to_string())]
    );
    // A name without a quoted value is skipped; scanning resumes after it.
    let attrs = attributes(r#"a=b c="d""#);
    assert_eq!(attrs, vec![("c".to_string(), "d".to_string())]);
}

#[test]
fn tags_without_names_or_closing_are_skipped() {
    let config = r#"<ColorSpace family="x"/><ColorSpace name="ok"/><ColorSpace name="open""#;
    let spaces = scan_config_colorspaces(config);
    assert_eq!(spaces.len(), 1);
    assert_eq!(spaces[0].name, "ok");
    let roles = scan_config_roles(r#"<Role name="only"/><Role colorspace="c" name="n">"#);
    assert_eq!(roles.len(), 1);
    assert_eq!(roles[0].name, "n");
    assert_eq!(roles[0].color_space, "c");
}

#[test]
fn elements_named_like_colorspace_are_not_colorspaces() {
    let config = r#"<ColorSpaceTransform name="t"/><ColorSpace name="Raw"/>"#;
    let spaces = scan_config_colorspaces(config);
    assert_eq!(spaces.len(), 1);
    assert_eq!(spaces[0].name, "Raw");
    assert_eq!(spaces[0].family, None);
    let nested = "<ColorSpaces>\n<ColorSpace\tname=\"a\">\n<ColorSpace/>\n<ColorSpace>\n</ColorSpaces>";
    let spaces = scan_config_colorspaces(nested);
    assert_eq!(spaces.len(), 1);
    assert_eq!(spaces[0].name, "a");
}

#[test]
fn roles_need_both_name_and_colorspace() {
    let roles = scan_config_roles(r#"<Role name="a"/><Role name="b" colorspace="c"/>"#);
    assert_eq!(roles.len(), 1);
    assert_eq!(roles[0].name, "b");
    assert_eq!(roles[0].color_space, "c");
}

#[test]
fn first_attribute_of_a_name_wins() {
    let spaces = scan_config_colorspaces(r#"<ColorSpace name="first" family="f1" name="second" family="f2"/>"#);
    assert_eq!(spaces.len(), 1);
    assert_eq!(spaces[0].name, "first");
    assert_eq!(spaces[0].family.as_deref(), Some("f1"));
}
