use tpt_visual::cube::{parse_cube, Cube, Lut1D, Lut3D};
use tpt_visual::error::VisualError;

fn message(e: VisualError) -> String {
    match e {
        VisualError::InvalidOperation(m) => m,
        VisualError::Io(e) => e.to_string(),
    }
}

fn values(tokens: &[String]) -> Vec<f32> {
    tokens.iter().map(|t| t.parse::<f32>().unwrap()).collect()
}

#[test]
fn lut_rejects_wrong_size() {
    assert!(Lut3D::new(2, vec![[0.0_f32; 3]; 7]).is_err());
    assert!(Lut3D::new(2, vec![[0.0_f32; 3]; 8]).is_ok());
    assert!(Lut3D::new(1, vec![[0.0_f32; 3]; 1]).is_err());
}

#[test]
fn lut3d_error_messages() {
    let e = Lut3D::new(2, vec![[0.0_f32; 3]; 7]).err().unwrap();
    assert_eq!(message(e), "3D LUT expects 8 entries for size 2, got 7");
    let e = Lut3D::new(1, vec![[0.0_f32; 3]; 1]).err().unwrap();
    assert_eq!(message(e), "3D LUT size must be at least 2");
}

#[test]
fn lut1d_rejects_mismatched_channels() {
    assert!(Lut1D::new(vec![0.0_f32, 1.0], vec![0.0, 1.0], vec![0.0]).is_err());
    assert!(Lut1D::<f32>::new(vec![], vec![], vec![]).is_err());
    let lut = Lut1D::new(vec![0.0_f32, 0.25, 1.0], vec![0.0, 0.5, 1.0], vec![0.0, 0.75, 1.0]).unwrap();
    assert_eq!(lut.size, 3);
}

#[test]
fn parses_3d_cube() {
    let text = "\
# demo LUT
TITLE \"Test\"
LUT_3D_SIZE 2
DOMAIN_MIN 0.0 0.0 0.0
DOMAIN_MAX 1.0 1.0 1.0
0 0 0
1 0 0
0 1 0
1 1 0
0 0 1
1 0 1
0 1 1
1 1 1
";
    let cube = parse_cube(text).unwrap();
    let Cube::Lut3D(lut) = cube else {
        panic!("expected 3D LUT");
    };
    assert_eq!(lut.size, 2);
    // The red corner (r = 1, g = 0, b = 0) sits at index 1.
    assert_eq!(values(&lut.data[1]), vec![1.0, 0.0, 0.0]);
    assert_eq!(lut.data.len(), 8);
}

#[test]
fn parses_1d_cube_single_column() {
    let text = "LUT_1D_SIZE 3\n0.0\n0.5\n1.0\n";
    let cube = parse_cube(text).unwrap();
    let Cube::Lut1D(lut) = cube else {
        panic!("expected 1D LUT");
    };
    assert_eq!(lut.size, 3);
    assert_eq!(values(&lut.red), vec![0.0, 0.5, 1.0]);
    assert_eq!(values(&lut.green), vec![0.0, 0.5, 1.0]);
    assert_eq!(values(&lut.blue), vec![0.0, 0.5, 1.0]);
}

#[test]
fn parses_1d_cube_three_column() {
    let text = "LUT_1D_SIZE 2\n0.0 0.0 0.0\n0.2 0.5 0.8\n1.0 1.0 1.0\n0.9 0.9 0.95\n0.1 0.1 0.1\n0.3 0.3 0.3\n";
    let cube = parse_cube(text).unwrap();
    let Cube::Lut1D(lut) = cube else {
        panic!("expected 1D LUT");
    };
    assert_eq!(lut.size, 2);
    // Red curve = the first `size` entries' red channel: [0.0, 0.2].
    assert_eq!(values(&lut.red), vec![0.0, 0.2]);
    // Green curve = next `size` entries: [1.0, 0.9].
    assert_eq!(values(&lut.green), vec![1.0, 0.9]);
    assert_eq!(values(&lut.blue), vec![0.1, 0.3]);
}

#[test]
fn rejects_malformed() {
    assert!(parse_cube("1 2 3").is_err(), "no size header");
    assert!(parse_cube("LUT_3D_SIZE x").is_err());
    assert!(parse_cube("LUT_3D_SIZE 2\n1 2").is_err(), "bad data line");
    assert!(
        parse_cube("LUT_3D_SIZE 2\n1 2 3\n4 5 6\n").is_err(),
        "wrong entry count"
    );
}

#[test]
fn cube_error_messages_name_the_line() {
    let e = parse_cube("LUT_3D_SIZE 2\n\nfoo 1 2\n").err().unwrap();
    assert_eq!(message(e), ".cube line 3: malformed LUT data line");
    let e = parse_cube("LUT_1D_SIZE 2\n1 2 3 4\n").err().unwrap();
    assert_eq!(message(e), ".cube line 2: too many columns in LUT data line");
    let e = parse_cube("LUT_3D_SIZE x").err().unwrap();
    assert_eq!(message(e), ".cube line 1: invalid LUT_3D_SIZE value");
    let e = parse_cube("LUT_1D_SIZE 2\n1\n").err().unwrap();
    assert_eq!(message(e), "1D LUT of size 2 needs 2 or 6 entries, got 1");
    let e = parse_cube("# nothing\n").err().unwrap();
    assert_eq!(message(e), "missing LUT_3D_SIZE or LUT_1D_SIZE header");
}

#[test]
fn cube_accepts_float_syntax_and_crlf() {
    let text = "LUT_1D_INPUT_SIZE +2\r\n  1e-3  \r\n-.5E+2\r\n";
    let Cube::Lut1D(lut) = parse_cube(text).unwrap() else {
        panic!("expected 1D LUT");
    };
    assert_eq!(values(&lut.red), vec![1e-3, -50.0]);
    assert!(parse_cube("LUT_1D_SIZE 1\ninfinity\n").is_ok());
    assert!(parse_cube("LUT_1D_SIZE 1\n1e\n").is_err());
    assert!(parse_cube("LUT_1D_SIZE 1\n.\n").is_err());
}

#[test]
fn cube_rows_hold_one_or_three_numbers() {
    let e = parse_cube("LUT_1D_SIZE 1\n0.5 x\n").err().unwrap();
    assert_eq!(message(e), ".cube line 2: malformed LUT data line");
    let e = parse_cube("LUT_1D_SIZE 1\n1 2\n").err().unwrap();
    assert_eq!(message(e), ".cube line 2: malformed LUT data line");
    let two_value_rows = "LUT_3D_SIZE 2\n1 2\n1 2\n1 2\n1 2\n1 2\n1 2\n1 2\n1 2\n";
    let e = parse_cube(two_value_rows).err().unwrap();
    assert_eq!(message(e), ".cube line 2: malformed LUT data line");
    assert!(parse_cube("LUT_1D_SIZE 1\n0.5 0.5 x\n").is_err());
}

#[test]
fn cube_1d_rows_carry_red_green_blue() {
    let Cube::Lut1D(lut) = parse_cube("LUT_1D_SIZE 2\n0 0 0\n1 0.5 0.25\n").unwrap() else {
        panic!("expected 1D LUT");
    };
    assert_eq!(lut.size, 2);
    assert_eq!(values(&lut.red), vec![0.0, 1.0]);
    assert_eq!(values(&lut.green), vec![0.0, 0.5]);
    assert_eq!(values(&lut.blue), vec![0.0, 0.25]);
}
