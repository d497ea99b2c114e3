use lightfield::grammar::{parse_i32, parse_name, is_float_syntax, split_fields, NumberKind,
    ParseError};

#[test]
fn field_mapping() {
    let r = parse_name("x_7_3_1.5_-2.25_suffix.png").unwrap();
    assert_eq!(r.0, 7);
    assert_eq!(r.1, 3);
    assert_eq!(r.2, "1.5");
    assert_eq!(r.3, "-2.25");
    // Parsing is a pure function of the name: a second parse agrees.
    let again = parse_name("x_7_3_1.5_-2.25_suffix.png").unwrap();
    assert_eq!(r, again);
}

#[test]
fn example_name_from_convention() {
    let r = parse_name("rectified_00_01_-0.125_0.250_crop.png").unwrap();
    assert_eq!(r.0, 0);
    assert_eq!(r.1, 1);
    assert_eq!(r.2, "-0.125");
    assert_eq!(r.3, "0.250");
}

#[test]
fn extension_glued_to_last_float_fails() {
    // With exactly five fields the extension lands inside the fifth one,
    // which is then not a float literal.
    let e = parse_name("rectified_00_01_-0.125_0.250.png").unwrap_err();
    assert_eq!(e, ParseError::InvalidNumber(String::from("0.250.png"), NumberKind::Float));
}

#[test]
fn trailing_suffix_field_is_ignored() {
    let r = parse_name("cam_2_4_0.5_1.0_extra_and_more.png").unwrap();
    assert_eq!((r.0, r.1), (2, 4));
    assert_eq!(r.2, "0.5");
    assert_eq!(r.3, "1.0");
}

#[test]
fn negative_indices_and_offsets() {
    let r = parse_name("v_-2_-10_-0.5_0.0_s.png").unwrap();
    assert_eq!(r.0, -2);
    assert_eq!(r.1, -10);
    assert_eq!(r.2, "-0.5");
    assert_eq!(r.3, "0.0");
}

#[test]
fn too_few_fields() {
    let e = parse_name("onlythreeparts_1_2.png").unwrap_err();
    assert_eq!(e, ParseError::InvalidFormat(String::from("onlythreeparts_1_2.png")));
}

#[test]
fn bad_int_field() {
    let e = parse_name("v_1x_2_0.5_0.5_s.png").unwrap_err();
    assert_eq!(e, ParseError::InvalidNumber(String::from("1x"), NumberKind::Int));
}

#[test]
fn bad_float_field_names_the_field() {
    let e = parse_name("v_1_2_abc_0.5_s.png").unwrap_err();
    assert_eq!(e, ParseError::InvalidNumber(String::from("abc"), NumberKind::Float));
}

#[test]
fn int_parse_range() {
    assert_eq!(parse_i32("2147483647"), Some(2147483647));
    assert_eq!(parse_i32("-2147483648"), Some(-2147483648));
    assert_eq!(parse_i32("2147483648"), None);
    assert_eq!(parse_i32("-2147483649"), None);
    assert_eq!(parse_i32("00000000000000000007"), Some(7));
    assert_eq!(parse_i32("+42"), Some(42));
    assert_eq!(parse_i32("-0"), Some(0));
    assert_eq!(parse_i32(""), None);
    assert_eq!(parse_i32("-"), None);
    assert_eq!(parse_i32("1.5"), None);
}

#[test]
fn float_syntax_forms() {
    for ok in ["1", "1.", ".5", "-0.125", "+3e10", "1.5E-3", "0.250", "0", "-2.25"] {
        assert!(is_float_syntax(ok), "{}", ok);
    }
    for bad in ["", ".", "-", "abc", "1e", "--1", "1.2.3", "inf", "nan", "1e2.5"] {
        assert!(!is_float_syntax(bad), "{}", bad);
    }
}

#[test]
fn splitting() {
    assert_eq!(split_fields("a_b__c"), vec!["a", "b", "", "c"]);
    assert_eq!(split_fields(""), vec![""]);
    assert_eq!(split_fields("_x_"), vec!["", "x", ""]);
    assert_eq!(split_fields("plain"), vec!["plain"]);
}
