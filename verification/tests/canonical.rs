use syncer_rs::{merge_json, MergeOptions};

#[test]
fn merge_output_is_yyjson_canonical() {
    // parse must be correctly rounded (float_roundtrip) and the writer
    // must match yyjson, or cross-engine byte parity breaks.
    let cases: &[(&str, &str)] = &[
        ("9e29", "9e29"),
        ("2e34", "2e34"),
        ("6e34", "6e34"),
        ("3e25", "3e25"),
        ("1e11", "100000000000.0"),
        ("7e19", "70000000000000000000.0"),
        ("123.0", "123.0"),
        ("-0.0", "-0.0"),
    ];
    for (input, expected) in cases {
        let merged = merge_json("null", input, &MergeOptions::default()).unwrap();
        assert_eq!(&merged, expected, "input {input}");
    }
}

#[test]
fn number_texts_follow_the_canonical_writer() {
    let cases: &[(&str, &str)] = &[
        ("0.0", "0.0"),
        ("1.0", "1.0"),
        ("45.526", "45.526"),
        ("0.0001", "0.0001"),
        ("0.000001", "0.000001"),
        ("1e-7", "1e-7"),
        ("7e12", "7000000000000.0"),
        ("1e20", "100000000000000000000.0"),
        ("1e21", "1e21"),
        ("9e37", "9e37"),
        ("1.234e56", "1.234e56"),
        ("5e-324", "5e-324"),
        ("-2.5e-10", "-2.5e-10"),
        ("1.7976931348623157e308", "1.7976931348623157e308"),
        ("12", "12"),
        ("-12", "-12"),
        ("18446744073709551615", "18446744073709551615"),
        ("18446744073709551616", "18446744073709552000.0"),
    ];
    for (input, expected) in cases {
        let merged = merge_json("null", input, &MergeOptions::default()).unwrap();
        assert_eq!(&merged, expected, "input {input}");
    }
}

#[test]
fn doubles_match_the_yyjson_writer() {
    let cases: &[(f64, &str)] = &[
        (0.0, "0.0"),
        (-0.0, "-0.0"),
        (1.0, "1.0"),
        (123.0, "123.0"),
        (45.526, "45.526"),
        (0.0001, "0.0001"),
        (0.000001, "0.000001"),
        (1e-7, "1e-7"),
        (1e11, "100000000000.0"),
        (7e12, "7000000000000.0"),
        (1e20, "100000000000000000000.0"),
        (1e21, "1e21"),
        (2e34, "2e34"),
        (9e37, "9e37"),
        (1.234e56, "1.234e56"),
        (5e-324, "5e-324"),
        (-2.5e-10, "-2.5e-10"),
        (f64::MAX, "1.7976931348623157e308"),
    ];
    for (value, expected) in cases {
        // The shortest round-trip text of the double, as a JSON number.
        let input = format!("{value:e}");
        let merged = merge_json("null", &input, &MergeOptions::default()).unwrap();
        assert_eq!(&merged, expected, "value {value:e}");
    }
}
