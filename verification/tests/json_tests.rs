use devsync::json::{get_value_in_object, merge_body, Json};
use devsync::jsontext::{parse_text, to_text};

fn parse(s: &str) -> Json {
    parse_text(s).expect("test value must parse")
}

fn text(j: &Json) -> String {
    to_text(j)
}

#[test]
fn parse_and_serialize_round_trip() {
    let cases = [
        "null",
        "true",
        "false",
        "42",
        "-17",
        "3.5",
        "\"hello\"",
        "\"esc\\\"aped\\\\\"",
        "[]",
        "[1,2,3]",
        "{}",
        "{\"a\":1}",
        "{\"a\":{\"b\":[10,20,30]},\"c\":\"x\"}",
    ];
    for c in cases {
        let v = parse(c);
        assert_eq!(text(&v), *c);
    }
}

#[test]
fn parse_accepts_whitespace() {
    let v = parse("  { \"a\" : [ 1 , 2 ] }  ");
    assert_eq!(text(&v), "{\"a\":[1,2]}");
}

#[test]
fn parse_rejects_malformed() {
    assert!(parse_text("").is_none());
    assert!(parse_text("{").is_none());
    assert!(parse_text("[1,]").is_none());
    assert!(parse_text("{\"a\":}").is_none());
    assert!(parse_text("tru").is_none());
    assert!(parse_text("\"unterminated").is_none());
    assert!(parse_text("{} trailing").is_none());
}

#[test]
fn parse_follows_the_number_grammar() {
    for ok in ["0", "-0", "10", "3.5", "-0.5e+10", "1E2", "6e-1"] {
        let v = parse_text(ok).expect("valid JSON number");
        assert_eq!(text(&v), *ok);
    }
    for bad in ["-", "+1", "1.", ".5", "01", "007", "1e", "1e+", "1e5e5", "1+2", "1.2.3"] {
        assert!(parse_text(bad).is_none(), "{} must be rejected", bad);
    }
}

#[test]
fn parse_keeps_later_duplicate_key() {
    let v = parse("{\"a\":1,\"a\":2}");
    assert_eq!(text(&v), "{\"a\":2}");
}

#[test]
fn merge_disjoint_objects() {
    let a = parse("{\"x\":1}");
    let b = parse("{\"y\":2}");
    assert_eq!(text(&merge_body(&a, &b)), "{\"x\":1,\"y\":2}");
}

#[test]
fn merge_nested_objects() {
    let a = parse("{\"x\":{\"y\":1}}");
    let b = parse("{\"x\":{\"z\":2}}");
    assert_eq!(text(&merge_body(&a, &b)), "{\"x\":{\"y\":1,\"z\":2}}");
}

#[test]
fn merge_arrays_concatenates() {
    let a = parse("[1,2]");
    let b = parse("[3]");
    assert_eq!(text(&merge_body(&a, &b)), "[1,2,3]");
}

#[test]
fn merge_scalar_mismatch_keeps_left() {
    let a = parse("\"foo\"");
    let b = parse("5");
    assert_eq!(text(&merge_body(&a, &b)), "\"foo\"");
}

#[test]
fn merge_self_is_identity_without_arrays() {
    let a = parse("{\"x\":1,\"y\":{\"z\":true,\"w\":\"s\"}}");
    assert_eq!(text(&merge_body(&a, &a)), text(&a));
}

#[test]
fn merge_self_duplicates_arrays() {
    // Arrays concatenate, so merging a value with itself is not the
    // identity once an array is involved.
    let a = parse("[1,2]");
    assert_eq!(text(&merge_body(&a, &a)), "[1,2,1,2]");
}

#[test]
fn get_indexed_path() {
    let obj = parse("{\"a\":{\"b\":[10,20,30]}}");
    let got = get_value_in_object(&obj, "a.b[1]").expect("path is well formed");
    assert_eq!(text(&got), "20");
}

#[test]
fn get_missing_field_returns_root() {
    let obj = parse("{\"a\":1}");
    let got = get_value_in_object(&obj, "missing.field").expect("path is well formed");
    assert_eq!(text(&got), "{\"a\":1}");
}

#[test]
fn get_multi_index() {
    let obj = parse("{\"orders\":[[1,2],[3,4]]}");
    let got = get_value_in_object(&obj, "orders[1][0]").expect("path is well formed");
    assert_eq!(text(&got), "3");
}

#[test]
fn get_out_of_range_index_is_no_op() {
    let obj = parse("{\"a\":[1]}");
    let got = get_value_in_object(&obj, "a[9]").expect("path is well formed");
    assert_eq!(text(&got), "[1]");
}

#[test]
fn get_malformed_path_is_rejected() {
    let obj = parse("{\"a\":1}");
    assert!(get_value_in_object(&obj, "a[x]").is_none());
    assert!(get_value_in_object(&obj, "a[]").is_none());
    assert!(get_value_in_object(&obj, "a1]").is_none());
}

#[test]
fn as_i64_reads_integers() {
    assert_eq!(parse("3000").as_i64(), Some(3000));
    assert_eq!(parse("-12").as_i64(), Some(-12));
    assert_eq!(parse("3.5").as_i64(), None);
    assert_eq!(parse("\"7\"").as_i64(), None);
}
