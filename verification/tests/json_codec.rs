use vm_map::json::{parse_json, write_json, JField, Json};

fn rewrite(s: &str) -> Option<String> {
    parse_json(s).map(|j| write_json(&j))
}

#[test]
fn write_simple_document() {
    let doc = Json::Obj(vec![
        JField {
            key: "a".to_string(),
            val: Json::Arr(vec![Json::Num(1), Json::Bool(true), Json::Null]),
        },
        JField {
            key: "b".to_string(),
            val: Json::Str("hi".to_string()),
        },
    ]);
    assert_eq!(write_json(&doc), "{\"a\":[1,true,null],\"b\":\"hi\"}");
}

#[test]
fn parse_tolerates_whitespace() {
    let r = rewrite(" { \"a\" : [ 1 , true , null ] } ").unwrap();
    assert_eq!(r, "{\"a\":[1,true,null]}");
}

#[test]
fn round_trip_escapes() {
    let doc = Json::Str("a\"b\\c\nd\u{0001}e\tf\rg".to_string());
    let text = write_json(&doc);
    assert_eq!(text, "\"a\\\"b\\\\c\\nd\\u0001e\\tf\\rg\"");
    let back = parse_json(&text).unwrap();
    match back {
        Json::Str(s) => assert_eq!(s, "a\"b\\c\nd\u{0001}e\tf\rg"),
        _ => panic!("expected a string"),
    }
}

#[test]
fn round_trip_nested() {
    let doc = Json::Obj(vec![
        JField {
            key: "outer".to_string(),
            val: Json::Obj(vec![JField {
                key: "inner".to_string(),
                val: Json::Arr(vec![
                    Json::Num(0),
                    Json::Num(18446744073709551615),
                    Json::Str("é ok".to_string()),
                ]),
            }]),
        },
        JField {
            key: "empty_arr".to_string(),
            val: Json::Arr(vec![]),
        },
        JField {
            key: "empty_obj".to_string(),
            val: Json::Obj(vec![]),
        },
    ]);
    let text = write_json(&doc);
    assert_eq!(rewrite(&text).unwrap(), text);
}

#[test]
fn parse_number_limits() {
    match parse_json("18446744073709551615").unwrap() {
        Json::Num(n) => assert_eq!(n, u64::MAX),
        _ => panic!("the largest plain integer stays a number"),
    }
    assert!(matches!(
        parse_json("18446744073709551616").unwrap(),
        Json::NumOther(_)
    ));
    assert!(parse_json("01").is_none());
    assert!(parse_json("0").is_some());
}

#[test]
fn parse_rejects_malformed() {
    assert!(parse_json("").is_none());
    assert!(parse_json("{").is_none());
    assert!(parse_json("{\"a\":}").is_none());
    assert!(parse_json("[1,]").is_none());
    assert!(parse_json("\"unterminated").is_none());
    assert!(parse_json("{\"a\":1} trailing").is_none());
}

#[test]
fn numbers_outside_u64_are_carried_as_text() {
    assert_eq!(rewrite("-5").unwrap(), "-5");
    assert_eq!(rewrite("3.25").unwrap(), "3.25");
    assert_eq!(rewrite("1.5e-3").unwrap(), "1.5e-3");
    assert_eq!(rewrite("2E+10").unwrap(), "2E+10");
    assert_eq!(
        rewrite("18446744073709551616").unwrap(),
        "18446744073709551616"
    );
    assert_eq!(rewrite("[0.5, -1, 7]").unwrap(), "[0.5,-1,7]");
    match parse_json("7").unwrap() {
        Json::Num(n) => assert_eq!(n, 7),
        _ => panic!("a plain integer stays a number"),
    }
    match parse_json("-7").unwrap() {
        Json::NumOther(t) => assert_eq!(t, "-7"),
        _ => panic!("a signed integer is carried as text"),
    }
}

#[test]
fn malformed_numbers_rejected() {
    assert!(parse_json("-").is_none());
    assert!(parse_json("1.").is_none());
    assert!(parse_json(".5").is_none());
    assert!(parse_json("1e").is_none());
    assert!(parse_json("1e+").is_none());
    assert!(parse_json("01").is_none());
    assert!(parse_json("--1").is_none());
}

#[test]
fn parse_unicode_escape() {
    let back = parse_json("\"\\u0009\"").unwrap();
    match back {
        Json::Str(s) => assert_eq!(s, "\t"),
        _ => panic!("expected a string"),
    }
}
