use cjson::parse::parse_json;
use cjson::parse::ParseErrorKind;
use cjson::ser::json_to_string;
use cjson::ser::json_to_string_custom;
use cjson::ser::SerializeError;
use cjson::value::Json;
use cjson::value::JsonError;
use cjson::value::JsonNumber;
use cjson::value::JsonValue;

fn num_token(v: &JsonValue) -> &str {
    match v {
        JsonValue::Num(JsonNumber::Finite(t)) => t.as_str(),
        _ => panic!("not a finite number"),
    }
}

#[test]
fn construct_and_serialize_compact() {
    let mut obj = Json::new_object();
    obj.add_to_object("name", Json::string("Ada")).unwrap();
    obj.add_to_object("age", Json::number(36)).unwrap();
    obj.add_to_object("student", Json::boolean(false)).unwrap();
    obj.add_to_object("spouse", Json::null()).unwrap();
    let s = json_to_string(&obj, false).unwrap();
    assert_eq!(
        s,
        "{\"name\":\"Ada\",\"age\":36,\"student\":false,\"spouse\":null}"
    );
}

#[test]
fn number_tokens_render_decimal() {
    assert_eq!(json_to_string(&Json::number(0), false).unwrap(), "0");
    assert_eq!(json_to_string(&Json::number(25), false).unwrap(), "25");
    assert_eq!(json_to_string(&Json::number(-7), false).unwrap(), "-7");
    assert_eq!(
        json_to_string(&Json::number(i64::MIN), false).unwrap(),
        "-9223372036854775808"
    );
}

#[test]
fn type_guarded_mutation() {
    let mut obj = Json::new_object();
    assert_eq!(obj.add_to_array(Json::null()), Err(JsonError::TypeMismatch));
    let mut arr = Json::new_array();
    assert_eq!(
        arr.add_to_object("k", Json::null()),
        Err(JsonError::TypeMismatch)
    );
    assert_eq!(arr.add_to_array(Json::number(1)), Ok(()));
    assert_eq!(obj.add_to_object("k", Json::number(1)), Ok(()));
}

#[test]
fn duplicate_key_overwrite() {
    let doc = parse_json("{\"a\":1,\"a\":2}").unwrap();
    let v = doc.get_from_object("a").expect("key must be present");
    assert_eq!(num_token(v), "2");
    // the overwritten pair is gone, not shadowed
    assert_eq!(json_to_string(&doc, false).unwrap(), "{\"a\":2}");
}

#[test]
fn escape_round_trip() {
    let doc = Json::string("a\"b\nc");
    let s = json_to_string(&doc, false).unwrap();
    assert_eq!(s, "\"a\\\"b\\nc\"");
    let back = parse_json(&s).unwrap();
    match &back.value {
        JsonValue::Str(p) => assert_eq!(p, "a\"b\nc"),
        _ => panic!("expected a string"),
    }
    assert_eq!(back, doc);
}

#[test]
fn control_characters_escape_as_hex() {
    let doc = Json::string("\u{1}\u{1f}");
    let s = json_to_string(&doc, false).unwrap();
    assert_eq!(s, "\"\\u0001\\u001f\"");
}

#[test]
fn indentation_contract() {
    let mut obj = Json::new_object();
    obj.add_to_object("x", Json::number(1)).unwrap();
    let s = json_to_string_custom(&obj, 2, ' ').unwrap();
    assert_eq!(s, "{\n  \"x\": 1\n}");
    // the two-space pretty mode renders the same text
    assert_eq!(json_to_string(&obj, true).unwrap(), s);
}

#[test]
fn custom_indentation_tabs() {
    let mut obj = Json::new_object();
    obj.add_to_object("x", Json::number(1)).unwrap();
    let s = json_to_string_custom(&obj, 1, '\t').unwrap();
    assert_eq!(s, "{\n\t\"x\": 1\n}");
}

#[test]
fn strict_rejection() {
    assert!(parse_json("{ \"a\": }").is_err());
    assert!(parse_json("{'a':1}").is_err());
    assert!(parse_json("[1,2,]").is_err());
    assert!(parse_json("").is_err());
    assert!(parse_json("truex").is_err());
    assert!(parse_json("[1 2]").is_err());
    assert!(parse_json("{\"a\":1").is_err());
    assert!(parse_json("01").is_err());
    assert!(parse_json("1.").is_err());
    assert!(parse_json("// c\n1").is_err());
}

#[test]
fn empty_container_rendering() {
    let arr = Json::new_array();
    assert_eq!(json_to_string_custom(&arr, 2, ' ').unwrap(), "[]");
    let obj = Json::new_object();
    assert_eq!(json_to_string(&obj, false).unwrap(), "{}");
    assert_eq!(json_to_string(&obj, true).unwrap(), "{}");
}

#[test]
fn compact_round_trip() {
    let mut obj = Json::new_object();
    obj.add_to_object("name", Json::string("zh\u{4e2d}")).unwrap();
    let mut scores = Json::new_array();
    scores.add_to_array(Json::number(85)).unwrap();
    scores.add_to_array(Json::number(-3)).unwrap();
    scores.add_to_array(Json::boolean(true)).unwrap();
    scores.add_to_array(Json::null()).unwrap();
    obj.add_to_object("scores", scores).unwrap();
    let mut inner = Json::new_object();
    inner.add_to_object("city", Json::string("x y\tz")).unwrap();
    obj.add_to_object("address", inner).unwrap();

    let s1 = json_to_string(&obj, false).unwrap();
    let back = parse_json(&s1).unwrap();
    let s2 = json_to_string(&back, false).unwrap();
    assert_eq!(s1, s2);
    assert_eq!(back, obj);
}

#[test]
fn pretty_round_trip() {
    let mut obj = Json::new_object();
    obj.add_to_object("a", Json::number(1)).unwrap();
    let mut arr = Json::new_array();
    arr.add_to_array(Json::string("s")).unwrap();
    arr.add_to_array(Json::new_object()).unwrap();
    obj.add_to_object("b", arr).unwrap();

    let pretty = json_to_string(&obj, true).unwrap();
    let back = parse_json(&pretty).unwrap();
    assert_eq!(
        json_to_string(&back, false).unwrap(),
        json_to_string(&obj, false).unwrap()
    );
}

#[test]
fn parse_whitespace_and_nesting() {
    let doc = parse_json(" { \"skills\" : [ \"Rust\" , \"C\" ] , \"zip\" : \"200000\" } ")
        .unwrap();
    let skills = doc.get_from_object("skills").unwrap();
    match skills {
        JsonValue::Arr(elems) => assert_eq!(elems.len(), 2),
        _ => panic!("expected an array"),
    }
    assert!(doc.get_from_object("missing").is_none());
}

#[test]
fn number_grammar_round_trip() {
    for t in ["3.25", "-0.5", "1e3", "2E+8", "123e-4", "0.0001", "-9"] {
        let doc = parse_json(t).unwrap();
        assert_eq!(json_to_string(&doc, false).unwrap(), t);
    }
}

#[test]
fn unicode_escapes() {
    let doc = parse_json("\"\\u0041\\u00e9\"").unwrap();
    match &doc.value {
        JsonValue::Str(p) => assert_eq!(p, "A\u{e9}"),
        _ => panic!("expected a string"),
    }
    let pair = parse_json("\"\\ud83d\\ude00\"").unwrap();
    match &pair.value {
        JsonValue::Str(p) => assert_eq!(p, "\u{1f600}"),
        _ => panic!("expected a string"),
    }
    assert!(parse_json("\"\\udc00\"").is_err());
    assert!(parse_json("\"\\ud83dx\"").is_err());
    assert!(parse_json("\"\\q\"").is_err());
    assert!(parse_json("\"\u{1}\"").is_err());
}

#[test]
fn non_finite_numbers_are_refused() {
    let doc = Json { value: JsonValue::Num(JsonNumber::Nan) };
    assert_eq!(
        json_to_string(&doc, false),
        Err(SerializeError::NonFiniteNumber)
    );
    let mut arr = Json::new_array();
    arr.add_to_array(Json { value: JsonValue::Num(JsonNumber::Inf(true)) })
        .unwrap();
    assert_eq!(
        json_to_string_custom(&arr, 4, ' '),
        Err(SerializeError::NonFiniteNumber)
    );
}

#[test]
fn parse_error_offsets() {
    let e = parse_json("[1,2,]").unwrap_err();
    assert_eq!(e.kind, ParseErrorKind::UnexpectedChar);
    assert_eq!(e.offset, 5);
    let e = parse_json("1 2").unwrap_err();
    assert_eq!(e.kind, ParseErrorKind::TrailingData);
    assert_eq!(e.offset, 2);
    let e = parse_json("\"ab").unwrap_err();
    assert_eq!(e.kind, ParseErrorKind::UnexpectedEnd);
}

#[test]
fn get_from_array_bounds() {
    let mut arr = Json::new_array();
    arr.add_to_array(Json::number(7)).unwrap();
    assert_eq!(num_token(arr.get_from_array(0).unwrap()), "7");
    assert!(arr.get_from_array(1).is_none());
    assert!(Json::null().get_from_array(0).is_none());
    assert!(Json::null().get_from_object("k").is_none());
}

#[test]
fn compact_output_has_no_whitespace() {
    let mut obj = Json::new_object();
    obj.add_to_object("k1", Json::number(1)).unwrap();
    let mut arr = Json::new_array();
    arr.add_to_array(Json::string("tab\tand\nnewline")).unwrap();
    obj.add_to_object("k2", arr).unwrap();
    let s = json_to_string(&obj, false).unwrap();
    // the raw tab and newline were escaped, so nothing whitespace remains
    assert!(!s.contains(' '));
    assert!(!s.contains('\n'));
    assert!(!s.contains('\t'));
    assert!(!s.contains('\r'));
}
