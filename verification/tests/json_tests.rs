use jsonrpc_client::json::{parse_json, Json};

fn encode(v: &Json) -> String {
    let mut out: Vec<u8> = Vec::new();
    jsonrpc_client::json::encode_value(v, &mut out);
    String::from_utf8(out).unwrap()
}

#[test]
fn encode_scalars() {
    assert_eq!(encode(&Json::Null), "null");
    assert_eq!(encode(&Json::Bool(true)), "true");
    assert_eq!(encode(&Json::Bool(false)), "false");
    assert_eq!(encode(&Json::Int(0)), "0");
    assert_eq!(encode(&Json::Int(-9223372036854775808)), "-9223372036854775808");
    assert_eq!(encode(&Json::Int(18446744073709551615)), "18446744073709551615");
}

#[test]
fn encode_escapes_strings() {
    let v = Json::Str(b"a\"b\\c\nd".to_vec());
    assert_eq!(encode(&v), "\"a\\\"b\\\\c\\u000ad\"");
}

#[test]
fn parse_scalars() {
    assert_eq!(parse_json(b"null"), Some(Json::Null));
    assert_eq!(parse_json(b"true"), Some(Json::Bool(true)));
    assert_eq!(parse_json(b" -42 "), Some(Json::Int(-42)));
    assert_eq!(parse_json(b"18446744073709551615"), Some(Json::Int(18446744073709551615)));
}

#[test]
fn parse_rejects_bad_numbers() {
    assert_eq!(parse_json(b"01"), None);
    assert_eq!(parse_json(b"1.5"), None);
    assert_eq!(parse_json(b"1e3"), None);
    assert_eq!(parse_json(b"18446744073709551616"), None);
    assert_eq!(parse_json(b"-9223372036854775809"), None);
    assert_eq!(parse_json(b"-"), None);
}

#[test]
fn parse_string_escapes() {
    assert_eq!(parse_json(b"\"\\u0041\\t\\\"\""), Some(Json::Str(b"A\t\"".to_vec())));
    assert_eq!(parse_json(b"\"\\u0100\""), None);
    assert_eq!(parse_json(b"\"unterminated"), None);
}

#[test]
fn parse_structures_with_whitespace() {
    let v = parse_json(b" { \"a\" : [ 1 , null , \"x\" ] , \"b\" : { } } ").unwrap();
    assert_eq!(
        v,
        Json::Obj(vec![
            (
                b"a".to_vec(),
                Json::Arr(vec![Json::Int(1), Json::Null, Json::Str(b"x".to_vec())])
            ),
            (b"b".to_vec(), Json::Obj(vec![])),
        ])
    );
}

#[test]
fn parse_rejects_malformed_structures() {
    assert_eq!(parse_json(b"[1,]"), None);
    assert_eq!(parse_json(b"{\"a\":1,}"), None);
    assert_eq!(parse_json(b"{\"a\" 1}"), None);
    assert_eq!(parse_json(b"[1 2]"), None);
    assert_eq!(parse_json(b"[1,2] trailing"), None);
    assert_eq!(parse_json(b""), None);
}

#[test]
fn value_round_trips_through_the_codec() {
    let v = Json::Obj(vec![
        (b"k\n".to_vec(), Json::Arr(vec![Json::Int(-1), Json::Bool(false)])),
        (b"nested".to_vec(), Json::Obj(vec![(b"deep".to_vec(), Json::Str(b"v".to_vec()))])),
    ]);
    let text = encode(&v);
    assert_eq!(parse_json(text.as_bytes()), Some(v));
}

#[test]
fn encoding_matches_serde_json_for_plain_values() {
    let v = Json::Obj(vec![
        (b"a".to_vec(), Json::Int(5)),
        (b"b".to_vec(), Json::Arr(vec![Json::Null, Json::Bool(true)])),
    ]);
    let ours = encode(&v);
    let theirs: serde_json::Value = serde_json::from_str(&ours).unwrap();
    assert_eq!(serde_json::to_string(&theirs).unwrap(), ours);
}

#[test]
fn deep_clone_is_structural() {
    let v = Json::Arr(vec![Json::Obj(vec![(b"x".to_vec(), Json::Int(2))]), Json::Null]);
    assert_eq!(v.deep_clone(), v);
    assert!(Json::Null.is_null());
    assert!(!Json::Int(0).is_null());
}
