use jsonrpc_client::json::Json;
use jsonrpc_client::response::{
    decode_notification, decode_response, encode_response, DecodeError, ErrorObject, Id,
    NotifDecodeError, Response, ResponsePayload, SubscriptionNote, Success, TwoPointZero,
};

fn ok_response(jsonrpc: Option<TwoPointZero>, payload: ResponsePayload, id: Id) -> Response {
    Response { jsonrpc, payload, id, extensions: http::Extensions::new() }
}

#[test]
fn serialize_call_ok_response() {
    let r = ok_response(
        Some(TwoPointZero),
        ResponsePayload::success(Json::Str(b"ok".to_vec())),
        Id::Number(1),
    );
    let ser = String::from_utf8(encode_response(&r)).unwrap();
    let exp = r#"{"jsonrpc":"2.0","id":1,"result":"ok"}"#;
    assert_eq!(ser, exp);
}

#[test]
fn serialize_call_err_response() {
    let r = ok_response(
        Some(TwoPointZero),
        ResponsePayload::error(ErrorObject { code: 1, message: b"lo".to_vec(), data: None }),
        Id::Number(1),
    );
    let ser = String::from_utf8(encode_response(&r)).unwrap();
    let exp = r#"{"jsonrpc":"2.0","id":1,"error":{"code":1,"message":"lo"}}"#;
    assert_eq!(ser, exp);
}

#[test]
fn serialize_call_response_missing_version_field() {
    let r = ok_response(None, ResponsePayload::success(Json::Str(b"ok".to_vec())), Id::Number(1));
    let ser = String::from_utf8(encode_response(&r)).unwrap();
    let exp = r#"{"id":1,"result":"ok"}"#;
    assert_eq!(ser, exp);
}

#[test]
fn deserialize_success_call() {
    let exp = ok_response(
        Some(TwoPointZero),
        ResponsePayload::success(Json::Int(99)),
        Id::Number(11),
    );
    let dsr = decode_response(r#"{"jsonrpc":"2.0", "result":99, "id":11}"#.as_bytes()).unwrap();
    assert_eq!(dsr.jsonrpc, exp.jsonrpc);
    assert_eq!(dsr.payload, exp.payload);
    assert_eq!(dsr.id, exp.id);
}

#[test]
fn deserialize_err_call() {
    let exp = ok_response(
        Some(TwoPointZero),
        ResponsePayload::error(ErrorObject { code: 1, message: b"lo".to_vec(), data: None }),
        Id::Number(11),
    );
    let dsr =
        decode_response(r#"{"jsonrpc":"2.0","error":{"code":1,"message":"lo"},"id":11}"#.as_bytes())
            .unwrap();
    assert_eq!(dsr.jsonrpc, exp.jsonrpc);
    assert_eq!(dsr.payload, exp.payload);
    assert_eq!(dsr.id, exp.id);
}

#[test]
fn deserialize_call_missing_version_field() {
    let exp = ok_response(None, ResponsePayload::success(Json::Int(99)), Id::Number(11));
    let dsr = decode_response(r#"{"jsonrpc":null, "result":99, "id":11}"#.as_bytes()).unwrap();
    assert_eq!(dsr.jsonrpc, exp.jsonrpc);
    assert_eq!(dsr.payload, exp.payload);
    assert_eq!(dsr.id, exp.id);
}

#[test]
fn deserialize_with_unknown_field() {
    let exp = ok_response(None, ResponsePayload::success(Json::Int(99)), Id::Number(11));
    let dsr =
        decode_response(r#"{"jsonrpc":null, "result":99, "id":11, "unknown":11}"#.as_bytes())
            .unwrap();
    assert_eq!(dsr.jsonrpc, exp.jsonrpc);
    assert_eq!(dsr.payload, exp.payload);
    assert_eq!(dsr.id, exp.id);
}

#[test]
fn round_trip_success_payload() {
    let r = ok_response(
        Some(TwoPointZero),
        ResponsePayload::success(Json::Arr(vec![Json::Int(-7), Json::Bool(true), Json::Null])),
        Id::Str(b"abc".to_vec()),
    );
    let bytes = encode_response(&r);
    let back = decode_response(&bytes).unwrap();
    assert_eq!(back.jsonrpc, r.jsonrpc);
    assert_eq!(back.payload, r.payload);
    assert_eq!(back.id, r.id);
}

#[test]
fn round_trip_error_payload_with_data() {
    let r = ok_response(
        None,
        ResponsePayload::error(ErrorObject {
            code: -32700,
            message: b"parse error".to_vec(),
            data: Some(Json::Obj(vec![(b"line".to_vec(), Json::Int(3))])),
        }),
        Id::Null,
    );
    let bytes = encode_response(&r);
    let back = decode_response(&bytes).unwrap();
    assert_eq!(back.jsonrpc, r.jsonrpc);
    assert_eq!(back.payload, r.payload);
    assert_eq!(back.id, r.id);
}

#[test]
fn reencode_after_null_version_omits_field() {
    let dsr = decode_response(r#"{"jsonrpc":null,"result":1,"id":2}"#.as_bytes()).unwrap();
    assert_eq!(dsr.jsonrpc, None);
    let ser = String::from_utf8(encode_response(&dsr)).unwrap();
    assert_eq!(ser, r#"{"id":2,"result":1}"#);
}

#[test]
fn decode_rejects_both_result_and_error() {
    let r = decode_response(
        r#"{"jsonrpc":"2.0","result":1,"error":{"code":1,"message":"x"},"id":1}"#.as_bytes(),
    );
    assert_eq!(r.unwrap_err(), DecodeError::BothResultAndError);
}

#[test]
fn decode_rejects_missing_payload() {
    let r = decode_response(r#"{"jsonrpc":"2.0","id":1}"#.as_bytes());
    assert_eq!(r.unwrap_err(), DecodeError::MissingPayload);
}

#[test]
fn decode_rejects_missing_id() {
    let r = decode_response(r#"{"jsonrpc":"2.0","result":1}"#.as_bytes());
    assert_eq!(r.unwrap_err(), DecodeError::MissingId);
}

#[test]
fn decode_rejects_duplicate_field() {
    let r = decode_response(r#"{"result":1,"result":2,"id":1}"#.as_bytes());
    assert_eq!(r.unwrap_err(), DecodeError::DuplicateField);
}

#[test]
fn decode_rejects_bad_version() {
    let r = decode_response(r#"{"jsonrpc":"3.0","result":1,"id":1}"#.as_bytes());
    assert_eq!(r.unwrap_err(), DecodeError::InvalidVersion);
}

#[test]
fn decode_rejects_bad_id() {
    let r = decode_response(r#"{"result":1,"id":-4}"#.as_bytes());
    assert_eq!(r.unwrap_err(), DecodeError::InvalidId);
}

#[test]
fn decode_rejects_bad_error_object() {
    let r = decode_response(r#"{"error":{"message":"x"},"id":1}"#.as_bytes());
    assert_eq!(r.unwrap_err(), DecodeError::InvalidErrorObject);
}

#[test]
fn decode_rejects_syntax_and_non_objects() {
    assert_eq!(decode_response(b"{").unwrap_err(), DecodeError::Syntax);
    assert_eq!(decode_response(b"[1,2]").unwrap_err(), DecodeError::Syntax);
    assert_eq!(decode_response(b"{\"id\":1,\"result\":1} x").unwrap_err(), DecodeError::Syntax);
}

#[test]
fn success_try_from_both_arms() {
    let ok = ok_response(None, ResponsePayload::success(Json::Int(5)), Id::Number(1));
    let s = Success::try_from(ok).unwrap();
    assert_eq!(s.result, Json::Int(5));
    assert_eq!(s.id, Id::Number(1));

    let e = ok_response(
        None,
        ResponsePayload::error(ErrorObject { code: 7, message: b"no".to_vec(), data: None }),
        Id::Number(2),
    );
    let err = Success::try_from(e).unwrap_err();
    assert_eq!(err.code, 7);
    assert_eq!(err.message, b"no".to_vec());
}

#[test]
fn payload_constructors_and_into_owned() {
    let v = Json::Str(b"hey".to_vec());
    let p1 = ResponsePayload::success_borrowed(&v);
    assert_eq!(p1, ResponsePayload::success(Json::Str(b"hey".to_vec())));
    assert_eq!(p1.into_owned(), ResponsePayload::success(Json::Str(b"hey".to_vec())));

    let e = ErrorObject { code: -1, message: b"m".to_vec(), data: Some(Json::Null) };
    let p2 = ResponsePayload::error_borrowed(&e);
    assert_eq!(p2, ResponsePayload::error(e));
}

#[test]
fn response_constructors_keep_fields() {
    let r = Response::new(ResponsePayload::success(Json::Int(1)), Id::Number(9));
    assert_eq!(r.jsonrpc, Some(TwoPointZero));
    assert_eq!(r.id, Id::Number(9));
    let owned = r.into_owned();
    assert_eq!(owned.payload, ResponsePayload::success(Json::Int(1)));

    let mut r2 = Response::new_with_extensions(
        ResponsePayload::success(Json::Int(2)),
        Id::Null,
        http::Extensions::new(),
    );
    r2.extensions_mut().insert(5u32);
    assert_eq!(r2.extensions().get::<u32>(), Some(&5u32));
}

#[test]
fn largest_numeric_id_round_trips() {
    let r = ok_response(
        Some(TwoPointZero),
        ResponsePayload::success(Json::Null),
        Id::Number(u64::MAX),
    );
    let bytes = encode_response(&r);
    let back = decode_response(&bytes).unwrap();
    assert_eq!(back.id, Id::Number(u64::MAX));
}

#[test]
fn decode_notification_result_and_error_payloads() {
    let (m, note) = decode_notification(
        r#"{"jsonrpc":"2.0","method":"sub","params":{"subscription":5,"result":42}}"#.as_bytes(),
    )
    .unwrap();
    assert_eq!(m, b"sub".to_vec());
    match note {
        SubscriptionNote::Result(p) => {
            assert_eq!(p.subscription, Id::Number(5));
            assert_eq!(p.result, Json::Int(42));
        }
        SubscriptionNote::Error(_) => panic!("expected a result payload"),
    }

    let (_, note2) = decode_notification(
        r#"{"method":"sub","params":{"subscription":"s1","error":"gone"}}"#.as_bytes(),
    )
    .unwrap();
    match note2 {
        SubscriptionNote::Error(p) => {
            assert_eq!(p.subscription, Id::Str(b"s1".to_vec()));
            assert_eq!(p.error, Json::Str(b"gone".to_vec()));
        }
        SubscriptionNote::Result(_) => panic!("expected an error payload"),
    }
}

#[test]
fn decode_notification_rejects_malformed_envelopes() {
    let e1 = decode_notification(
        r#"{"method":"sub","id":1,"params":{"subscription":5,"result":1}}"#.as_bytes(),
    )
    .unwrap_err();
    assert_eq!(e1, NotifDecodeError::HasId);
    let e2 = decode_notification(r#"{"method":"sub","params":{"result":1}}"#.as_bytes())
        .unwrap_err();
    assert_eq!(e2, NotifDecodeError::MissingSubscription);
    let e3 = decode_notification(r#"{"params":{"subscription":5,"result":1}}"#.as_bytes())
        .unwrap_err();
    assert_eq!(e3, NotifDecodeError::MissingMethod);
    let e4 = decode_notification(
        r#"{"method":"sub","params":{"subscription":5,"result":1,"error":2}}"#.as_bytes(),
    )
    .unwrap_err();
    assert_eq!(e4, NotifDecodeError::BothResultAndError);
}

#[test]
fn encoded_response_is_valid_json_for_serde() {
    let r = ok_response(
        Some(TwoPointZero),
        ResponsePayload::error(ErrorObject {
            code: -3,
            message: b"deep \"quote\"".to_vec(),
            data: Some(Json::Arr(vec![Json::Int(1), Json::Str(b"x".to_vec())])),
        }),
        Id::Number(77),
    );
    let bytes = encode_response(&r);
    let v: serde_json::Value = serde_json::from_slice(&bytes).unwrap();
    assert_eq!(v["jsonrpc"], serde_json::Value::from("2.0"));
    assert_eq!(v["id"], serde_json::Value::from(77u64));
    assert_eq!(v["error"]["code"], serde_json::Value::from(-3i64));
    assert_eq!(v["error"]["message"], serde_json::Value::from("deep \"quote\""));
    assert_eq!(v["error"]["data"][0], serde_json::Value::from(1u64));
}
