use pico::json::{json_to_string, JsonValue};
use pico::{PicoResponse, ResponseCode};

#[test]
fn status_codes_and_phrases() {
    assert_eq!(ResponseCode::Okay.to_code(), 200);
    assert_eq!(ResponseCode::Okay.to_str(), "OK");
    assert_eq!(ResponseCode::BadRequest.to_code(), 400);
    assert_eq!(ResponseCode::BadRequest.to_str(), "Bad Request");
    assert_eq!(ResponseCode::Unauthorized.to_code(), 401);
    assert_eq!(ResponseCode::Unauthorized.to_str(), "Unauthorized");
    assert_eq!(ResponseCode::NotFound.to_code(), 404);
    assert_eq!(ResponseCode::NotFound.to_str(), "Not Found");
    assert_eq!(ResponseCode::HeaderFieldsTooLarge.to_code(), 431);
    assert_eq!(ResponseCode::HeaderFieldsTooLarge.to_str(), "Header Fields Too Large");
    assert_eq!(ResponseCode::InternalError.to_code(), 500);
    assert_eq!(ResponseCode::InternalError.to_str(), "Internal Server Error");
}

#[test]
fn bare_response_bytes() {
    assert_eq!(ResponseCode::Okay.to_bytes(), b"HTTP/1.1 200 OK\r\n\r\n".to_vec());
    assert_eq!(
        ResponseCode::HeaderFieldsTooLarge.to_bytes(),
        b"HTTP/1.1 431 Header Fields Too Large\r\n\r\n".to_vec(),
    );
}

#[test]
fn error_responses_carry_a_json_document() {
    let resp = PicoResponse::error(ResponseCode::NotFound, "Route not found");
    assert_eq!(resp.status.to_code(), 404);
    assert_eq!(
        String::from_utf8(resp.body.clone()).unwrap(),
        "{\"error\":{\"code\":\"Not Found\",\"message\":\"Route not found\"}}",
    );
    assert_eq!(
        resp.headers,
        vec![("Content-Type".to_string(), vec!["application/json".to_string()])],
    );
}

#[test]
fn http_bytes_hold_status_line_headers_and_body() {
    let mut resp = PicoResponse::success(b"hello".to_vec());
    resp.headers.push(("Content-Type".to_string(), vec!["text/plain".to_string()]));
    resp.headers.push(("X-Multi".to_string(), vec!["a".to_string(), "b".to_string()]));
    let wire = String::from_utf8(resp.to_http_bytes()).unwrap();
    assert_eq!(
        wire,
        "HTTP/1.1 200 OK\r\nContent-Type: text/plain\r\nX-Multi: a; b\r\n\r\nhello",
    );
}

#[test]
fn serializer_writes_compact_json_with_escapes() {
    let v = JsonValue::Object(vec![
        ("a".to_string(), JsonValue::Array(vec![
            JsonValue::Num("1".to_string()),
            JsonValue::Bool(false),
            JsonValue::Null,
        ])),
        ("q".to_string(), JsonValue::Str("say \"hi\"\n\tdone\\".to_string())),
        ("u".to_string(), JsonValue::Str("\u{1}".to_string())),
    ]);
    assert_eq!(
        json_to_string(&v),
        "{\"a\":[1,false,null],\"q\":\"say \\\"hi\\\"\\n\\tdone\\\\\",\"u\":\"\\u0001\"}",
    );
    // The text matches what serde_json would write for the same value.
    let reparsed: serde_json::Value = serde_json::from_str(&json_to_string(&v)).unwrap();
    assert_eq!(serde_json::to_string(&reparsed).unwrap(), json_to_string(&v));
}

#[test]
fn manual_request_starts_empty() {
    let m = pico::ManualRequest::new();
    assert!(m.method.is_none());
    assert!(m.path.is_none());
    assert!(m.version.is_none());
    assert!(m.headers.is_empty());
}
