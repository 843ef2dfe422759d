use pico::wire::{
    classify_body, content_length, header_scan, parse_request_head, parse_to_pico_request,
    parse_usize_chars, ScanStep, MAX_HEADER_SIZE,
};
use pico::{Body, JsonValue, Method, ResponseCode};

#[test]
fn oversized_headers_are_too_large_never_bad_request() {
    // A huge declared content length changes nothing: before the
    // terminator arrives, an oversized buffer is header overflow.
    let mut buf = b"POST /x HTTP/1.1\r\ncontent-length: 99999999\r\nx: ".to_vec();
    while buf.len() <= MAX_HEADER_SIZE {
        buf.push(b'a');
    }
    assert!(matches!(header_scan(&buf), ScanStep::TooLarge));
}

#[test]
fn header_scan_finds_terminator() {
    let buf = b"GET / HTTP/1.1\r\nHost: x\r\n\r\nbody".to_vec();
    match header_scan(&buf) {
        ScanStep::Complete(e) => assert_eq!(e, buf.len() - 4),
        _ => panic!("expected completion"),
    }
    assert!(matches!(header_scan(b"GET / HTTP/1.1\r\n"), ScanStep::NeedMore));
}

#[test]
fn request_head_parses_line_and_headers() {
    let bytes = b"GET /ping?a=1 HTTP/1.1\r\nHost: example\r\nAccept: text/html, application/json\r\n\r\n";
    let head = parse_request_head(bytes).unwrap();
    assert_eq!(head.method, "GET");
    assert_eq!(head.path, "/ping?a=1");
    assert_eq!(head.version, "HTTP/1.1");
    assert_eq!(
        head.headers,
        vec![
            ("host".to_string(), vec!["example".to_string()]),
            (
                "accept".to_string(),
                vec!["text/html".to_string(), "application/json".to_string()],
            ),
        ],
    );
}

#[test]
fn request_head_rejects_short_request_line() {
    let r = parse_request_head(b"GET\r\n\r\n");
    assert!(matches!(r, Err(ResponseCode::BadRequest)));
}

#[test]
fn repeated_headers_append_in_order() {
    let bytes = b"GET / HTTP/1.1\r\nX-Tag: a\r\nX-Tag: b\r\n\r\n";
    let head = parse_request_head(bytes).unwrap();
    assert_eq!(
        head.headers,
        vec![("x-tag".to_string(), vec!["a".to_string(), "b".to_string()])],
    );
}

#[test]
fn content_length_defaults_to_zero() {
    let none: Vec<(String, Vec<String>)> = vec![];
    assert_eq!(content_length(&none), 0);
    let bad = vec![("content-length".to_string(), vec!["soon".to_string()])];
    assert_eq!(content_length(&bad), 0);
    let good = vec![("content-length".to_string(), vec!["42".to_string()])];
    assert_eq!(content_length(&good), 42);
}

#[test]
fn usize_parsing_matches_std() {
    let cases = ["0", "7", "+15", "007", "18446744073709551615"];
    for c in cases.iter() {
        let chars: Vec<char> = c.chars().collect();
        assert_eq!(parse_usize_chars(&chars), c.parse::<usize>().ok(), "case {}", c);
    }
    let bad = ["", "+", "-3", "1a", "a1", " 4", "18446744073709551616"];
    for c in bad.iter() {
        let chars: Vec<char> = c.chars().collect();
        assert_eq!(parse_usize_chars(&chars), None, "case {}", c);
    }
}

#[test]
fn json_bodies_parse_and_malformed_degrade_to_null() {
    match classify_body("application/json", b"{\"a\":1}".to_vec()) {
        Body::Json(v) => assert_eq!(pico::json::json_to_string(&v), "{\"a\":1}"),
        _ => panic!("expected a JSON body"),
    }
    match classify_body("application/json", b"{nope".to_vec()) {
        Body::Json(v) => assert!(v.is_null()),
        _ => panic!("expected a JSON body"),
    }
}

#[test]
fn form_bodies_decode_with_last_value_winning() {
    match classify_body(
        "application/x-www-form-urlencoded",
        b"a=1&b=two%20words&a=3".to_vec(),
    ) {
        Body::Form(ps) => {
            assert_eq!(
                ps,
                vec![
                    ("a".to_string(), "3".to_string()),
                    ("b".to_string(), "two words".to_string()),
                ],
            );
        }
        _ => panic!("expected a form body"),
    }
}

#[test]
fn unknown_content_types_stay_raw() {
    match classify_body("application/pdf", vec![1, 2, 3]) {
        Body::Raw(b) => assert_eq!(b, vec![1, 2, 3]),
        _ => panic!("expected a raw body"),
    }
}

#[test]
fn request_assembly_splits_query_and_defaults_method() {
    let head = parse_request_head(b"BREW /pot?k=v&odd-key=x&a_1=b_2 HTTP/1.1\r\n\r\n").unwrap();
    let req = parse_to_pico_request(head, Vec::new());
    assert_eq!(req.method, Method::GET);
    assert_eq!(req.path, "/pot");
    assert_eq!(
        req.query,
        vec![
            ("k".to_string(), "v".to_string()),
            ("key".to_string(), "x".to_string()),
            ("a_1".to_string(), "b_2".to_string()),
        ],
    );
    assert!(matches!(req.body, Body::Json(JsonValue::Null)));
}
