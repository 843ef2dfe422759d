use pico::json::json_to_string;
use pico::session::{decode_session, encode_session, session_round_trip};
use pico::JsonValue;

fn sample_claims() -> JsonValue {
    JsonValue::Object(vec![
        ("role".to_string(), JsonValue::Str("admin".to_string())),
        ("user".to_string(), JsonValue::Str("alice".to_string())),
    ])
}

#[test]
fn session_round_trip_returns_original_claims() {
    let claims = sample_claims();
    let back = session_round_trip(&claims, "s3cr3t").unwrap();
    assert_eq!(json_to_string(&back), json_to_string(&claims));
}

#[test]
fn decoding_with_wrong_secret_yields_none() {
    let claims = sample_claims();
    let cookie = encode_session(&claims, "right").unwrap();
    assert!(decode_session(&vec![cookie], "wrong").is_none());
}

#[test]
fn cookie_format_and_first_valid_token_wins() {
    let claims = sample_claims();
    let cookie = encode_session(&claims, "k").unwrap();
    assert!(cookie.starts_with("pico_jwt="));
    assert!(cookie.ends_with("; HttpOnly; Path=/;"));
    // A junk cookie ahead of the real one is skipped, not fatal.
    let values = vec![
        "theme=dark; pico_jwt=not.a.token".to_string(),
        cookie,
    ];
    let back = decode_session(&values, "k").unwrap();
    assert_eq!(json_to_string(&back), json_to_string(&claims));
}

#[test]
fn absent_or_foreign_cookies_yield_none() {
    assert!(decode_session(&Vec::new(), "k").is_none());
    let values = vec!["theme=dark; lang=en".to_string()];
    assert!(decode_session(&values, "k").is_none());
}

#[test]
fn nested_claims_survive_the_trip() {
    let claims = JsonValue::Object(vec![
        (
            "tags".to_string(),
            JsonValue::Array(vec![
                JsonValue::Str("a".to_string()),
                JsonValue::Bool(true),
                JsonValue::Null,
            ]),
        ),
        ("who".to_string(), JsonValue::Str("bob".to_string())),
    ]);
    let back = session_round_trip(&claims, "k2").unwrap();
    assert_eq!(json_to_string(&back), json_to_string(&claims));
}
