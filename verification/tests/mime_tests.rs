use pico::get_mime_type;
use pico::staticfiles::resolve_static_path;

#[test]
fn test_get_mime_type() {
    assert_eq!(get_mime_type("test.html"), "text/html");
    assert_eq!(get_mime_type("styles.css"), "text/css");
    assert_eq!(get_mime_type("script.js"), "application/javascript");
    assert_eq!(get_mime_type("image.png"), "image/png");
    assert_eq!(get_mime_type("image.jpg"), "image/jpeg");
    assert_eq!(get_mime_type("unknown.xyz"), "application/octet-stream");
}

#[test]
fn lib_test_get_mime_type() {
    assert_eq!(get_mime_type("test.html"), "text/html");
    assert_eq!(get_mime_type("styles.css"), "text/css");
    assert_eq!(get_mime_type("script.js"), "application/javascript");
    assert_eq!(get_mime_type("image.png"), "image/png");
    assert_eq!(get_mime_type("image.jpg"), "image/jpeg");
    assert_eq!(get_mime_type("unknown.xyz"), "application/octet-stream");
}

#[test]
fn mime_more_extensions() {
    assert_eq!(get_mime_type("a/b/pic.jpeg"), "image/jpeg");
    assert_eq!(get_mime_type("anim.gif"), "image/gif");
    assert_eq!(get_mime_type("art.svg"), "image/svg+xml");
    assert_eq!(get_mime_type("data.json"), "application/json");
    assert_eq!(get_mime_type("notes.txt"), "text/plain");
    assert_eq!(get_mime_type("fav.ico"), "image/x-icon");
    assert_eq!(get_mime_type("f.woff"), "font/woff");
    assert_eq!(get_mime_type("f.woff2"), "font/woff2");
    assert_eq!(get_mime_type("f.ttf"), "font/ttf");
    assert_eq!(get_mime_type("f.otf"), "font/otf");
    assert_eq!(get_mime_type("noext"), "application/octet-stream");
    assert_eq!(get_mime_type(".hidden"), "application/octet-stream");
}

#[test]
fn static_path_traversal_is_rejected() {
    assert!(resolve_static_path("../etc/passwd").is_err());
    assert!(resolve_static_path("/test/../../../etc/passwd").is_err());
}

#[test]
fn static_path_encoded_traversal_is_rejected() {
    assert!(resolve_static_path("/test%2F..%2F..%2F..%2Fetc%2Fpasswd").is_err());
    assert!(resolve_static_path("/%2E%2E%2Fetc%2Fpasswd").is_err());
}

#[test]
fn static_path_invalid_utf8_is_bad_request() {
    let r = resolve_static_path("/%C0%80");
    assert!(matches!(r, Err(pico::ResponseCode::BadRequest)));
}

#[test]
fn static_path_decodes_and_prefixes() {
    let p = resolve_static_path("/Tatsuro%20Yamashita%20-%20Come%20Along.mp3").unwrap();
    assert_eq!(p, "public/Tatsuro Yamashita - Come Along.mp3");
    let q = resolve_static_path("/docs/").unwrap();
    assert_eq!(q, "public/docs/index.html");
    let r = resolve_static_path("plain.txt").unwrap();
    assert_eq!(r, "public/plain.txt");
}

#[test]
fn static_response_carries_mime_and_length() {
    let body = b"<h1>Static File Test</h1>".to_vec();
    let bytes = pico::staticfiles::build_static_response("public/test.html", body.clone());
    let text = String::from_utf8(bytes).unwrap();
    assert!(text.starts_with("HTTP/1.1 200 OK\r\n"));
    assert!(text.contains("Content-Type: text/html\r\n"));
    assert!(text.contains(&format!("Content-Length: {}\r\n", body.len())));
    assert!(text.ends_with("<h1>Static File Test</h1>"));
}
