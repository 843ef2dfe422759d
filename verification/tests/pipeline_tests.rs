use pico::pipeline::{complete, handle_request, Completion, Dispatch, Sproc};
use pico::{Body, JsonValue, Method, PicoRequest, PicoService, ResponseCode, RouteHandler};

fn bare_handler() -> RouteHandler {
    RouteHandler {
        view: None,
        sql_function_name: Some("pong.sql".to_string()),
        set_jwt: None,
        pre_process: None,
        post_process: None,
    }
}

fn ping_service() -> PicoService {
    let mut service = PicoService::new("secret".to_string());
    service.add_function(
        "pong".to_string(),
        Sproc { sql: "SELECT 1".to_string(), parameters: Vec::new() },
    );
    service.register("/ping", Method::GET, bare_handler());
    service
}

fn get_request(path: &str, accept: &str) -> PicoRequest {
    PicoRequest {
        method: Method::GET,
        path: path.to_string(),
        query: Vec::new(),
        version: "HTTP/1.1".to_string(),
        headers: vec![("accept".to_string(), vec![accept.to_string()])],
        body: Body::Json(JsonValue::Null),
    }
}

fn pong_payload() -> JsonValue {
    JsonValue::Object(vec![("message".to_string(), JsonValue::Str("pong".to_string()))])
}

fn header<'a>(resp: &'a pico::PicoResponse, name: &str) -> Option<&'a Vec<String>> {
    resp.headers.iter().find(|(k, _)| k == name).map(|(_, v)| v)
}

#[test]
fn ping_returns_pong_as_json() {
    let service = ping_service();
    let lua = mlua::Lua::new();
    let request = get_request("/ping", "application/json");
    let pending = match handle_request(&service, &lua, request) {
        Dispatch::Pending(p) => p,
        _ => panic!("expected a pending call"),
    };
    let (name, input) = pending.call.as_ref().unwrap();
    assert_eq!(name, "pong");
    assert!(input.is_empty());
    match complete(&service, &lua, pending, Ok(pong_payload())) {
        Completion::Finished(resp) => {
            assert_eq!(resp.status.to_code(), 200);
            assert_eq!(String::from_utf8(resp.body.clone()).unwrap(), "{\"message\":\"pong\"}");
            assert_eq!(header(&resp, "Content-Type"), Some(&vec!["application/json".to_string()]));
            assert_eq!(header(&resp, "Content-Length"), Some(&vec!["18".to_string()]));
        }
        _ => panic!("expected a finished response"),
    }
}

#[test]
fn html_request_without_view_falls_back_to_json() {
    let service = ping_service();
    let lua = mlua::Lua::new();
    let request = get_request("/ping", "text/html");
    let pending = match handle_request(&service, &lua, request) {
        Dispatch::Pending(p) => p,
        _ => panic!("expected a pending call"),
    };
    match complete(&service, &lua, pending, Ok(pong_payload())) {
        Completion::Finished(resp) => {
            assert_eq!(resp.status.to_code(), 200);
            assert_eq!(String::from_utf8(resp.body.clone()).unwrap(), "{\"message\":\"pong\"}");
            assert_eq!(header(&resp, "Content-Type"), Some(&vec!["application/json".to_string()]));
        }
        _ => panic!("expected a finished response"),
    }
}

#[test]
fn unregistered_path_is_not_found() {
    let service = ping_service();
    let lua = mlua::Lua::new();
    let request = get_request("/nope", "application/json");
    match handle_request(&service, &lua, request) {
        Dispatch::NoRoute => {}
        _ => panic!("expected no route"),
    }
    // With no static file either, the caller answers 404.
    let resp = pico::PicoResponse::error(ResponseCode::NotFound, "Route not found");
    assert_eq!(resp.status.to_code(), 404);
    let wire = resp.to_http_bytes();
    assert!(String::from_utf8(wire).unwrap().starts_with("HTTP/1.1 404 Not Found\r\n"));
}

#[test]
fn wrong_method_is_not_found() {
    let service = ping_service();
    let lua = mlua::Lua::new();
    let mut request = get_request("/ping", "application/json");
    request.method = Method::POST;
    match handle_request(&service, &lua, request) {
        Dispatch::Done(resp) => {
            assert_eq!(resp.status.to_code(), 404);
            let body = String::from_utf8(resp.body.clone()).unwrap();
            assert!(body.contains("Method not allowed for this route"));
        }
        _ => panic!("expected a terminal response"),
    }
}

#[test]
fn missing_parameter_is_named_in_bad_request() {
    let mut service = PicoService::new("secret".to_string());
    service.add_function(
        "adder".to_string(),
        Sproc {
            sql: "SELECT $1 + $2".to_string(),
            parameters: vec!["left".to_string(), "right".to_string()],
        },
    );
    let mut handler = bare_handler();
    handler.sql_function_name = Some("adder.sql".to_string());
    service.register("/add", Method::POST, handler);
    let lua = mlua::Lua::new();
    let request = PicoRequest {
        method: Method::POST,
        path: "/add".to_string(),
        query: Vec::new(),
        version: "HTTP/1.1".to_string(),
        headers: Vec::new(),
        body: Body::Json(JsonValue::Object(vec![(
            "left".to_string(),
            JsonValue::Num("1".to_string()),
        )])),
    };
    match handle_request(&service, &lua, request) {
        Dispatch::Done(resp) => {
            assert_eq!(resp.status.to_code(), 400);
            let body = String::from_utf8(resp.body.clone()).unwrap();
            assert!(body.contains("Missing required parameter: right"));
        }
        _ => panic!("expected a terminal response"),
    }
}

#[test]
fn path_parameters_override_body_fields() {
    let mut service = PicoService::new("secret".to_string());
    service.add_function(
        "show".to_string(),
        Sproc { sql: "SELECT $1".to_string(), parameters: vec![":id".to_string()] },
    );
    let mut handler = bare_handler();
    handler.sql_function_name = Some("show".to_string());
    service.register("/items/:id", Method::GET, handler);
    let lua = mlua::Lua::new();
    let request = PicoRequest {
        method: Method::GET,
        path: "/items/9".to_string(),
        query: Vec::new(),
        version: "HTTP/1.1".to_string(),
        headers: Vec::new(),
        body: Body::Json(JsonValue::Object(vec![(
            ":id".to_string(),
            JsonValue::Str("frombody".to_string()),
        )])),
    };
    match handle_request(&service, &lua, request) {
        Dispatch::Pending(p) => {
            let (_, input) = p.call.as_ref().unwrap();
            assert_eq!(input.len(), 1);
            assert_eq!(input[0].0, ":id");
            match &input[0].1 {
                JsonValue::Str(s) => assert_eq!(s, "9"),
                _ => panic!("expected the path binding"),
            }
        }
        _ => panic!("expected a pending call"),
    }
}

#[test]
fn pre_process_user_error_short_circuits() {
    let mut service = ping_service();
    let lua = mlua::Lua::new();
    let hook: mlua::Function = lua
        .load("return function(data, jwt) error('error: denied by hook') end")
        .eval()
        .unwrap();
    let mut handler = bare_handler();
    handler.pre_process = Some(hook);
    service.register("/guarded", Method::GET, handler);
    let mut calls: u32 = 0;
    let request = get_request("/guarded", "application/json");
    match handle_request(&service, &lua, request) {
        Dispatch::Pending(p) => {
            // The stub catalog would run here; it must never be reached.
            calls += 1;
            let _ = p;
        }
        Dispatch::Done(resp) => {
            assert_eq!(resp.status.to_code(), 400);
            let body = String::from_utf8(resp.body.clone()).unwrap();
            assert!(body.contains("denied by hook"));
        }
        Dispatch::NoRoute => panic!("route was registered"),
    }
    assert_eq!(calls, 0);
}

#[test]
fn pre_process_can_add_parameters() {
    let mut service = PicoService::new("secret".to_string());
    service.add_function(
        "needs".to_string(),
        Sproc { sql: "SELECT $1".to_string(), parameters: vec!["stamp".to_string()] },
    );
    let lua = mlua::Lua::new();
    let hook: mlua::Function = lua
        .load("return function(data, jwt) data['stamp'] = 'now' return data end")
        .eval()
        .unwrap();
    let mut handler = bare_handler();
    handler.sql_function_name = Some("needs".to_string());
    handler.pre_process = Some(hook);
    service.register("/stamped", Method::GET, handler);
    let request = get_request("/stamped", "application/json");
    match handle_request(&service, &lua, request) {
        Dispatch::Pending(p) => {
            let (_, input) = p.call.as_ref().unwrap();
            assert_eq!(input.len(), 1);
            assert_eq!(input[0].0, "stamp");
        }
        _ => panic!("expected a pending call"),
    }
}

#[test]
fn post_process_user_error_is_bad_request() {
    let mut service = ping_service();
    let lua = mlua::Lua::new();
    let hook: mlua::Function = lua
        .load("return function(data, jwt) error('error: no body for you') end")
        .eval()
        .unwrap();
    let mut handler = bare_handler();
    handler.post_process = Some(hook);
    service.register("/post", Method::GET, handler);
    let request = get_request("/post", "application/json");
    let pending = match handle_request(&service, &lua, request) {
        Dispatch::Pending(p) => p,
        _ => panic!("expected a pending call"),
    };
    match complete(&service, &lua, pending, Ok(pong_payload())) {
        Completion::Finished(resp) => {
            assert_eq!(resp.status.to_code(), 400);
            let body = String::from_utf8(resp.body.clone()).unwrap();
            assert!(body.contains("no body for you"));
        }
        _ => panic!("expected a finished response"),
    }
}

#[test]
fn post_process_replaces_payload() {
    let mut service = ping_service();
    let lua = mlua::Lua::new();
    let hook: mlua::Function = lua
        .load("return function(data, jwt) return { wrapped = data } end")
        .eval()
        .unwrap();
    let mut handler = bare_handler();
    handler.post_process = Some(hook);
    service.register("/wrap", Method::GET, handler);
    let request = get_request("/wrap", "application/json");
    let pending = match handle_request(&service, &lua, request) {
        Dispatch::Pending(p) => p,
        _ => panic!("expected a pending call"),
    };
    match complete(&service, &lua, pending, Ok(pong_payload())) {
        Completion::Finished(resp) => {
            assert_eq!(resp.status.to_code(), 200);
            let body = String::from_utf8(resp.body.clone()).unwrap();
            assert_eq!(body, "{\"wrapped\":{\"message\":\"pong\"}}");
        }
        _ => panic!("expected a finished response"),
    }
}

#[test]
fn set_session_hook_issues_cookie_and_failure_is_unauthorized() {
    let mut service = ping_service();
    let lua = mlua::Lua::new();
    let hook: mlua::Function = lua
        .load("return function(data) return { user = data.message } end")
        .eval()
        .unwrap();
    let mut handler = bare_handler();
    handler.set_jwt = Some(hook);
    service.register("/login", Method::GET, handler);
    let request = get_request("/login", "application/json");
    let pending = match handle_request(&service, &lua, request) {
        Dispatch::Pending(p) => p,
        _ => panic!("expected a pending call"),
    };
    match complete(&service, &lua, pending, Ok(pong_payload())) {
        Completion::Finished(resp) => {
            assert_eq!(resp.status.to_code(), 200);
            let cookie = header(&resp, "Set-Cookie").unwrap();
            assert!(cookie[0].starts_with("pico_jwt="));
            // The issued cookie decodes under the service's secret.
            let claims = pico::session::decode_session(cookie, "secret").unwrap();
            assert_eq!(pico::json::json_to_string(&claims), "{\"user\":\"pong\"}");
        }
        _ => panic!("expected a finished response"),
    }

    let deny: mlua::Function = lua
        .load("return function(data) error('error: who are you') end")
        .eval()
        .unwrap();
    let mut handler2 = bare_handler();
    handler2.set_jwt = Some(deny);
    service.register("/deny", Method::GET, handler2);
    let request2 = get_request("/deny", "application/json");
    let pending2 = match handle_request(&service, &lua, request2) {
        Dispatch::Pending(p) => p,
        _ => panic!("expected a pending call"),
    };
    match complete(&service, &lua, pending2, Ok(pong_payload())) {
        Completion::Finished(resp) => {
            assert_eq!(resp.status.to_code(), 401);
            let body = String::from_utf8(resp.body.clone()).unwrap();
            assert!(body.contains("who are you"));
        }
        _ => panic!("expected a finished response"),
    }
}

#[test]
fn invocation_failure_surfaces_as_its_error() {
    let service = ping_service();
    let lua = mlua::Lua::new();
    let request = get_request("/ping", "application/json");
    let pending = match handle_request(&service, &lua, request) {
        Dispatch::Pending(p) => p,
        _ => panic!("expected a pending call"),
    };
    match complete(&service, &lua, pending, Err(ResponseCode::InternalError)) {
        Completion::Finished(resp) => {
            assert_eq!(resp.status.to_code(), 500);
            let body = String::from_utf8(resp.body.clone()).unwrap();
            assert!(body.contains("SQL execution failed: Internal Server Error"));
        }
        _ => panic!("expected a finished response"),
    }
}

#[test]
fn missing_catalog_entry_is_internal_error() {
    let mut service = PicoService::new("secret".to_string());
    service.register("/ghost", Method::GET, bare_handler());
    let lua = mlua::Lua::new();
    let request = get_request("/ghost", "application/json");
    match handle_request(&service, &lua, request) {
        Dispatch::Done(resp) => {
            assert_eq!(resp.status.to_code(), 500);
            let body = String::from_utf8(resp.body.clone()).unwrap();
            assert!(body.contains("SQL function not found"));
        }
        _ => panic!("expected a terminal response"),
    }
}

#[test]
fn handler_without_function_completes_with_null_payload() {
    let mut service = PicoService::new("secret".to_string());
    let mut handler = bare_handler();
    handler.sql_function_name = None;
    service.register("/empty", Method::GET, handler);
    let lua = mlua::Lua::new();
    let request = get_request("/empty", "application/json");
    let pending = match handle_request(&service, &lua, request) {
        Dispatch::Pending(p) => p,
        _ => panic!("expected a pending step"),
    };
    assert!(pending.call.is_none());
    match complete(&service, &lua, pending, Ok(JsonValue::Null)) {
        Completion::Finished(resp) => {
            assert_eq!(resp.status.to_code(), 200);
            assert_eq!(String::from_utf8(resp.body.clone()).unwrap(), "null");
        }
        _ => panic!("expected a finished response"),
    }
}

#[test]
fn html_request_with_view_goes_to_the_renderer() {
    let mut service = ping_service();
    let lua = mlua::Lua::new();
    let mut handler = bare_handler();
    handler.view = Some(pico::html::View { entities: vec![pico::html::Entity::Markdown] });
    service.register("/page", Method::GET, handler);
    let request = get_request("/page", "text/html");
    let pending = match handle_request(&service, &lua, request) {
        Dispatch::Pending(p) => p,
        _ => panic!("expected a pending call"),
    };
    match complete(&service, &lua, pending, Ok(pong_payload())) {
        Completion::RenderView { payload, set_cookie, .. } => {
            assert_eq!(pico::json::json_to_string(&payload), "{\"message\":\"pong\"}");
            assert!(set_cookie.is_none());
        }
        _ => panic!("expected a page to render"),
    }
    let framed = pico::pipeline::finish_html_response("<p>hi</p>", None);
    assert_eq!(framed.status.to_code(), 200);
    assert_eq!(String::from_utf8(framed.body.clone()).unwrap(), "<p>hi</p>");
    assert_eq!(header(&framed, "Content-Type"), Some(&vec!["text/html".to_string()]));
}
