use httpmodule::{HttpRequest, HttpResponse, Route, RouteMatch, Router, StrMap};

type Handler = fn(&RouteMatch) -> HttpResponse;

fn code_handler(route: &RouteMatch) -> HttpResponse {
    let code = route.query_params.get("code").map(|s| s.as_str()).unwrap_or("default");
    let version = route.query_params.get("version").map(|s| s.as_str()).unwrap_or("1.0");
    let mut response = HttpResponse::new(200);
    response
        .add_header("Content-Type".to_string(), "text/plain".to_string())
        .set_body(format!("Code is: {}, version: {}!", code, version));
    response
}

fn message_handler(route: &RouteMatch) -> HttpResponse {
    let message = route.path_params.get("message").map(|s| s.as_str()).unwrap_or("default");
    let mut response = HttpResponse::new(200);
    response.set_body(format!("Hello, {}!", message));
    response
}

#[test]
fn literal_route_beats_capture_route() {
    let router: Router<u32> = Router::new().get("/api/v1/{message}", 1).get("/api/v1/code", 2);
    let req = HttpRequest::new("GET /api/v1/code HTTP/1.1".to_string()).unwrap();
    let (h, _) = router.handle(&req).unwrap();
    assert_eq!(*h, 2);
    let req = HttpRequest::new("GET /api/v1/other HTTP/1.1".to_string()).unwrap();
    let (h, m) = router.handle(&req).unwrap();
    assert_eq!(*h, 1);
    assert_eq!(m.path_params.get("message"), Some(&"other".to_string()));
}

#[test]
fn scores_follow_segments() {
    let literal = Route::new("GET", "/api/v1/code", ());
    let capture = Route::new("GET", "/api/v1/{message}", ());
    assert_eq!(literal.specific_score(), 6);
    assert_eq!(capture.specific_score(), 5);
    assert_eq!(Route::new("GET", "/", ()).specific_score(), 0);
    assert_eq!(Route::new("GET", "a//{b}/", ()).specific_score(), 3);
    assert_eq!(Route::new("GET", "/{", ()).specific_score(), 2);
}

#[test]
fn route_method_is_upper_cased() {
    let route = Route::new("get", "/", 0u8);
    assert_eq!(route.method, "GET");
    let router: Router<u8> = Router::new().route("post", "/x", 5);
    let req = HttpRequest::new("POST /x HTTP/1.1".to_string()).unwrap();
    assert_eq!(router.handle(&req).map(|(h, _)| *h), Some(5));
}

#[test]
fn ties_keep_registration_order() {
    let router: Router<u32> = Router::new().get("/{a}", 1).get("/{b}", 2).get("/c", 3);
    let req = HttpRequest::new("GET /c HTTP/1.1".to_string()).unwrap();
    assert_eq!(router.handle(&req).map(|(h, _)| *h), Some(3));
    let req = HttpRequest::new("GET /d HTTP/1.1".to_string()).unwrap();
    let (h, m) = router.handle(&req).unwrap();
    assert_eq!(*h, 1);
    assert_eq!(m.path_params.get("a"), Some(&"d".to_string()));
    assert!(!m.path_params.contains_key("b"));
}

#[test]
fn pattern_binds_capture() {
    let router: Router<u32> = Router::new();
    let req = HttpRequest::new("GET /api/v1/hello HTTP/1.1".to_string()).unwrap();
    let m = router.match_pattern("/api/v1/{message}", &req).unwrap();
    assert_eq!(m.path_params.get("message"), Some(&"hello".to_string()));
    assert_eq!(m.path_params.len(), 1);
    assert_eq!(m.request.path, "/api/v1/hello");
}

#[test]
fn pattern_with_other_segment_count_does_not_match() {
    let router: Router<u32> = Router::new();
    let req = HttpRequest::new("GET /api/v1/hello/extra HTTP/1.1".to_string()).unwrap();
    assert!(router.match_pattern("/api/v1/{message}", &req).is_none());
    let req = HttpRequest::new("GET /api/v2/hello HTTP/1.1".to_string()).unwrap();
    assert!(router.match_pattern("/api/v1/{message}", &req).is_none());
}

#[test]
fn method_mismatch_and_wildcard() {
    let router: Router<u32> = Router::new().post("/x", 1);
    let req = HttpRequest::new("GET /x HTTP/1.1".to_string()).unwrap();
    assert!(router.handle(&req).is_none());
    let router: Router<u32> = Router::new().post("/x", 1).route("*", "/x", 2);
    assert_eq!(router.handle(&req).map(|(h, _)| *h), Some(2));
}

#[test]
fn end_to_end_query_parameters() {
    let text = "GET /api/v1/code?code=42&version=2.0 HTTP/1.1\r\n\r\n";
    let mut lines = text.split("\r\n");
    let mut req = HttpRequest::new(lines.next().unwrap().to_string()).unwrap();
    let rest: Vec<String> = lines.map(|l| l.to_string()).collect();
    req.parse_headers(&rest);
    assert_eq!(req.parse_body(&Vec::new()), Ok(()));
    let router: Router<Handler> = Router::new()
        .get("/api/v1/{message}", message_handler as Handler)
        .get("/api/v1/code", code_handler as Handler);
    let (handler, m) = router.handle(&req).unwrap();
    let response = handler(&m);
    assert_eq!(response.body, "Code is: 42, version: 2.0!");
    assert!(response.to_string().ends_with("\r\n\r\nCode is: 42, version: 2.0!"));
}

#[test]
fn end_to_end_path_parameter() {
    let req = HttpRequest::new("GET /api/v1/world HTTP/1.1".to_string()).unwrap();
    let router: Router<Handler> = Router::new()
        .get("/api/v1/{message}", message_handler as Handler)
        .get("/api/v1/code", code_handler as Handler);
    let (handler, m) = router.handle(&req).unwrap();
    assert_eq!(handler(&m).body, "Hello, world!");
}

#[test]
fn str_map_insert_replaces() {
    let mut m = StrMap::new();
    m.insert("a".to_string(), "1".to_string());
    m.insert("b".to_string(), "2".to_string());
    m.insert("a".to_string(), "3".to_string());
    assert_eq!(m.len(), 2);
    assert_eq!(m.get("a"), Some(&"3".to_string()));
    assert_eq!(m.entries()[0], ("a".to_string(), "3".to_string()));
    assert_eq!(m.get("c"), None);
    let copy = m.duplicate();
    assert_eq!(copy.entries(), m.entries());
}
