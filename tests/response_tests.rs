use httpmodule::HttpResponse;

#[test]
pub fn test_response_create() {
    let mut response = HttpResponse::new(200);
    response
        .add_header("Content-Type".to_string(), "text/plain".to_string())
        .set_body("Hello, World!".to_string());

    assert_eq!(response.status_code, 200);
    assert_eq!(response.version, "HTTP/1.1");
    assert_eq!(response.headers.get("Content-Type"), Some(&"text/plain".to_string()));
    assert_eq!(response.body, "Hello, World!");
}

#[test]
fn response_wire_form() {
    let mut response = HttpResponse::new(200);
    response
        .add_header("Content-Type".to_string(), "text/plain".to_string())
        .set_body("Hello, World!".to_string());
    let text = response.to_string();
    assert!(text.starts_with("HTTP/1.1 200 OK\r\n"));
    assert!(text.contains("Content-Type: text/plain\r\n"));
    assert!(text.contains("Content-Length: 13\r\n"));
    assert!(text.ends_with("\r\n\r\nHello, World!"));
    assert_eq!(
        text,
        "HTTP/1.1 200 OK\r\nContent-Type: text/plain\r\nContent-Length: 13\r\n\r\nHello, World!"
    );
}

#[test]
fn response_without_body_ends_with_one_blank_line() {
    let mut response = HttpResponse::new(204);
    response.add_header("X-A".to_string(), "1".to_string());
    assert_eq!(response.to_string(), "HTTP/1.1 204 OK\r\nX-A: 1\r\n\r\n");
    assert_eq!(HttpResponse::new(404).to_string(), "HTTP/1.1 404 Not Found\r\n\r\n");
}

#[test]
fn response_reason_phrases() {
    assert_eq!(HttpResponse::new(301).to_string(), "HTTP/1.1 301 Redirect\r\n\r\n");
    assert_eq!(HttpResponse::new(400).to_string(), "HTTP/1.1 400 Client Error\r\n\r\n");
    assert_eq!(HttpResponse::new(499).to_string(), "HTTP/1.1 499 Client Error\r\n\r\n");
    assert_eq!(
        HttpResponse::new(503).to_string(),
        "HTTP/1.1 503 Internal Server Error\r\n\r\n"
    );
    assert_eq!(HttpResponse::new(100).to_string(), "HTTP/1.1 100 Unknown Status\r\n\r\n");
    assert_eq!(HttpResponse::new(0).to_string(), "HTTP/1.1 0 Unknown Status\r\n\r\n");
    assert_eq!(HttpResponse::new(65535).to_string(), "HTTP/1.1 65535 Unknown Status\r\n\r\n");
}

#[test]
fn response_header_overwrites_and_length_counts_bytes() {
    let mut response = HttpResponse::new(500);
    response.add_header("K".to_string(), "1".to_string());
    response.add_header("L".to_string(), "2".to_string());
    response.add_header("K".to_string(), "3".to_string());
    response.set_body("é!".to_string());
    assert_eq!(
        response.to_string(),
        "HTTP/1.1 500 Internal Server Error\r\nK: 3\r\nL: 2\r\nContent-Length: 3\r\n\r\né!"
    );
}
