use httpmodule::{url_decode, HttpRequest, RequestError};

#[test]
fn test_parse_http_request() {
    let request_str = "GET /api/v1/test?code=123 HTTP/1.1\r\nHost: example.com\r\nContent-Length: 0\r\n\r\n";

    let mut lines = request_str.lines();
    let request_line = lines.next().unwrap();
    let reqeust = HttpRequest::new(request_line.to_string()).unwrap();

    assert_eq!(reqeust.method, "GET");
    assert_eq!(reqeust.path, "/api/v1/test");
    assert_eq!(reqeust.version, "HTTP/1.1");
    assert_eq!(reqeust.query_params.get("code"), Some(&"123".to_string()));
}

#[test]
fn request_line_parts_are_recovered() {
    let req = HttpRequest::new("DELETE /items/7?x=1 HTTP/1.1".to_string()).unwrap();
    assert_eq!(req.method, "DELETE");
    assert_eq!(req.path, "/items/7");
    assert_eq!(req.version, "HTTP/1.1");
    assert!(req.headers.is_empty());
    assert_eq!(req.body, "");
}

#[test]
fn request_line_extra_white_space_is_skipped() {
    let req = HttpRequest::new("  PUT\t/a/b   HTTP/1.0  ".to_string()).unwrap();
    assert_eq!(req.method, "PUT");
    assert_eq!(req.path, "/a/b");
    assert_eq!(req.version, "HTTP/1.0");
    assert_eq!(req.query_params.len(), 0);
}

#[test]
fn request_line_with_two_tokens_is_malformed() {
    let r = HttpRequest::new("GET /only".to_string());
    assert!(matches!(r, Err(RequestError::MalformedRequestLine)));
    let r = HttpRequest::new("   ".to_string());
    assert!(matches!(r, Err(RequestError::MalformedRequestLine)));
}

#[test]
fn query_string_two_pairs() {
    let q = HttpRequest::parse_query_string("a=1&b=2");
    assert_eq!(q.len(), 2);
    assert_eq!(q.get("a"), Some(&"1".to_string()));
    assert_eq!(q.get("b"), Some(&"2".to_string()));
}

#[test]
fn query_string_duplicate_key_last_wins() {
    let q = HttpRequest::parse_query_string("a=1&a=2");
    assert_eq!(q.len(), 1);
    assert_eq!(q.get("a"), Some(&"2".to_string()));
}

#[test]
fn query_string_drops_pieces_without_equals_and_decodes() {
    let q = HttpRequest::parse_query_string("flag&name=J%20Doe&k%3Dx=v=w&=e");
    assert!(!q.contains_key("flag"));
    assert_eq!(q.get("name"), Some(&"J Doe".to_string()));
    assert_eq!(q.get("k=x"), Some(&"v=w".to_string()));
    assert_eq!(q.get(""), Some(&"e".to_string()));
    assert_eq!(q.len(), 3);
}

#[test]
fn path_without_query_has_no_params() {
    let (path, params) = HttpRequest::parse_path_and_query("/plain/path").unwrap();
    assert_eq!(path, "/plain/path");
    assert_eq!(params.len(), 0);
    let (path, params) = HttpRequest::parse_path_and_query("/p?x=1?y=2").unwrap();
    assert_eq!(path, "/p");
    assert_eq!(params.get("x"), Some(&"1?y=2".to_string()));
}

#[test]
fn headers_are_read_up_to_the_empty_line() {
    let mut req = HttpRequest::new("POST /x HTTP/1.1".to_string()).unwrap();
    let lines: Vec<String> = vec![
        "  Host :  example.com ".to_string(),
        "no colon here".to_string(),
        "Content-Length: 5".to_string(),
        "X-Time: 12:30".to_string(),
        "".to_string(),
        "After: blank".to_string(),
    ];
    req.parse_headers(&lines);
    assert_eq!(
        req.headers,
        vec![
            ("Host".to_string(), "example.com".to_string()),
            ("Content-Length".to_string(), "5".to_string()),
            ("X-Time".to_string(), "12:30".to_string()),
        ]
    );
}

#[test]
fn add_header_keeps_order_and_duplicates() {
    let mut req = HttpRequest::new("GET / HTTP/1.1".to_string()).unwrap();
    req.add_header("A".to_string(), "1".to_string());
    req.add_header("A".to_string(), "2".to_string());
    assert_eq!(req.headers.len(), 2);
    assert_eq!(req.headers[1].1, "2");
}

#[test]
fn content_length_absent_is_zero() {
    let req = HttpRequest::new("GET / HTTP/1.1".to_string()).unwrap();
    assert_eq!(req.content_length(), Ok(0));
}

#[test]
fn content_length_any_case_and_plus_sign() {
    let mut req = HttpRequest::new("GET / HTTP/1.1".to_string()).unwrap();
    req.add_header("content-LENGTH".to_string(), "+42".to_string());
    req.add_header("Content-Length".to_string(), "7".to_string());
    assert_eq!(req.content_length(), Ok(42));
}

#[test]
fn content_length_not_a_number() {
    let mut req = HttpRequest::new("GET / HTTP/1.1".to_string()).unwrap();
    req.add_header("Content-Length".to_string(), "12a".to_string());
    assert_eq!(req.content_length(), Err(RequestError::MalformedContentLength));
    let mut big = HttpRequest::new("GET / HTTP/1.1".to_string()).unwrap();
    big.add_header("Content-Length".to_string(), "99999999999999999999999".to_string());
    assert_eq!(big.content_length(), Err(RequestError::MalformedContentLength));
    let mut neg = HttpRequest::new("GET / HTTP/1.1".to_string()).unwrap();
    neg.add_header("Content-Length".to_string(), "-1".to_string());
    assert_eq!(neg.content_length(), Err(RequestError::MalformedContentLength));
}

#[test]
fn body_is_read_to_the_declared_length() {
    let mut req = HttpRequest::new("POST / HTTP/1.1".to_string()).unwrap();
    req.add_header("Content-Length".to_string(), "5".to_string());
    assert_eq!(req.parse_body(&b"hello world".to_vec()), Ok(()));
    assert_eq!(req.body, "hello");
}

#[test]
fn body_invalid_utf8_is_replaced() {
    let mut req = HttpRequest::new("POST / HTTP/1.1".to_string()).unwrap();
    req.add_header("Content-Length".to_string(), "3".to_string());
    assert_eq!(req.parse_body(&vec![b'a', 0xff, b'b']), Ok(()));
    assert_eq!(req.body, "a\u{FFFD}b");
}

#[test]
fn body_shorter_than_declared_is_truncated() {
    let mut req = HttpRequest::new("POST / HTTP/1.1".to_string()).unwrap();
    req.add_header("Content-Length".to_string(), "10".to_string());
    assert_eq!(req.parse_body(&b"abc".to_vec()), Err(RequestError::TruncatedBody));
    assert_eq!(req.body, "");
}

#[test]
fn body_with_malformed_length_stays_empty() {
    let mut req = HttpRequest::new("POST / HTTP/1.1".to_string()).unwrap();
    req.add_header("Content-Length".to_string(), "x".to_string());
    assert_eq!(req.parse_body(&b"abc".to_vec()), Err(RequestError::MalformedContentLength));
    assert_eq!(req.body, "");
}

#[test]
fn decode_leaves_text_without_escapes() {
    assert_eq!(url_decode("hello-world_123.~"), "hello-world_123.~");
    assert_eq!(url_decode(""), "");
    assert_eq!(url_decode("%41%7E%zz%"), "%41%7E%zz%");
}

#[test]
fn decode_known_escapes() {
    assert_eq!(url_decode("a%20b%2Fc%3F%5C%40%5B"), "a b/c?\\@[");
    assert_eq!(url_decode("%21%22%23%24%26%27%28%29%2A%2B%2C%2D%2E"), "!\"#$&'()*+,-.");
    assert_eq!(url_decode("%3A%3B%3C%3D%3E"), ":;<=>");
}

#[test]
fn decode_applies_escapes_in_order() {
    assert_eq!(url_decode("%2520"), "%20");
    assert_eq!(url_decode("%252A"), "*");
    assert_eq!(url_decode("%2a"), "%2a");
}
