use hello_server::response::{
    build_response, content_path, decimal_digits, find_line_end, handle, is_root_request,
    request_line, route, status_line, trimmed_len, LineMatch, Status,
};

fn text(b: &[u8]) -> String {
    String::from_utf8(b.to_vec()).unwrap()
}

#[test]
fn root_literal_has_no_trailing_space() {
    assert!(is_root_request(b"GET / HTTP/1.1", LineMatch::Exact));
    assert!(!is_root_request(b"GET / HTTP/1.1 ", LineMatch::Exact));
    assert!(is_root_request(b"GET / HTTP/1.1 ", LineMatch::TrimEnd));
    assert!(is_root_request(b"GET / HTTP/1.1 \t", LineMatch::TrimEnd));
    assert!(!is_root_request(b" GET / HTTP/1.1", LineMatch::TrimEnd));
}

#[test]
fn root_request_is_found() {
    let body = b"<h1>Hello!</h1>";
    let r = handle(b"GET / HTTP/1.1\r\nHost: x\r\n\r\n", LineMatch::Exact, Some(body)).unwrap();
    assert_eq!(text(&r), "HTTP/1.1 200 OK\r\nContent-Length: 15\r\n\r\n<h1>Hello!</h1>");
}

#[test]
fn other_requests_are_not_found() {
    let body = b"hi";
    for raw in [&b"GET /foo HTTP/1.1\r\n"[..], b"\r\n", b"\n", b"garbage", b"GET / HTTP/1.1 \r\n"] {
        let r = handle(raw, LineMatch::Exact, Some(body)).unwrap();
        assert_eq!(text(&r), "HTTP/1.1 404 NOT FOUND\r\nContent-Length: 2\r\n\r\nhi");
    }
    assert_eq!(route(b"GET /foo HTTP/1.1", LineMatch::TrimEnd), Status::NotFound);
    assert_eq!(route(b"", LineMatch::Exact), Status::NotFound);
}

#[test]
fn missing_content_is_server_error() {
    let r = handle(b"GET / HTTP/1.1\r\n", LineMatch::Exact, None).unwrap();
    assert_eq!(text(&r), "HTTP/1.1 500 INTERNAL SERVER ERROR\r\nContent-Length: 0\r\n\r\n");
}

#[test]
fn closed_stream_is_abandoned() {
    assert!(handle(b"", LineMatch::Exact, Some(b"x")).is_none());
    assert!(request_line(b"").is_none());
}

#[test]
fn repeated_requests_give_identical_responses() {
    let body = vec![b'a'; 1234];
    let first = handle(b"GET / HTTP/1.1\r\n", LineMatch::Exact, Some(&body)).unwrap();
    for _ in 0..3 {
        let again = handle(b"GET / HTTP/1.1\r\n", LineMatch::Exact, Some(&body)).unwrap();
        assert_eq!(again, first);
    }
    let head = "HTTP/1.1 200 OK\r\nContent-Length: 1234\r\n\r\n";
    assert_eq!(text(&first[..head.len()]), head);
    assert_eq!(&first[head.len()..], &body[..]);
}

#[test]
fn request_line_endings() {
    assert_eq!(request_line(b"GET / HTTP/1.1\r\nrest").unwrap(), b"GET / HTTP/1.1".to_vec());
    assert_eq!(request_line(b"GET / HTTP/1.1\nrest").unwrap(), b"GET / HTTP/1.1".to_vec());
    assert_eq!(request_line(b"GET / HTTP/1.1").unwrap(), b"GET / HTTP/1.1".to_vec());
    assert_eq!(request_line(b"\r\n").unwrap(), Vec::<u8>::new());
    assert_eq!(request_line(b"a\rb\n").unwrap(), b"a\rb".to_vec());
    assert_eq!(find_line_end(b"ab\ncd\n"), 2);
    assert_eq!(find_line_end(b"abc"), 3);
}

#[test]
fn trailing_whitespace_length() {
    assert_eq!(trimmed_len(b"ab \t\r\n"), 2);
    assert_eq!(trimmed_len(b"   "), 0);
    assert_eq!(trimmed_len(b"a b"), 3);
}

#[test]
fn status_lines() {
    assert_eq!(text(&status_line(Status::Found)), "HTTP/1.1 200 OK");
    assert_eq!(text(&status_line(Status::NotFound)), "HTTP/1.1 404 NOT FOUND");
    assert_eq!(text(&status_line(Status::ServerError)), "HTTP/1.1 500 INTERNAL SERVER ERROR");
}

#[test]
fn decimal_lengths() {
    assert_eq!(text(&decimal_digits(0)), "0");
    assert_eq!(text(&decimal_digits(7)), "7");
    assert_eq!(text(&decimal_digits(10)), "10");
    assert_eq!(text(&decimal_digits(90210)), "90210");
    assert_eq!(text(&decimal_digits(usize::MAX)), usize::MAX.to_string());
}

#[test]
fn empty_body_response() {
    let r = build_response(Status::NotFound, b"");
    assert_eq!(text(&r), "HTTP/1.1 404 NOT FOUND\r\nContent-Length: 0\r\n\r\n");
}

#[test]
fn content_files() {
    assert_eq!(content_path(Status::Found), Some("hello.html"));
    assert_eq!(content_path(Status::NotFound), Some("hello.html"));
    assert_eq!(content_path(Status::ServerError), None);
}
