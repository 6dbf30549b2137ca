use iris_web::http::{Header, Response, ResponseStatus, UnserializedBody};
use iris_web::request::{content_length, parse_decimal, parse_header, parse_request_line, split_once, split_target};

fn read_head(text: &str) -> (String, String, Vec<(String, String)>) {
    let mut lines = text.split("\r\n");
    let first = lines.next().unwrap();
    let (version, status) = first.split_once(' ').unwrap();
    let mut headers = Vec::new();
    for line in lines {
        if line.is_empty() {
            break;
        }
        let (n, v) = line.split_once(": ").unwrap();
        headers.push((n.to_string(), v.to_string()));
    }
    (version.to_string(), status.to_string(), headers)
}

#[test]
fn content_length_digits_for_larger_bodies() {
    let mut r = Response::new().with_body(UnserializedBody(vec![b'x'; 1203]));
    r.set_content_length();
    assert_eq!(r.headers.len(), 1);
    assert_eq!(r.headers[0].value, "1203");
}

#[test]
fn head_text_is_exact() {
    let mut r = Response::new().with_status(ResponseStatus::OK).with_body(UnserializedBody(b"hi".to_vec()));
    r.headers.push(Header { name: "X-A".to_string(), value: "1".to_string() });
    assert_eq!(r.head("HTTP/1.1"), "HTTP/1.1 200 OK\r\nX-A: 1\r\n\r\n");
}

#[test]
fn bytes_carry_recomputed_content_length_and_body() {
    let mut r = Response::new().with_status(ResponseStatus::OK).with_body(UnserializedBody(b"hello".to_vec()));
    r.headers.push(Header { name: "Content-Length".to_string(), value: "999".to_string() });
    let bytes = r.to_bytes("HTTP/1.1");
    assert_eq!(bytes, b"HTTP/1.1 200 OK\r\nContent-Length: 5\r\n\r\nhello".to_vec());
}

#[test]
fn empty_body_has_zero_length() {
    let mut r = Response::new();
    let bytes = r.to_bytes("HTTP/1.0");
    assert_eq!(bytes, b"HTTP/1.0 404 Not Found\r\nContent-Length: 0\r\n\r\n".to_vec());
}

#[test]
fn head_round_trip() {
    let mut r = Response::new().with_status(ResponseStatus::Custom("418 I'm a teapot".to_string()));
    r.headers.push(Header { name: "Content-Type".to_string(), value: "text/plain; a=b:c".to_string() });
    r.headers.push(Header { name: "X-Empty".to_string(), value: "".to_string() });
    let bytes = r.to_bytes("HTTP/1.1");
    let text = String::from_utf8(bytes).unwrap();
    let (version, status, headers) = read_head(&text);
    assert_eq!(version, "HTTP/1.1");
    assert_eq!(status, "418 I'm a teapot");
    assert_eq!(
        headers,
        vec![
            ("Content-Type".to_string(), "text/plain; a=b:c".to_string()),
            ("X-Empty".to_string(), "".to_string()),
            ("Content-Length".to_string(), "0".to_string()),
        ]
    );
}

#[test]
fn request_line_parts() {
    let (m, t, v) = parse_request_line("GET /hello?x=1 HTTP/1.1\r\n").unwrap();
    assert_eq!(m, "GET");
    assert_eq!(t, "/hello?x=1");
    assert_eq!(v, "HTTP/1.1");
    assert!(parse_request_line("GET /only").is_none());
}

#[test]
fn target_path_and_query() {
    let (p, q) = split_target("/items/?a=1&b=2").unwrap();
    assert_eq!(p, "/items");
    assert_eq!(q.len(), 2);
    assert_eq!((q[0].name.as_str(), q[0].value.as_str()), ("a", "1"));
    assert_eq!((q[1].name.as_str(), q[1].value.as_str()), ("b", "2"));
    let (p, q) = split_target("/plain").unwrap();
    assert_eq!(p, "/plain");
    assert!(q.is_empty());
    assert!(split_target("/x?novalue").is_none());
}

#[test]
fn header_line_parts() {
    let h = parse_header("Host: localhost:8080\r\n").unwrap();
    assert_eq!(h.name, "Host");
    assert_eq!(h.value, "localhost:8080");
    assert!(parse_header("no colon").is_none());
    assert_eq!(split_once("a=b=c", '='), Some(("a".to_string(), "b=c".to_string())));
}

#[test]
fn content_length_reading() {
    let mut hs = vec![Header { name: "Content-Length".to_string(), value: "42".to_string() }];
    assert_eq!(content_length(&hs), 42);
    hs[0].value = "x1".to_string();
    assert_eq!(content_length(&hs), 0);
    assert_eq!(content_length(&Vec::new()), 0);
    assert_eq!(parse_decimal("18446744073709551615"), Some(usize::MAX));
    assert_eq!(parse_decimal("18446744073709551616"), None);
    assert_eq!(parse_decimal(""), None);
    assert_eq!(parse_decimal("+7"), Some(7));
    assert_eq!(parse_decimal("+"), None);
    assert_eq!(parse_decimal("-7"), None);
}
