use iris_web::http::{Header, IntoResponse, Method, Request, Response, ResponseStatus, UnserializedBody, PathParams};

#[test]
fn method_names() {
    assert_eq!(Method::GET.as_str(), "GET");
    assert_eq!(Method::POST.as_str(), "POST");
    assert_eq!(Method::PUT.as_str(), "PUT");
    assert_eq!(Method::DELETE.as_str(), "DELETE");
    assert_eq!(Method::PATCH.as_str(), "PATCH");
    assert_eq!(Method::HEAD.as_str(), "HEAD");
    assert_eq!(Method::OPTIONS.as_str(), "OPTIONS");
    assert_eq!(Method::CONNECT.as_str(), "CONNECT");
    assert_eq!(Method::TRACE.as_str(), "TRACE");
}

#[test]
fn status_lines() {
    assert_eq!(ResponseStatus::OK.as_raw(), "200 OK");
    assert_eq!(ResponseStatus::NotFound.as_raw(), "404 Not Found");
    assert_eq!(ResponseStatus::BadRequest.as_raw(), "400 Bad Request");
    assert_eq!(ResponseStatus::InternalServerError.as_raw(), "500 Internal Server Error");
    assert_eq!(ResponseStatus::MethodNotAllowed.as_raw(), "405 Method Not Allowed");
    assert_eq!(ResponseStatus::InvalidRequest.as_raw(), "400 Bad Request");
    assert_eq!(ResponseStatus::Custom("418 I'm a teapot".to_string()).as_raw(), "418 I'm a teapot");
}

#[test]
fn default_response_is_empty_404() {
    let r = Response::default();
    assert_eq!(r.status.as_raw(), "404 Not Found");
    assert!(r.headers.is_empty());
    assert!(r.body.is_empty());
}

#[test]
fn raw_body_is_kept_verbatim() {
    let r = Response::new().with_body(UnserializedBody(vec![1, 2, 3]));
    assert_eq!(r.body, vec![1, 2, 3]);
}

#[test]
fn string_body_is_json_encoded() {
    let r = Response::new().with_status(ResponseStatus::OK).with_body("say \"hi\"");
    assert_eq!(r.body, b"\"say \\\"hi\\\"\"".to_vec());
    let r2 = "plain".to_string().into_response();
    assert_eq!(r2.status.as_raw(), "200 OK");
    assert_eq!(r2.body, b"\"plain\"".to_vec());
}

#[test]
fn response_into_response_is_unchanged() {
    let r = Response::new().with_status(ResponseStatus::BadRequest).with_body(UnserializedBody(b"x".to_vec()));
    let back = r.into_response();
    assert_eq!(back.status.as_raw(), "400 Bad Request");
    assert_eq!(back.body, b"x".to_vec());
}

#[test]
fn request_header_lookup_takes_first() {
    let mut req = Request::new("GET".to_string(), "/".to_string());
    req.headers.push(Header { name: "Content-Type".to_string(), value: "text/plain".to_string() });
    req.headers.push(Header { name: "Content-Type".to_string(), value: "application/json".to_string() });
    assert_eq!(req.header("Content-Type"), Some("text/plain".to_string()));
    assert_eq!(req.header("Accept"), None);
}

#[test]
fn path_params_store_and_list() {
    let mut p = PathParams::new();
    assert_eq!(p.get_param("id"), None);
    p.add_param("id".to_string(), "7".to_string());
    p.add_param("id".to_string(), "8".to_string());
    p.add_param("name".to_string(), "x".to_string());
    assert_eq!(p.get_param("id"), Some("8".to_string()));
    let all = p.get_params();
    assert_eq!(all.len(), 2);
}
