use iris_web::data::DataContainer;
use iris_web::http::{Header, Request};
use iris_web::json::{check_json_content_type, invalid_json, raw_json_body, starts_with};
use iris_web::pipeline::{Commands, PipelineData};

const BODY: u64 = 9;

fn request(content_type: Option<&str>, body: &str) -> Request {
    let mut req = Request::new("POST".to_string(), "/body".to_string());
    if let Some(ct) = content_type {
        req.headers.push(Header { name: "Content-Type".to_string(), value: ct.to_string() });
    }
    req.body = body.as_bytes().to_vec();
    req
}

#[test]
fn missing_content_type_is_invalid_request() {
    let resp = check_json_content_type(&request(None, "{}")).unwrap();
    assert_eq!(resp.status.as_raw(), "400 Bad Request");
    assert_eq!(resp.body, b"\"Missing Content-Type header\"".to_vec());
}

#[test]
fn wrong_content_type_is_invalid_request() {
    let resp = check_json_content_type(&request(Some("text/plain"), "{}")).unwrap();
    assert_eq!(resp.body, b"\"Invalid Content-Type header\"".to_vec());
}

#[test]
fn json_body_is_queued_as_data() {
    let state = PipelineData::new(request(Some("application/json; charset=utf-8"), "{\"a\": 1}"), DataContainer::new());
    let mut c = Commands::new();
    assert!(raw_json_body(&state, &mut c, BODY).is_none());
    let mut state = state;
    c.execute(&mut state);
    let v = state.get(BODY).unwrap();
    assert_eq!(v["a"], serde_json::Value::from(1));
}

#[test]
fn bad_json_is_invalid_request() {
    let state = PipelineData::new(request(Some("application/json"), "{not json"), DataContainer::new());
    let mut c = Commands::new();
    let resp = raw_json_body(&state, &mut c, BODY).unwrap();
    assert_eq!(resp.status.as_raw(), "400 Bad Request");
    let text = String::from_utf8(resp.body).unwrap();
    assert!(text.starts_with("\"Invalid JSON body: "));
}

#[test]
fn prefix_check() {
    assert!(starts_with("application/json", "application/json"));
    assert!(starts_with("application/jsonx", "application/json"));
    assert!(!starts_with("application/js", "application/json"));
    assert!(!starts_with("text/html", "application/json"));
}

#[test]
fn invalid_json_message_has_its_prefix() {
    let resp = invalid_json("expected value at line 1 column 1".to_string());
    assert_eq!(resp.status.as_raw(), "400 Bad Request");
    assert_eq!(resp.body, b"\"Invalid JSON body: expected value at line 1 column 1\"".to_vec());
}
