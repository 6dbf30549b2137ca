//! Middleware that reads a JSON request body into the pipeline data.
use crate::http::{Request, Response, ResponseStatus};
use crate::pipeline::{Commands, PipelineData};
use vstd::prelude::*;
use vstd::string::StringExecFns;

verus! {

#[verifier::external_type_specification]
#[verifier::external_body]
pub struct ExJsonValue(serde_json::Value);

#[verifier::external_type_specification]
#[verifier::external_body]
pub struct ExJsonError(serde_json::Error);

/// The text that `String::from_utf8_lossy` makes of some bytes.
pub uninterp spec fn lossy_text(b: Seq<u8>) -> Seq<char>;

/// Relies on `String::from_utf8_lossy`: the bytes read as UTF-8, with each
/// invalid sequence replaced; a function of the bytes alone.
#[verifier::external_body]
fn utf8_lossy(b: &Vec<u8>) -> (r: String)
    ensures
        r@ == lossy_text(b@),
{
    String::from_utf8_lossy(b).into_owned()
}

/// Whether `serde_json::from_str` accepts a text as a JSON value.
pub uninterp spec fn is_json(s: Seq<char>) -> bool;

/// Relies on `serde_json::from_str` into a `serde_json::Value`: it succeeds
/// exactly on the texts that hold one JSON value, which depends on the text
/// alone.
#[verifier::external_body]
fn parse_json(s: &str) -> (r: Result<serde_json::Value, serde_json::Error>)
    ensures
        r is Ok == is_json(s@),
{
    serde_json::from_str(s)
}

/// Relies on the `Display` of `serde_json::Error`: a message that says what
/// is wrong and where.
#[verifier::external_body]
fn error_text(e: &serde_json::Error) -> String {
    e.to_string()
}

/// Whether `s` begins with `prefix`.
pub fn starts_with(s: &str, prefix: &str) -> (r: bool)
    ensures
        r == (prefix@.len() <= s@.len() && s@.subrange(0, prefix@.len() as int) == prefix@),
{
    let n = prefix.unicode_len();
    if n > s.unicode_len() {
        return false;
    }
    let mut i: usize = 0;
    while i < n
        invariant
            i <= n,
            n == prefix@.len(),
            n <= s@.len(),
            s@.subrange(0, i as int) == prefix@.subrange(0, i as int),
        decreases n - i,
    {
        if s.get_char(i) != prefix.get_char(i) {
            assert(s@.subrange(0, n as int)[i as int] != prefix@[i as int]);
            return false;
        }
        i = i + 1;
        assert(s@.subrange(0, i as int) =~= prefix@.subrange(0, i as int));
    }
    assert(prefix@.subrange(0, n as int) =~= prefix@);
    true
}

/// The media type that a JSON body must be sent with.
pub open spec fn json_media_type() -> Seq<char> {
    "application/json"@
}

/// Why a request has no JSON body to read, if it has none: the message of
/// the answer for a missing or a wrong `Content-Type`.
pub open spec fn content_type_problem(request: Request) -> Option<Seq<char>> {
    let name = "Content-Type"@;
    let headers = crate::http::header_map(request.headers@);
    if !headers.dom().contains(name) {
        Some("Missing Content-Type header"@)
    } else if !(json_media_type().len() <= headers[name].len()
        && headers[name].subrange(0, json_media_type().len() as int) == json_media_type()) {
        Some("Invalid Content-Type header"@)
    } else {
        None
    }
}

/// The answer to a request whose body cannot be read: status
/// `InvalidRequest` with the JSON text of `message` as body.
pub open spec fn invalid_request(resp: Response, message: Seq<char>) -> bool {
    &&& resp.status == ResponseStatus::InvalidRequest
    &&& resp.headers@.len() == 0
    &&& resp.body@ == crate::http::json_string(message)
}

/// The answer to a request whose `Content-Type` is missing or not JSON, if
/// it is either.
pub fn check_json_content_type(request: &Request) -> (r: Option<Response>)
    ensures
        match content_type_problem(*request) {
            None => r is None,
            Some(m) => r matches Some(resp) && invalid_request(resp, m),
        },
{
    match request.header("Content-Type") {
        None => {
            let resp = Response::new().with_status(ResponseStatus::InvalidRequest).with_body("Missing Content-Type header");
            Some(resp)
        },
        Some(ct) => {
            if !starts_with(ct.as_str(), "application/json") {
                let resp = Response::new().with_status(ResponseStatus::InvalidRequest).with_body("Invalid Content-Type header");
                Some(resp)
            } else {
                None
            }
        },
    }
}

/// The start of the message of the answer to a body that is not JSON.
pub open spec fn invalid_json_prefix() -> Seq<char> {
    "Invalid JSON body: "@
}

/// The answer to a body that is not valid JSON, with the parser's account
/// `detail` of what is wrong.
pub fn invalid_json(detail: String) -> (r: Response)
    ensures
        invalid_request(r, invalid_json_prefix() + detail@),
{
    let mut message = "Invalid JSON body: ".to_string();
    message.append(detail.as_str());
    Response::new().with_status(ResponseStatus::InvalidRequest).with_body(message)
}

/// Middleware that reads the request body as JSON and queues it as the data
/// of the type token `key`. A request without a JSON `Content-Type`, or with
/// a body that is not JSON, is answered with status `InvalidRequest`.
pub fn raw_json_body(pipeline: &PipelineData<serde_json::Value>, commands: &mut Commands<serde_json::Value>, key: u64) -> (r: Option<Response>)
    ensures
        match content_type_problem(pipeline.request) {
            Some(m) => r matches Some(resp) && invalid_request(resp, m) && final(commands)@ == old(commands)@,
            None => if is_json(lossy_text(pipeline.request.body@)) {
                &&& r is None
                &&& final(commands)@.len() == old(commands)@.len() + 1
                &&& final(commands)@.drop_last() == old(commands)@
                &&& final(commands)@.last().key == key
            } else {
                &&& exists|detail: Seq<char>| #[trigger] invalid_request(r->0, invalid_json_prefix() + detail)
                &&& r is Some
                &&& final(commands)@ == old(commands)@
            },
        },
{
    match check_json_content_type(&pipeline.request) {
        Some(resp) => Some(resp),
        None => {
            let text = utf8_lossy(&pipeline.request.body);
            match parse_json(text.as_str()) {
                Ok(value) => {
                    commands.add_data(key, value);
                    None
                },
                Err(e) => Some(invalid_json(error_text(&e))),
            }
        },
    }
}

} // verus!
