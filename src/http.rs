//! Request and response values, and the text of a response head.
use crate::lookup::{first_index, lemma_first_index_at, lemma_first_index_push, lemma_first_index_range};
use vstd::prelude::*;
use vstd::string::StringExecFns;

verus! {

broadcast use vstd::string::group_string_axioms;

/// An HTTP request method.
pub enum Method {
    GET,
    POST,
    PUT,
    DELETE,
    PATCH,
    HEAD,
    OPTIONS,
    CONNECT,
    TRACE,
}

/// The name of a method as it stands in a request line.
pub open spec fn method_name(m: Method) -> Seq<char> {
    match m {
        Method::GET => "GET"@,
        Method::POST => "POST"@,
        Method::PUT => "PUT"@,
        Method::DELETE => "DELETE"@,
        Method::PATCH => "PATCH"@,
        Method::HEAD => "HEAD"@,
        Method::OPTIONS => "OPTIONS"@,
        Method::CONNECT => "CONNECT"@,
        Method::TRACE => "TRACE"@,
    }
}

impl Method {
    /// The name of the method.
    pub fn as_str(&self) -> (r: String)
        ensures
            r@ == method_name(*self),
    {
        match self {
            Method::GET => "GET".to_string(),
            Method::POST => "POST".to_string(),
            Method::PUT => "PUT".to_string(),
            Method::DELETE => "DELETE".to_string(),
            Method::PATCH => "PATCH".to_string(),
            Method::HEAD => "HEAD".to_string(),
            Method::OPTIONS => "OPTIONS".to_string(),
            Method::CONNECT => "CONNECT".to_string(),
            Method::TRACE => "TRACE".to_string(),
        }
    }
}

/// The status of a response.
pub enum ResponseStatus {
    OK,
    NotFound,
    BadRequest,
    InternalServerError,
    MethodNotAllowed,
    InvalidRequest,
    /// A status line of the caller's own, such as `418 I'm a teapot`.
    Custom(String),
}

/// The status code and reason phrase of a status.
pub open spec fn status_text(s: ResponseStatus) -> Seq<char> {
    match s {
        ResponseStatus::OK => "200 OK"@,
        ResponseStatus::NotFound => "404 Not Found"@,
        ResponseStatus::BadRequest => "400 Bad Request"@,
        ResponseStatus::InternalServerError => "500 Internal Server Error"@,
        ResponseStatus::MethodNotAllowed => "405 Method Not Allowed"@,
        ResponseStatus::InvalidRequest => "400 Bad Request"@,
        ResponseStatus::Custom(c) => c@,
    }
}

impl ResponseStatus {
    /// The status code and reason phrase.
    pub fn as_raw(&self) -> (r: String)
        ensures
            r@ == status_text(*self),
    {
        match self {
            ResponseStatus::OK => "200 OK".to_string(),
            ResponseStatus::NotFound => "404 Not Found".to_string(),
            ResponseStatus::BadRequest => "400 Bad Request".to_string(),
            ResponseStatus::InternalServerError => "500 Internal Server Error".to_string(),
            ResponseStatus::MethodNotAllowed => "405 Method Not Allowed".to_string(),
            ResponseStatus::InvalidRequest => "400 Bad Request".to_string(),
            ResponseStatus::Custom(s) => s.clone(),
        }
    }
}

/// A header: its name and value.
pub struct Header {
    pub name: String,
    pub value: String,
}

/// The names of a list of headers, in order.
pub open spec fn header_names(hs: Seq<Header>) -> Seq<Seq<char>> {
    hs.map_values(|h: Header| h.name@)
}

/// The headers as a map from name to value: the first header of a name wins.
pub open spec fn header_map(hs: Seq<Header>) -> Map<Seq<char>, Seq<char>> {
    Map::new(
        |k: Seq<char>| first_index(header_names(hs), k) >= 0,
        |k: Seq<char>| hs[first_index(header_names(hs), k)].value@,
    )
}

/// Index of the first header named `name`, if any.
fn find_header(hs: &Vec<Header>, name: &String) -> (r: Option<usize>)
    ensures
        match r {
            Some(i) => i == first_index(header_names(hs@), name@) && i < hs@.len(),
            None => first_index(header_names(hs@), name@) == -1,
        },
{
    let ghost keys = header_names(hs@);
    proof {
        lemma_first_index_range(keys, name@);
    }
    let mut i: usize = 0;
    while i < hs.len()
        invariant
            0 <= i <= hs@.len(),
            keys == header_names(hs@),
            forall|j: int| 0 <= j < i ==> keys[j] != name@,
        decreases hs@.len() - i,
    {
        if hs[i].name == *name {
            proof {
                lemma_first_index_at(keys, name@, i as int);
            }
            return Some(i);
        }
        i = i + 1;
    }
    None
}

/// Looks a header up by name.
pub fn lookup_header(hs: &Vec<Header>, name: &str) -> (r: Option<String>)
    ensures
        r is Some <==> header_map(hs@).dom().contains(name@),
        r is Some ==> r->0@ == header_map(hs@)[name@],
{
    let key = name.to_string();
    match find_header(hs, &key) {
        Some(i) => Some(hs[i].value.clone()),
        None => None,
    }
}

/// `hs` with `h` in place of the first header of its name, or after the
/// others where there is none.
pub open spec fn header_set(hs: Seq<Header>, h: Header) -> Seq<Header> {
    let i = first_index(header_names(hs), h.name@);
    if 0 <= i < hs.len() {
        hs.update(i, h)
    } else {
        hs.push(h)
    }
}

/// Sets the header `name` to `value`, in place of the first one of that name.
pub fn set_header(hs: &mut Vec<Header>, name: String, value: String)
    ensures
        final(hs)@ == header_set(old(hs)@, Header { name, value }),
        header_map(final(hs)@) == header_map(old(hs)@).insert(name@, value@),
{
    let ghost keys = header_names(old(hs)@);
    let ghost n_view = name@;
    let ghost v_view = value@;
    proof {
        lemma_first_index_range(keys, n_view);
    }
    match find_header(hs, &name) {
        Some(i) => {
            hs.set(i, Header { name, value });
            proof {
                assert(header_names(hs@) =~= keys);
                assert forall|k: Seq<char>| true implies #[trigger] first_index(keys, k) < hs@.len()
                    && (first_index(keys, k) >= 0 ==> keys[first_index(keys, k)] == k) by {
                    lemma_first_index_range(keys, k);
                }
                assert(header_map(hs@) =~= header_map(old(hs)@).insert(n_view, v_view));
            }
        },
        None => {
            hs.push(Header { name, value });
            proof {
                assert(header_names(hs@) =~= keys.push(n_view));
                assert forall|k: Seq<char>| true implies #[trigger] first_index(header_names(hs@), k)
                    == if first_index(keys, k) >= 0 {
                        first_index(keys, k)
                    } else if n_view == k {
                        keys.len() as int
                    } else {
                        -1
                    } by {
                    lemma_first_index_push(keys, n_view, k);
                    lemma_first_index_range(keys, k);
                }
                assert forall|k: Seq<char>| first_index(keys, k) >= 0 implies #[trigger] hs@[first_index(keys, k)]
                    == old(hs)@[first_index(keys, k)] by {
                    lemma_first_index_range(keys, k);
                }
                assert(header_map(hs@) =~= header_map(old(hs)@).insert(n_view, v_view));
            }
        },
    }
}

/// Named values taken from a request path.
pub struct PathParams {
    params: Vec<Header>,
}

impl PathParams {
    /// The parameters, as a map from name to value.
    pub closed spec fn view(&self) -> Map<Seq<char>, Seq<char>> {
        header_map(self.params@)
    }

    /// No parameters.
    pub fn new() -> (r: Self)
        ensures
            r@ == Map::<Seq<char>, Seq<char>>::empty(),
    {
        let r = PathParams { params: Vec::new() };
        assert(r@ =~= Map::<Seq<char>, Seq<char>>::empty());
        r
    }

    /// Sets the parameter `key` to `value`.
    pub fn add_param(&mut self, key: String, value: String)
        ensures
            final(self)@ == old(self)@.insert(key@, value@),
    {
        set_header(&mut self.params, key, value);
    }

    /// The value of the parameter `key`, if any.
    pub fn get_param(&self, key: &str) -> (r: Option<String>)
        ensures
            r is Some <==> self@.dom().contains(key@),
            r is Some ==> r->0@ == self@[key@],
    {
        lookup_header(&self.params, key)
    }

    /// All parameters, as name and value pairs.
    pub fn get_params(&self) -> (r: Vec<Header>)
        ensures
            header_map(r@) == self@,
    {
        let mut r: Vec<Header> = Vec::new();
        let mut i: usize = 0;
        while i < self.params.len()
            invariant
                i <= self.params@.len(),
                r@ == self.params@.take(i as int),
            decreases self.params@.len() - i,
        {
            let h = Header { name: self.params[i].name.clone(), value: self.params[i].value.clone() };
            r.push(h);
            i = i + 1;
            assert(r@ =~= self.params@.take(i as int));
        }
        assert(self.params@.take(i as int) =~= self.params@);
        r
    }
}

/// A request, as parsed from the connection.
pub struct Request {
    pub method: String,
    /// The path, with the query string and a trailing `/` taken off.
    pub path: String,
    pub version: String,
    pub headers: Vec<Header>,
    pub query_params: Vec<Header>,
    pub body: Vec<u8>,
}

impl Request {
    /// A request with the given method and path, and nothing else.
    pub fn new(method: String, path: String) -> (r: Self)
        ensures
            r.method == method,
            r.path == path,
            r.version@ == "HTTP/1.1"@,
            r.headers@.len() == 0,
            r.query_params@.len() == 0,
            r.body@.len() == 0,
    {
        Request {
            method,
            path,
            version: "HTTP/1.1".to_string(),
            headers: Vec::new(),
            query_params: Vec::new(),
            body: Vec::new(),
        }
    }

    /// The value of the header `name`, if the request has one.
    pub fn header(&self, name: &str) -> (r: Option<String>)
        ensures
            r is Some <==> header_map(self.headers@).dom().contains(name@),
            r is Some ==> r->0@ == header_map(self.headers@)[name@],
    {
        lookup_header(&self.headers, name)
    }
}

/// A response to a request.
pub struct Response {
    pub status: ResponseStatus,
    pub headers: Vec<Header>,
    pub body: Vec<u8>,
}

/// The body bytes of a value that can be sent as a response body.
pub trait IntoResponseBody: Sized {
    /// The bytes that the value is sent as.
    spec fn body_bytes(&self) -> Seq<u8>;

    fn into_response_body(self) -> (r: Vec<u8>)
        ensures
            r@ == self.body_bytes(),
    ;
}

/// A body sent as it is, with no encoding.
pub struct UnserializedBody(pub Vec<u8>);

impl IntoResponseBody for UnserializedBody {
    open spec fn body_bytes(&self) -> Seq<u8> {
        self.0@
    }

    fn into_response_body(self) -> (r: Vec<u8>) {
        self.0
    }
}

/// The JSON text of a string, as `serde_json` writes it.
pub uninterp spec fn json_string(s: Seq<char>) -> Seq<u8>;

/// Relies on `serde_json::to_vec` on a string: the JSON string literal that
/// encodes it, which depends on the characters alone. Writing a string into
/// a `Vec` cannot fail, so the error arm is never taken.
#[verifier::external_body]
fn encode_json_string(s: &str) -> (r: Vec<u8>)
    ensures
        r@ == json_string(s@),
{
    match serde_json::to_vec(s) {
        Ok(v) => v,
        Err(_) => Vec::new(),
    }
}

impl IntoResponseBody for String {
    open spec fn body_bytes(&self) -> Seq<u8> {
        json_string(self@)
    }

    fn into_response_body(self) -> (r: Vec<u8>) {
        encode_json_string(self.as_str())
    }
}

impl<'a> IntoResponseBody for &'a str {
    open spec fn body_bytes(&self) -> Seq<u8> {
        json_string(self@)
    }

    fn into_response_body(self) -> (r: Vec<u8>) {
        encode_json_string(self)
    }
}

impl View for Response {
    type V = (ResponseStatus, Seq<Header>, Seq<u8>);

    open spec fn view(&self) -> (ResponseStatus, Seq<Header>, Seq<u8>) {
        (self.status, self.headers@, self.body@)
    }
}

/// A value that a handler can return.
pub trait IntoResponse: Sized {
    /// The status, headers and body of the response that the value becomes.
    spec fn response_of(&self) -> (ResponseStatus, Seq<Header>, Seq<u8>);

    fn into_response(self) -> (r: Response)
        ensures
            r@ == self.response_of(),
    ;
}

impl IntoResponse for Response {
    open spec fn response_of(&self) -> (ResponseStatus, Seq<Header>, Seq<u8>) {
        self@
    }

    fn into_response(self) -> (r: Response) {
        self
    }
}

/// Any body becomes a status-200 response with no headers.
impl<T: IntoResponseBody> IntoResponse for T {
    open spec fn response_of(&self) -> (ResponseStatus, Seq<Header>, Seq<u8>) {
        (ResponseStatus::OK, Seq::empty(), self.body_bytes())
    }

    fn into_response(self) -> (r: Response) {
        let body = self.into_response_body();
        let r = Response { status: ResponseStatus::OK, headers: Vec::new(), body };
        assert(r.headers@ =~= Seq::<Header>::empty());
        r
    }
}

impl Response {
    /// An empty response with status 404.
    pub fn new() -> (r: Self)
        ensures
            r.status == ResponseStatus::NotFound,
            r.headers@ == Seq::<Header>::empty(),
            r.body@ == Seq::<u8>::empty(),
    {
        let r = Response { status: ResponseStatus::NotFound, headers: Vec::new(), body: Vec::new() };
        assert(r.headers@ =~= Seq::<Header>::empty());
        assert(r.body@ =~= Seq::<u8>::empty());
        r
    }

    /// The response with its status set to `status`.
    pub fn with_status(self, status: ResponseStatus) -> (r: Self)
        ensures
            r.status == status,
            r.headers == self.headers,
            r.body == self.body,
    {
        let mut r = self;
        r.status = status;
        r
    }

    /// The response with its body set to the bytes of `body`.
    pub fn with_body<B: IntoResponseBody>(self, body: B) -> (r: Self)
        ensures
            r.status == self.status,
            r.headers == self.headers,
            r.body@ == body.body_bytes(),
    {
        let mut r = self;
        r.body = body.into_response_body();
        r
    }
}

impl Default for Response {
    fn default() -> (r: Self)
        ensures
            r.status == ResponseStatus::NotFound,
            r.headers@ == Seq::<Header>::empty(),
            r.body@ == Seq::<u8>::empty(),
    {
        Response::new()
    }
}

} // verus!
