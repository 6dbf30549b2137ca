use iris_web::data::DataContainer;
use iris_web::handler::{FunctionController, FunctionMiddleware};
use iris_web::http::{Method, Request, Response, ResponseStatus, UnserializedBody};
use iris_web::pipeline::{Commands, PipelineData, RequestPipeline};
use iris_web::router::{PathResolver, Router};
use iris_web::server::dispatch;

type Mw = fn(&PipelineData<String>) -> (Option<Response>, Commands<String>);
type Ctl = fn(&PipelineData<String>) -> Response;
type Pipe = RequestPipeline<FunctionMiddleware<String, Mw>, FunctionController<String, Ctl>>;

fn hello(_: &PipelineData<String>) -> Response {
    Response::new().with_status(ResponseStatus::OK).with_body(UnserializedBody(b"Hello World!".to_vec()))
}

fn pipe() -> Pipe {
    RequestPipeline::new(FunctionController::new(hello as Ctl))
}

fn is_status(r: &Response, s: &str) -> bool {
    r.status.as_raw() == s
}

#[test]
fn unknown_path_is_404() {
    let router: Router<Pipe, String> = Router::new();
    let resp = dispatch(&router, Request::new("GET".to_string(), "/nowhere".to_string())).ok().unwrap();
    assert!(is_status(&resp, "404 Not Found"));
    assert!(resp.body.is_empty());
}

#[test]
fn wrong_method_is_405() {
    let mut router: Router<Pipe, String> = Router::new();
    router.add_route("/", Method::GET, pipe());
    let resp = dispatch(&router, Request::new("POST".to_string(), "/".to_string())).ok().unwrap();
    assert!(is_status(&resp, "405 Method Not Allowed"));
    assert!(resp.body.is_empty());
}

#[test]
fn matching_method_runs_pipeline() {
    let mut router: Router<Pipe, String> = Router::new();
    router.add_route("/", Method::GET, pipe());
    let resp = dispatch(&router, Request::new("GET".to_string(), "/".to_string())).ok().unwrap();
    assert!(is_status(&resp, "200 OK"));
    assert_eq!(resp.body, b"Hello World!".to_vec());
}

#[test]
fn literal_payload_is_sent_verbatim() {
    let mut router: Router<Pipe, String> = Router::new();
    router.insert("/about", PathResolver::Placeholder("About us".to_string()));
    let resp = dispatch(&router, Request::new("DELETE".to_string(), "/about".to_string())).ok().unwrap();
    assert!(is_status(&resp, "200 OK"));
    assert_eq!(resp.body, b"About us".to_vec());
}

#[test]
fn nested_router_as_target_is_500() {
    let e: PathResolver<Pipe, String> = PathResolver::Router(Box::new(Router::new()));
    let resp = e.resolve(Request::new("GET".to_string(), "/".to_string()), DataContainer::new()).ok().unwrap();
    assert!(is_status(&resp, "500 Internal Server Error"));
}
