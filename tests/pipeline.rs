use iris_web::data::DataContainer;
use iris_web::handler::{Data, FunctionController, FunctionMiddleware};
use iris_web::http::{Request, Response, ResponseStatus, UnserializedBody};
use iris_web::pipeline::{AddData, Commands, PipelineData, PipelineError, RequestPipeline};

type Mw = fn(&PipelineData<String>) -> (Option<Response>, Commands<String>);
type Ctl = fn(&PipelineData<String>) -> Response;

const GREETING: u64 = 1;
const SEEN: u64 = 2;
const LATER: u64 = 3;

fn text(s: &str) -> Response {
    Response::new().with_status(ResponseStatus::OK).with_body(UnserializedBody(s.as_bytes().to_vec()))
}

fn greet(_: &PipelineData<String>) -> (Option<Response>, Commands<String>) {
    let mut c = Commands::new();
    c.add_data(GREETING, "Hello Middleware!".to_string());
    (None, c)
}

fn check_own_step(p: &PipelineData<String>) -> (Option<Response>, Commands<String>) {
    // queues data, and cannot see it during its own step
    let mut c = Commands::new();
    c.add_data(LATER, "queued".to_string());
    let own = if p.get(LATER).is_some() { "visible" } else { "hidden" };
    c.add_data(SEEN, own.to_string());
    (None, c)
}

fn answer_early(_: &PipelineData<String>) -> (Option<Response>, Commands<String>) {
    let mut c = Commands::new();
    c.add_data(LATER, "from the answering step".to_string());
    (Some(text("early")), c)
}

fn must_not_run(_: &PipelineData<String>) -> (Option<Response>, Commands<String>) {
    panic!("middleware after an answer ran")
}

fn read_greeting(p: &PipelineData<String>) -> Response {
    let d = Data::fetch(p, GREETING).unwrap();
    text(&format!("Data from middleware: {}", d.data))
}

fn report_seen(p: &PipelineData<String>) -> Response {
    let seen = p.get(SEEN).unwrap();
    let later = p.get(LATER).unwrap();
    text(&format!("{} {}", seen, later))
}

fn controller_must_not_run(_: &PipelineData<String>) -> Response {
    panic!("controller ran after an answer")
}

fn request() -> Request {
    Request::new("GET".to_string(), "/".to_string())
}

#[test]
fn middleware_data_reaches_controller() {
    let c: FunctionController<String, Ctl> = FunctionController::new(read_greeting as Ctl).with_dependency(GREETING);
    let m: FunctionMiddleware<String, Mw> = FunctionMiddleware::new(greet as Mw);
    let p = RequestPipeline::new(c).with_middleware(m);
    let resp = p.handle(request(), DataContainer::new()).ok().unwrap();
    assert_eq!(resp.body, b"Data from middleware: Hello Middleware!".to_vec());
}

#[test]
fn queued_data_is_hidden_during_own_step_and_visible_after() {
    let c: FunctionController<String, Ctl> = FunctionController::new(report_seen as Ctl).with_dependency(SEEN).with_dependency(LATER);
    let m: FunctionMiddleware<String, Mw> = FunctionMiddleware::new(check_own_step as Mw);
    let p = RequestPipeline::new(c).with_middleware(m);
    let resp = p.handle(request(), DataContainer::new()).ok().unwrap();
    assert_eq!(resp.body, b"hidden queued".to_vec());
}

#[test]
fn answering_middleware_ends_the_run() {
    let c: FunctionController<String, Ctl> = FunctionController::new(controller_must_not_run as Ctl);
    let p = RequestPipeline::new(c)
        .with_middleware(FunctionMiddleware::new(answer_early as Mw))
        .with_middleware(FunctionMiddleware::new(must_not_run as Mw));
    let run = p.run(request(), DataContainer::new());
    let resp = run.result.ok().unwrap();
    assert_eq!(resp.body, b"early".to_vec());
    // the commands of the answering step were applied
    assert_eq!(run.state.get(LATER).map(|s| (*s).clone()), Some("from the answering step".to_string()));
}

#[test]
fn missing_dependency_fails_every_time() {
    let c: FunctionController<String, Ctl> = FunctionController::new(read_greeting as Ctl).with_dependency(GREETING);
    let p: RequestPipeline<FunctionMiddleware<String, Mw>, _> = RequestPipeline::new(c);
    for _ in 0..2 {
        match p.handle(request(), DataContainer::new()) {
            Err(PipelineError::MissingData(k)) => assert_eq!(k, GREETING),
            _ => panic!("expected a missing dependency"),
        }
    }
}

#[test]
fn middleware_missing_dependency_stops_before_it_runs() {
    let c: FunctionController<String, Ctl> = FunctionController::new(controller_must_not_run as Ctl);
    let m = FunctionMiddleware::new(must_not_run as Mw).with_dependency(SEEN);
    let p = RequestPipeline::new(c).with_middleware(m);
    assert!(matches!(p.handle(request(), DataContainer::new()), Err(PipelineError::MissingData(SEEN))));
}

#[test]
fn initial_data_satisfies_dependency() {
    let c: FunctionController<String, Ctl> = FunctionController::new(read_greeting as Ctl).with_dependency(GREETING);
    let p: RequestPipeline<FunctionMiddleware<String, Mw>, _> = RequestPipeline::new(c);
    let mut data = DataContainer::new();
    data.add(GREETING, "from the route".to_string());
    let resp = p.handle(request(), data).ok().unwrap();
    assert_eq!(resp.body, b"Data from middleware: from the route".to_vec());
}

#[test]
fn commands_apply_in_order() {
    let mut state = PipelineData::new(request(), DataContainer::new());
    let mut c = Commands::new();
    c.add_data(GREETING, "first".to_string());
    c.add_command(AddData { key: GREETING, data: "second".to_string() });
    c.execute(&mut state);
    assert_eq!(state.get(GREETING).map(|s| (*s).clone()), Some("second".to_string()));
    let d = Data::fetch(&state, GREETING).unwrap();
    assert_eq!(d.get_type_id(), GREETING);
}

#[test]
fn command_queue_starts_empty_and_controller_only_pipeline_answers() {
    let mut state = PipelineData::new(request(), DataContainer::new());
    let mut q: iris_web::pipeline::CommandQueue<String> = iris_web::pipeline::CommandQueue::new();
    q.execute(&mut state);
    assert!(state.get(GREETING).is_none());
    let p: RequestPipeline<FunctionMiddleware<String, Mw>, _> =
        RequestPipeline::controller(FunctionController::new(report_seen as Ctl));
    assert!(p.middlewares.is_empty());
}
