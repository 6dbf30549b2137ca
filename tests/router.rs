use iris_web::http::Method;
use iris_web::path::{is_root_path, split_path};
use iris_web::router::{MethodRoute, Module, PathResolver, Router};
use std::sync::Arc;

fn payload<'a>(r: Option<(&'a PathResolver<(), i32>, iris_web::data::DataContainer<i32>)>) -> Option<&'a str> {
    match r {
        Some((PathResolver::Placeholder(s), _)) => Some(s.as_str()),
        _ => None,
    }
}

fn leaf(s: &str) -> PathResolver<(), i32> {
    PathResolver::Placeholder(s.to_string())
}

#[test]
fn test_router() {
    let mut router: Router<(), i32> = Router::new();

    router.insert("/", leaf("Root"));
    router.insert("/hello/world", leaf("Hello World"));
    router.insert("/hello/world/test", leaf("Hello World test"));

    router.insert("/hello/:name", leaf("Hello Name"));
    router.insert("/hello/:name/:age", leaf("Hello Name Age"));

    assert_eq!(payload(router.resolve("/")), Some("Root"));
    assert_eq!(payload(router.resolve("/hello/world")), Some("Hello World"));
    assert_eq!(payload(router.resolve("/hello/world/test")), Some("Hello World test"));
    assert_eq!(payload(router.resolve("/hello/John")), Some("Hello Name"));
    assert_eq!(payload(router.resolve("/hello/John/20")), Some("Hello Name Age"));
}

#[test]
fn scenario_root_literal_and_placeholders() {
    let mut router: Router<(), i32> = Router::new();
    router.insert("/", leaf("Root"));
    router.insert("/hello/world", leaf("Hello World"));
    router.insert("/hello/:name", leaf("Hello Name"));
    router.insert("/hello/:name/:age", leaf("Hello Name Age"));

    assert_eq!(payload(router.resolve("/")), Some("Root"));
    assert_eq!(payload(router.resolve("/hello/world")), Some("Hello World"));
    assert_eq!(payload(router.resolve("/hello/John")), Some("Hello Name"));
    assert_eq!(payload(router.resolve("/hello/John/20")), Some("Hello Name Age"));
    // a literal leaf matches whatever follows it
    assert_eq!(payload(router.resolve("/hello/world/extra")), Some("Hello World"));
}

#[test]
fn last_insert_wins() {
    let mut router: Router<(), i32> = Router::new();
    router.insert("/a/b", leaf("first"));
    router.insert("/a/b", leaf("second"));
    assert_eq!(payload(router.resolve("/a/b")), Some("second"));
}

#[test]
fn placeholder_matches_any_segment_and_literal_beats_it() {
    let mut router: Router<(), i32> = Router::new();
    router.insert("/a/:x", leaf("placeholder"));
    assert_eq!(payload(router.resolve("/a/anything")), Some("placeholder"));
    router.insert("/a/b", leaf("literal"));
    assert_eq!(payload(router.resolve("/a/b")), Some("literal"));
    assert_eq!(payload(router.resolve("/a/c")), Some("placeholder"));
}

#[test]
fn placeholder_promotion_keeps_shorter_route() {
    let mut router: Router<(), i32> = Router::new();
    router.insert("/a/:x", leaf("one"));
    router.insert("/a/:x/:y", leaf("two"));
    assert_eq!(payload(router.resolve("/a/single")), Some("one"));
    assert_eq!(payload(router.resolve("/a/s/t")), Some("two"));
    assert!(router.resolve("/a/s/t/u").is_none());
}

#[test]
fn literal_leaf_ignores_trailing_segments() {
    let mut router: Router<(), i32> = Router::new();
    router.insert("/static", leaf("files"));
    assert_eq!(payload(router.resolve("/static/css/site.css")), Some("files"));
}

#[test]
fn unknown_path_and_empty_insert() {
    let mut router: Router<(), i32> = Router::new();
    router.insert("", leaf("nothing"));
    assert!(router.resolve("/").is_none());
    assert!(router.resolve("/missing").is_none());
}

#[test]
fn scoped_data_is_combined_along_the_path() {
    struct Inner;
    impl Module<(), i32> for Inner {
        fn build(self, router: &mut Router<(), i32>) {
            router.add_data(1, 20);
            router.insert("/leaf", PathResolver::Placeholder("leaf".to_string()));
        }
    }
    let mut router: Router<(), i32> = Router::new();
    router.add_data(1, 10);
    router.add_data(2, 30);
    router.add_module("/mod", Inner);
    let (entry, data) = router.resolve("/mod/leaf").unwrap();
    assert!(matches!(entry, PathResolver::Placeholder(s) if s == "leaf"));
    assert_eq!(data.get(1), Some(Arc::new(20)));
    assert_eq!(data.get(2), Some(Arc::new(30)));
}

#[test]
fn routes_of_two_methods_share_a_path() {
    let mut router: Router<u32, i32> = Router::new();
    router.add_route("/items", Method::GET, 1);
    router.add_route("/items", Method::POST, 2);
    router.add_route("/items", Method::GET, 3);
    match router.resolve("/items") {
        Some((PathResolver::Pipeline(ms), _)) => {
            let get: Vec<&MethodRoute<u32>> = ms.iter().filter(|m| m.method == "GET").collect();
            let post: Vec<&MethodRoute<u32>> = ms.iter().filter(|m| m.method == "POST").collect();
            assert_eq!(get.len(), 1);
            assert_eq!(get[0].pipeline, 3);
            assert_eq!(post.len(), 1);
            assert_eq!(post[0].pipeline, 2);
        }
        _ => panic!("expected a method map"),
    }
}

#[test]
fn split_path_drops_empty_segments() {
    assert_eq!(split_path("//a///b/"), vec!["a".to_string(), "b".to_string()]);
    assert!(split_path("/").is_empty());
    assert!(split_path("").is_empty());
    assert!(is_root_path(" / "));
    assert!(!is_root_path("//"));
}
