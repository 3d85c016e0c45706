use std::sync::Arc;

use radmin_router::Dispatch;
use radmin_router::Method;
use radmin_router::Path;
use radmin_router::Route;
use radmin_router::Router;

fn router_with(routes: Vec<Route<i32>>) -> Router<(), i32> {
    let mut router = Router::new(Arc::new(()));
    router.register_many(routes);
    router
}

#[test]
fn root_route_matches_and_missing_is_not_found() {
    let router = router_with(vec![Route::new(Path::parse("/")).get(1)]);

    match router.route(Method::Get, "/") {
        Dispatch::Handle { handler, context } => {
            assert_eq!(handler, 1);
            assert!(context.params.is_empty());
        }
        _ => panic!("expected the root handler"),
    }

    assert!(matches!(
        router.route(Method::Get, "/missing"),
        Dispatch::NotFound
    ));
}

#[test]
fn dynamic_segment_binds_the_component() {
    let router = router_with(vec![Route::new(Path::parse("/[slug]")).get(1)]);

    match router.route(Method::Get, "/hello") {
        Dispatch::Handle { handler, context } => {
            assert_eq!(handler, 1);
            assert_eq!(context.params, vec!["hello".to_string()]);
        }
        _ => panic!("expected the slug handler"),
    }
}

#[test]
fn nested_dynamic_segments_bind_in_pattern_order() {
    let router = router_with(vec![
        Route::new(Path::parse("/[slug]/literal/[slug2]")).get(1)
    ]);

    match router.route(Method::Get, "/a/literal/b") {
        Dispatch::Handle { handler, context } => {
            assert_eq!(handler, 1);
            assert_eq!(context.params, vec!["a".to_string(), "b".to_string()]);
        }
        _ => panic!("expected the nested handler"),
    }
}

#[test]
fn wrong_method_yields_method_not_allowed_with_allow_list() {
    let router = router_with(vec![Route::new(Path::parse("/resource")).get(1)]);

    match router.route(Method::Delete, "/resource") {
        Dispatch::MethodNotAllowed { allowed, context } => {
            assert!(allowed.contains(&Method::Get));
            let names = allowed.iter().map(|m| m.name()).collect::<Vec<_>>();
            assert!(names.contains(&"GET".to_string()));
            assert!(context.params.is_empty());
        }
        _ => panic!("expected method not allowed"),
    }
}

#[test]
fn ambiguous_patterns_resolve_to_the_literal_candidate() {
    let router = router_with(vec![
        Route::new(Path::parse("/x/y")).get(1),
        Route::new(Path::parse("/[a]/[b]")).get(2),
    ]);

    match router.route(Method::Get, "/x/y") {
        Dispatch::Handle { handler, context } => {
            assert_eq!(handler, 1);
            assert!(context.params.is_empty());
        }
        _ => panic!("expected the literal route to win"),
    }

    match router.route(Method::Get, "/x/z") {
        Dispatch::Handle { handler, context } => {
            assert_eq!(handler, 2);
            assert_eq!(context.params, vec!["x".to_string(), "z".to_string()]);
        }
        _ => panic!("expected the dynamic route"),
    }
}

#[test]
fn prefix_without_terminal_route_is_not_found() {
    let router = router_with(vec![Route::new(Path::parse("/a/b/c")).get(1)]);

    assert!(matches!(router.route(Method::Get, "/a/b"), Dispatch::NotFound));
    assert!(matches!(router.route(Method::Get, "/a/b/c/d"), Dispatch::NotFound));
    assert!(matches!(
        router.route(Method::Get, "/a/b/c"),
        Dispatch::Handle { handler: 1, .. }
    ));
}

#[test]
fn register_overwrites_key_equal_pattern() {
    let router = Router::new(Arc::new(()))
        .register(Route::new(Path::parse("/[a]")).get(1))
        .register(Route::new(Path::parse("/[b]")).get(2));

    match router.route(Method::Get, "/value") {
        Dispatch::Handle { handler, context } => {
            assert_eq!(handler, 2);
            assert_eq!(context.params, vec!["value".to_string()]);
        }
        _ => panic!("expected the overwriting route"),
    }
}

#[test]
fn match_route_returns_route_and_params() {
    let router = router_with(vec![Route::new(Path::parse("/posts/[id]")).get(9)]);

    let (route, params) = router.match_route("/posts/42").unwrap();
    assert_eq!(route.path, Path::parse("/posts/[id]"));
    assert_eq!(params, vec!["42".to_string()]);

    assert!(router.match_route("/nope").is_none());
}

#[test]
fn trailing_and_repeated_slashes_are_absorbed() {
    let router = router_with(vec![Route::new(Path::parse("/a/b")).get(4)]);

    assert!(matches!(
        router.route(Method::Get, "//a///b/"),
        Dispatch::Handle { handler: 4, .. }
    ));
}

#[test]
fn context_carries_the_shared_state() {
    let mut router: Router<i32, i32> = Router::new(Arc::new(7));
    router.register_many(vec![Route::new(Path::parse("/[v]")).get(1)]);

    match router.route(Method::Get, "/anything") {
        Dispatch::Handle { handler, context } => {
            assert_eq!(handler, 1);
            assert_eq!(*context.ex, 7);
            assert_eq!(context.params, vec!["anything".to_string()]);
        }
        _ => panic!("expected a handler"),
    }
}
