use radmin_router::Method;
use radmin_router::Path;
use radmin_router::Route;

#[test]
fn allowed_methods() {
    let mut route = Route::<()>::new(Path(vec![]));
    route = route.get(()).patch(());

    let mut allowed_methods = route
        .allowed_methods()
        .into_iter()
        .map(|m| m.name())
        .collect::<Vec<_>>();
    allowed_methods.sort();
    let allowed_methods = allowed_methods.join(", ");

    assert_eq!(allowed_methods, "GET, PATCH");
}

#[test]
fn register_handler() {
    let mut route = Route::<i32>::new(Path(vec![]));
    assert!(route.handler(&Method::Get).is_none());

    route = route.get(7);
    assert!(route.handler(&Method::Get).is_some());
    assert_eq!(route.handler(&Method::Get), Some(7));
}

#[test]
fn registering_again_replaces_the_handler() {
    let route = Route::<i32>::new(Path(vec![])).get(1).post(2).get(3);
    assert_eq!(route.handler(&Method::Get), Some(3));
    assert_eq!(route.handler(&Method::Post), Some(2));
    assert_eq!(route.handler(&Method::Delete), None);
    assert_eq!(route.allowed_methods(), vec![Method::Get, Method::Post]);
}

#[test]
fn method_names() {
    assert_eq!(Method::Get.name(), "GET");
    assert_eq!(Method::Delete.name(), "DELETE");
    assert_eq!(Method::Patch.name(), "PATCH");
}
