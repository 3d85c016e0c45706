use radmin_router::Node;
use radmin_router::Path;
use radmin_router::Route;
use radmin_router::Segment;

#[test]
fn default() {
    let node = Node::<()>::default();
    assert_eq!(node.children_count(), 0);
    assert!(node.route.is_none());
}

#[test]
fn insert_root() {
    let mut root = Node::<()>::default();

    root.append(Route::new(Path(vec![])));
    assert!(root.route.is_some());
}

#[test]
fn insert_create_nested() {
    let mut root = Node::<()>::default();
    let path = vec![
        Segment::Literal("test".into()),
        Segment::Literal("path".into()),
    ];

    root.append(Route::new(Path(path.clone())));

    assert!(root.route.is_none());
    assert_eq!(root.children_count(), 1);

    let child = root.child(&path[0]);
    assert!(child.is_some());
    let child = child.unwrap();
    assert!(child.route.is_none());
    assert_eq!(child.children_count(), 1);

    let grandchild = child.child(&path[1]);
    assert!(grandchild.is_some());
    let grandchild = grandchild.unwrap();
    assert!(grandchild.route.is_some());
    assert_eq!(grandchild.children_count(), 0);
}

#[test]
fn shared_literal_prefix_shares_subtree() {
    let mut root = Node::<u32>::default();
    root.append(Route::new(Path(vec![
        Segment::literal("x"),
        Segment::literal("a"),
    ])));
    root.append(Route::new(Path(vec![
        Segment::literal("x"),
        Segment::literal("b"),
    ])));

    assert_eq!(root.children_count(), 1);
    let x = root.child(&Segment::literal("x")).unwrap();
    assert_eq!(x.children_count(), 2);
}

#[test]
fn dynamic_names_collapse_and_second_route_wins() {
    let mut root = Node::<u32>::default();
    root.append(Route::new(Path(vec![Segment::dynamic("a")])).get(1));
    root.append(Route::new(Path(vec![Segment::dynamic("b")])).get(2));

    assert_eq!(root.children_count(), 1);
    let child = root.child(&Segment::dynamic("anything")).unwrap();
    assert_eq!(child.children_count(), 0);
    let route = child.route.as_ref().unwrap();
    assert_eq!(route.handler(&radmin_router::Method::Get), Some(2));
}
