use radmin_router::Path;
use radmin_router::Segment;

#[test]
fn empty_path() {
    let path = Path(vec![]);
    assert_eq!("/".to_string(), path.format());
}

#[test]
fn mixed_segment_path() {
    let path = Path(vec![Segment::literal("segment"), Segment::dynamic("slug")]);
    assert_eq!(path.format(), "/segment/[slug]");
}

#[test]
fn path_display() {
    let path = Path(vec![Segment::literal("segment")]);
    assert_eq!(path.format(), "/segment");
}

#[test]
fn path_from_str() {
    let path = Path::parse("/test/[slug]");
    assert_eq!(
        path,
        Path(vec![Segment::literal("test"), Segment::dynamic("slug")])
    );

    assert_ne!(
        path,
        Path(vec![
            Segment::literal("another_segment"),
            Segment::dynamic("slug")
        ])
    );
}

#[test]
fn format_then_parse_round_trips() {
    let path = Path(vec![
        Segment::literal("api"),
        Segment::dynamic("id"),
        Segment::literal("posts"),
        Segment::dynamic("comment"),
    ]);
    assert_eq!(Path::parse(&path.format()), path);

    let root = Path(vec![]);
    assert_eq!(Path::parse(&root.format()), root);
}

#[test]
fn parse_absorbs_extra_slashes() {
    let path = Path::parse("//a///b/");
    assert_eq!(path, Path(vec![Segment::literal("a"), Segment::literal("b")]));

    assert_eq!(Path::parse(""), Path(vec![]));
    assert_eq!(Path::parse("/"), Path(vec![]));
}
