use radmin_router::Segment;

#[test]
fn dynamic_segments_all_equal() {
    assert_eq!(Segment::dynamic("a"), Segment::dynamic("b"));
    assert_eq!(Segment::dynamic("a"), Segment::dynamic("a"));
}

#[test]
fn literal_segments_equal_by_text() {
    assert_eq!(Segment::literal("x"), Segment::literal("x"));
    assert_ne!(Segment::literal("x"), Segment::literal("y"));
}

#[test]
fn dynamic_never_equals_literal() {
    assert_ne!(Segment::dynamic("x"), Segment::literal("x"));
    assert_ne!(Segment::literal("x"), Segment::dynamic("x"));
}
