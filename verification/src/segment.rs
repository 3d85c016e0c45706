use vstd::prelude::*;

verus! {

/// A URL path segment. All dynamic segments are equal regardless of their
/// name.
#[derive(Debug, Clone)]
pub enum Segment {
    /// A fixed, literal path segment that is matched exactly.
    Literal(String),
    /// A dynamic path segment that matches any single component. All dynamic
    /// segments are considered equal regardless of their name; the name is
    /// display data only.
    Dynamic(String),
}

/// The mathematical value of a `Segment`: its kind and its text.
pub enum SegView {
    Literal(Seq<char>),
    Dynamic(Seq<char>),
}

/// The identity of a segment under the router's equality: a literal is
/// identified by its text, and all dynamic segments share one identity.
pub enum SegKey {
    Literal(Seq<char>),
    Dynamic,
}

impl SegView {
    /// The key of this segment: the name of a dynamic segment is dropped.
    pub open spec fn key(self) -> SegKey {
        match self {
            SegView::Literal(t) => SegKey::Literal(t),
            SegView::Dynamic(_) => SegKey::Dynamic,
        }
    }

    pub open spec fn is_dynamic(self) -> bool {
        self matches SegView::Dynamic(_)
    }

    /// The text carried by this segment: a literal's matched text, or a
    /// dynamic segment's display name.
    pub open spec fn text(self) -> Seq<char> {
        match self {
            SegView::Literal(t) => t,
            SegView::Dynamic(n) => n,
        }
    }
}

impl View for Segment {
    type V = SegView;

    open spec fn view(&self) -> SegView {
        match self {
            Segment::Literal(t) => SegView::Literal(t@),
            Segment::Dynamic(n) => SegView::Dynamic(n@),
        }
    }
}

impl Segment {
    /// Constructs a literal segment.
    pub fn literal(literal: &str) -> (r: Self)
        ensures
            r@ == SegView::Literal(literal@),
    {
        Segment::Literal(literal.to_owned())
    }

    /// Constructs a dynamic segment.
    pub fn dynamic(dynamic: &str) -> (r: Self)
        ensures
            r@ == SegView::Dynamic(dynamic@),
    {
        Segment::Dynamic(dynamic.to_owned())
    }

    /// The segment's text, cloned: a literal's matched text, or a dynamic
    /// segment's display name.
    pub fn text_owned(&self) -> (r: String)
        ensures
            r@ == self@.text(),
    {
        match self {
            Segment::Literal(t) => t.clone(),
            Segment::Dynamic(n) => n.clone(),
        }
    }

    /// Whether this segment is a dynamic wildcard.
    pub fn is_dynamic(&self) -> (r: bool)
        ensures
            r == self@.is_dynamic(),
    {
        match self {
            Segment::Dynamic(_) => true,
            Segment::Literal(_) => false,
        }
    }
}

impl PartialEq for Segment {
    /// Two literals are equal iff their text matches; two dynamic segments
    /// are always equal; a dynamic segment never equals a literal.
    fn eq(&self, other: &Self) -> (r: bool) {
        match (self, other) {
            (Segment::Literal(lhs), Segment::Literal(rhs)) => *lhs == *rhs,
            (Segment::Dynamic(_), Segment::Dynamic(_)) => true,
            _ => false,
        }
    }
}

impl vstd::std_specs::cmp::PartialEqSpecImpl for Segment {
    open spec fn obeys_eq_spec() -> bool {
        true
    }

    open spec fn eq_spec(&self, other: &Segment) -> bool {
        self@.key() == other@.key()
    }
}

impl Eq for Segment {}

/// Segment equality collapses dynamic names: any two dynamic segments are
/// equal whatever their names; two literals are equal exactly when their
/// text is equal; a dynamic segment is never equal to a literal.
pub proof fn lemma_segment_equality(a: SegView, b: SegView)
    ensures
        a.is_dynamic() && b.is_dynamic() ==> a.key() == b.key(),
        !a.is_dynamic() && !b.is_dynamic() ==> (a.key() == b.key() <==> a.text() == b.text()),
        a.is_dynamic() != b.is_dynamic() ==> a.key() != b.key(),
{
}

} // verus!
