use vstd::prelude::*;

use crate::segment::SegKey;
use crate::segment::SegView;
use crate::segment::Segment;

verus! {

/// A route path, i.e. an ordered list of segments. The empty list denotes
/// the root path `/`.
#[derive(Debug, Clone)]
pub struct Path(pub Vec<Segment>);

impl View for Path {
    type V = Seq<SegView>;

    open spec fn view(&self) -> Seq<SegView> {
        self.0@.map_values(|s: Segment| s@)
    }
}

/// The keys of a sequence of segments: each dynamic segment's name is
/// dropped, so key-equal paths are the paths the router cannot tell apart.
pub open spec fn keys_of(segs: Seq<SegView>) -> Seq<SegKey> {
    segs.map_values(|s: SegView| s.key())
}

/// Path equality: segment-wise key equality.
pub open spec fn paths_equiv(a: Seq<SegView>, b: Seq<SegView>) -> bool {
    keys_of(a) == keys_of(b)
}

/// A singleton holding `cur` when it is non-empty; splitting emits no empty
/// components.
pub open spec fn emit(cur: Seq<char>) -> Seq<Seq<char>> {
    if cur.len() == 0 {
        Seq::empty()
    } else {
        seq![cur]
    }
}

/// The non-empty components of `s` split on `/`, with `cur` the partial
/// component read so far.
pub open spec fn split_components_from(s: Seq<char>, cur: Seq<char>) -> Seq<Seq<char>>
    decreases s.len(),
{
    if s.len() == 0 {
        emit(cur)
    } else if s[0] == '/' {
        emit(cur) + split_components_from(s.drop_first(), Seq::empty())
    } else {
        split_components_from(s.drop_first(), cur.push(s[0]))
    }
}

/// The non-empty slash-separated components of a path string.
pub open spec fn split_components(s: Seq<char>) -> Seq<Seq<char>> {
    split_components_from(s, Seq::empty())
}

/// A component is dynamic exactly when it is wrapped in brackets.
pub open spec fn is_dynamic_component(c: Seq<char>) -> bool {
    c.len() >= 1 && c[0] == '[' && c[c.len() - 1] == ']'
}

/// The name carried by a dynamic component: the text after the opening
/// bracket, with the closing bracket and one further trailing character
/// dropped. The name is display data only, so the truncation is harmless
/// and deliberately kept.
pub open spec fn dynamic_name(c: Seq<char>) -> Seq<char> {
    if c.len() >= 3 {
        c.subrange(1, c.len() - 2)
    } else {
        Seq::empty()
    }
}

/// One parsed component: dynamic when bracket-wrapped, else a literal taken
/// verbatim.
pub open spec fn classify_component(c: Seq<char>) -> SegView {
    if is_dynamic_component(c) {
        SegView::Dynamic(dynamic_name(c))
    } else {
        SegView::Literal(c)
    }
}

/// What parsing a pattern string yields: each non-empty component of the
/// string, classified.
pub open spec fn parse_spec(s: Seq<char>) -> Seq<SegView> {
    split_components(s).map_values(|c: Seq<char>| classify_component(c))
}

/// The text of one formatted segment: a literal's text, or a dynamic
/// segment's name in brackets.
pub open spec fn seg_text(s: SegView) -> Seq<char> {
    match s {
        SegView::Literal(t) => t,
        SegView::Dynamic(n) => seq!['['] + n + seq![']'],
    }
}

/// `/` followed by each segment's text, the texts separated by `/`.
pub open spec fn join_slash(segs: Seq<SegView>) -> Seq<char>
    decreases segs.len(),
{
    if segs.len() == 0 {
        Seq::empty()
    } else {
        seq!['/'] + seg_text(segs[0]) + join_slash(segs.drop_first())
    }
}

/// What formatting a path yields; the empty path formats as `/` alone.
pub open spec fn format_spec(segs: Seq<SegView>) -> Seq<char> {
    if segs.len() == 0 {
        seq!['/']
    } else {
        join_slash(segs)
    }
}

/// A segment whose formatted text parses back to a key-equal segment: the
/// text holds no separator, and a literal is non-empty and not itself
/// bracket-wrapped.
pub open spec fn wf_seg(s: SegView) -> bool {
    match s {
        SegView::Literal(t) => t.len() > 0 && !t.contains('/') && !(t[0] == '[' && t[t.len()
            - 1] == ']'),
        SegView::Dynamic(n) => !n.contains('/'),
    }
}

proof fn lemma_split_no_sep(t: Seq<char>, rest: Seq<char>, cur: Seq<char>)
    requires
        !t.contains('/'),
    ensures
        split_components_from(t + rest, cur) == split_components_from(rest, cur + t),
    decreases t.len(),
{
    if t.len() == 0 {
        assert(t + rest =~= rest);
        assert(cur + t =~= cur);
    } else {
        assert(t[0] != '/') by {
            assert(t.contains(t[0]));
        }
        assert((t + rest)[0] == t[0]);
        assert((t + rest).drop_first() =~= t.drop_first() + rest);
        assert(!t.drop_first().contains('/')) by {
            if t.drop_first().contains('/') {
                let i = choose|i: int| 0 <= i < t.drop_first().len() && t.drop_first()[i] == '/';
                assert(t[i + 1] == '/');
                assert(t.contains('/'));
            }
        }
        lemma_split_no_sep(t.drop_first(), rest, cur.push(t[0]));
        assert(cur.push(t[0]) + t.drop_first() =~= cur + t);
    }
}

proof fn lemma_split_sep(s: Seq<char>, cur: Seq<char>)
    ensures
        split_components_from(seq!['/'] + s, cur) == emit(cur) + split_components_from(
            s,
            Seq::empty(),
        ),
{
    assert((seq!['/'] + s)[0] == '/');
    assert((seq!['/'] + s).drop_first() =~= s);
}

/// The formatted text of a well-formed segment is non-empty and holds no
/// separator.
proof fn lemma_seg_text_wf(s: SegView)
    requires
        wf_seg(s),
    ensures
        seg_text(s).len() > 0,
        !seg_text(s).contains('/'),
{
    match s {
        SegView::Literal(t) => {
        },
        SegView::Dynamic(n) => {
            let t = seg_text(s);
            if t.contains('/') {
                let i = choose|i: int| 0 <= i < t.len() && t[i] == '/';
                if 1 <= i < t.len() - 1 {
                    assert(n[i - 1] == '/');
                    assert(n.contains('/'));
                }
            }
        },
    }
}

proof fn lemma_split_join(segs: Seq<SegView>, cur: Seq<char>)
    requires
        forall|i: int| 0 <= i < segs.len() ==> wf_seg(#[trigger] segs[i]),
    ensures
        split_components_from(join_slash(segs), cur) == emit(cur) + segs.map_values(
            |s: SegView| seg_text(s),
        ),
    decreases segs.len(),
{
    let texts = segs.map_values(|s: SegView| seg_text(s));
    if segs.len() == 0 {
        assert(emit(cur) + texts =~= emit(cur));
    } else {
        let t0 = seg_text(segs[0]);
        let tail = join_slash(segs.drop_first());
        assert(join_slash(segs) =~= seq!['/'] + (t0 + tail));
        lemma_split_sep(t0 + tail, cur);
        lemma_seg_text_wf(segs[0]);
        lemma_split_no_sep(t0, tail, Seq::empty());
        assert(Seq::<char>::empty() + t0 =~= t0);
        lemma_split_join(segs.drop_first(), t0);
        assert(emit(t0) =~= seq![t0]);
        assert(texts =~= seq![t0] + segs.drop_first().map_values(|s: SegView| seg_text(s)));
        assert(split_components_from(join_slash(segs), cur) =~= emit(cur) + texts);
    }
}

/// Formatting then re-parsing a path of well-formed segments yields a
/// key-equal path: each literal is recovered verbatim, and each dynamic
/// segment is recovered as a dynamic segment (its name may be truncated,
/// which key equality ignores).
pub proof fn lemma_format_parse_roundtrip(segs: Seq<SegView>)
    requires
        forall|i: int| 0 <= i < segs.len() ==> wf_seg(#[trigger] segs[i]),
    ensures
        paths_equiv(parse_spec(format_spec(segs)), segs),
{
    if segs.len() == 0 {
        lemma_split_sep(Seq::empty(), Seq::empty());
        assert(seq!['/'] + Seq::<char>::empty() =~= seq!['/']);
        assert(split_components(seq!['/']) =~= Seq::<Seq<char>>::empty());
        assert(keys_of(parse_spec(format_spec(segs))) =~= keys_of(segs));
    } else {
        lemma_split_join(segs, Seq::empty());
        let texts = segs.map_values(|s: SegView| seg_text(s));
        assert(split_components(format_spec(segs)) =~= texts);
        let parsed = parse_spec(format_spec(segs));
        assert forall|i: int| 0 <= i < segs.len() implies parsed[i].key() == segs[i].key() by {
            let s = segs[i];
            let t = seg_text(s);
            assert(parsed[i] == classify_component(t));
            match s {
                SegView::Literal(x) => {
                    assert(!is_dynamic_component(t));
                },
                SegView::Dynamic(n) => {
                    assert(t[0] == '[');
                    assert(t[t.len() - 1] == ']');
                    assert(is_dynamic_component(t));
                },
            }
        }
        assert(keys_of(parsed) =~= keys_of(segs));
    }
}

/// Splits a path string into its non-empty slash-separated components.
pub(crate) fn split_path(pattern: &str) -> (comps: Vec<String>)
    ensures
    comps@.map_values(|c: String| c@) == split_components(pattern@),
{
    let n = pattern.unicode_len();
    let mut comps: Vec<String> = Vec::new();
    let mut start: usize = 0;
    let mut i: usize = 0;
    proof {
        assert(pattern@.skip(0) =~= pattern@);
        assert(pattern@.subrange(0, 0) =~= Seq::<char>::empty());
        assert(comps@.map_values(|c: String| c@) + split_components_from(
            pattern@,
            Seq::empty(),
        ) =~= split_components(pattern@));
    }
    while i < n
        invariant
            start <= i <= n == pattern@.len(),
            comps@.map_values(|c: String| c@) + split_components_from(
                pattern@.skip(i as int),
                pattern@.subrange(start as int, i as int),
            ) == split_components(pattern@),
        decreases n - i,
    {
        let ghost rest = pattern@.skip(i as int);
        let ghost cur = pattern@.subrange(start as int, i as int);
        proof {
            assert(rest[0] == pattern@[i as int]);
            assert(rest.drop_first() =~= pattern@.skip(i as int + 1));
        }
        if pattern.get_char(i) == '/' {
            if i > start {
                let comp = pattern.substring_char(start, i);
                comps.push(comp.to_owned());
                proof {
                    assert(comps@.map_values(|c: String| c@) =~= comps@.drop_last().map_values(
                        |c: String| c@,
                    ).push(cur));
                    assert(comps@.drop_last().map_values(|c: String| c@).push(cur) + emit(
                        Seq::<char>::empty(),
                    ).add(split_components_from(rest.drop_first(), Seq::empty()))
                        =~= comps@.drop_last().map_values(|c: String| c@) + (emit(cur)
                        + split_components_from(rest.drop_first(), Seq::empty())));
                }
            }
            start = i + 1;
            proof {
                assert(pattern@.subrange(start as int, i as int + 1) =~= Seq::<char>::empty());
                assert(emit(Seq::<char>::empty()) + split_components_from(
                    rest.drop_first(),
                    Seq::empty(),
                ) =~= split_components_from(rest.drop_first(), Seq::empty()));
            }
        } else {
            proof {
                assert(pattern@.subrange(start as int, i as int + 1) =~= cur.push(
                    rest[0],
                ));
            }
        }
        i += 1;
    }
    proof {
        assert(pattern@.skip(n as int) =~= Seq::<char>::empty());
    }
    if start < n {
        let comp = pattern.substring_char(start, n);
        comps.push(comp.to_owned());
        proof {
            let cur = pattern@.subrange(start as int, n as int);
            assert(comps@.map_values(|c: String| c@) =~= comps@.drop_last().map_values(
                |c: String| c@,
            ) + emit(cur));
        }
    } else {
        proof {
            assert(comps@.map_values(|c: String| c@) + emit(
                pattern@.subrange(start as int, n as int),
            ) =~= comps@.map_values(|c: String| c@));
        }
    }
    comps
}

impl Path {
    /// Parses a pattern string: the string is split on `/`, empty components
    /// are dropped, a bracket-wrapped component becomes a dynamic segment and
    /// every other component a literal. Parsing never fails.
    pub fn parse(pattern: &str) -> (p: Path)
        ensures
            p@ == parse_spec(pattern@),
    {
        let comps: Vec<String> = split_path(pattern);
        let ghost comps_spec = split_components(pattern@);
        assert(comps@.map_values(|c: String| c@) == comps_spec);
        let mut segs: Vec<Segment> = Vec::new();
        let mut j: usize = 0;
        while j < comps.len()
            invariant
                j <= comps.len(),
                comps@.map_values(|c: String| c@) == comps_spec,
                segs@.map_values(|s: Segment| s@) == comps_spec.take(j as int).map_values(
                    |c: Seq<char>| classify_component(c),
                ),
            decreases comps.len() - j,
        {
            let comp = &comps[j];
            proof {
                assert(comp@ == comps_spec[j as int]);
            }
            let m = comp.as_str().unicode_len();
            let is_dyn = m >= 1 && comp.as_str().get_char(0) == '[' && comp.as_str().get_char(
                m - 1,
            ) == ']';
            let seg = if is_dyn {
                let name = if m >= 3 {
                    comp.as_str().substring_char(1, m - 2)
                } else {
                    ""
                };
                proof {
                    reveal_strlit("");
                    assert(name@ =~= dynamic_name(comp@));
                }
                Segment::dynamic(name)
            } else {
                Segment::literal(comp.as_str())
            };
            proof {
                assert(is_dyn == is_dynamic_component(comp@));
                assert(seg@ == classify_component(comps_spec[j as int]));
            }
            let ghost prev = segs@;
            let ghost segv = seg@;
            segs.push(seg);
            proof {
                let lhs = segs@.map_values(|s: Segment| s@);
                let rhs = comps_spec.take(j as int + 1).map_values(
                    |c: Seq<char>| classify_component(c),
                );
                let prev_lhs = prev.map_values(|s: Segment| s@);
                let prev_rhs = comps_spec.take(j as int).map_values(
                    |c: Seq<char>| classify_component(c),
                );
                assert(prev_lhs.len() == prev.len());
                assert(prev_rhs.len() == j as int);
                assert(segs@ == prev.push(seg));
                assert forall|k: int| 0 <= k < lhs.len() implies lhs[k] == rhs[k] by {
                    assert(lhs[k] == segs@[k]@);
                    if k < j {
                        assert(segs@[k] == prev[k]);
                        assert(prev_lhs[k] == prev_rhs[k]);
                        assert(prev_lhs[k] == prev[k]@);
                        assert(rhs[k] == classify_component(comps_spec[k]));
                        assert(prev_rhs[k] == classify_component(comps_spec[k]));
                    } else {
                        assert(segs@[k] == seg);
                        assert(rhs[k] == classify_component(comps_spec[k]));
                    }
                }
                assert(lhs =~= rhs);
            }
            j += 1;
        }
        proof {
            assert(comps_spec.take(comps_spec.len() as int) =~= comps_spec);
        }
        Path(segs)
    }

    /// Formats the path: `/` followed by the segments joined by `/`, a
    /// dynamic segment rendered as its name in brackets.
    pub fn format(&self) -> (r: String)
        ensures
            r@ == format_spec(self@),
    {
        proof {
            reveal_strlit("/");
            reveal_strlit("[");
            reveal_strlit("]");
        }
        let mut out = String::new();
        if self.0.len() == 0 {
            out.append("/");
            return out;
        }
        let mut i: usize = 0;
        while i < self.0.len()
            invariant
                i <= self.0@.len(),
                self@.len() == self.0@.len(),
                out@ == join_slash(self@.take(i as int)),
            decreases self.0@.len() - i,
        {
            proof {
                reveal_strlit("/");
                reveal_strlit("[");
                reveal_strlit("]");
            }
            out.append("/");
            match &self.0[i] {
                Segment::Literal(t) => {
                    out.append(t.as_str());
                },
                Segment::Dynamic(n) => {
                    out.append("[");
                    out.append(n.as_str());
                    out.append("]");
                },
            }
            proof {
                lemma_join_snoc(self@.take(i as int), self@[i as int]);
                assert(self@.take(i as int).push(self@[i as int]) =~= self@.take(i as int + 1));
                assert(out@ =~= join_slash(self@.take(i as int + 1)));
            }
            i += 1;
        }
        proof {
            assert(self@.take(self@.len() as int) =~= self@);
        }
        out
    }
}

proof fn lemma_join_snoc(segs: Seq<SegView>, s: SegView)
    ensures
        join_slash(segs.push(s)) == join_slash(segs) + seq!['/'] + seg_text(s),
    decreases segs.len(),
{
    if segs.len() == 0 {
        assert(segs.push(s)[0] == s);
        assert(segs.push(s).drop_first() =~= Seq::<SegView>::empty());
        assert(join_slash(segs.push(s)) == seq!['/'] + seg_text(s) + join_slash(
            segs.push(s).drop_first(),
        ));
        assert(join_slash(segs.push(s)) =~= join_slash(segs) + seq!['/'] + seg_text(s));
    } else {
        assert(segs.push(s)[0] == segs[0]);
        assert(segs.push(s).drop_first() =~= segs.drop_first().push(s));
        lemma_join_snoc(segs.drop_first(), s);
        assert(join_slash(segs.push(s)) == seq!['/'] + seg_text(segs[0]) + join_slash(
            segs.drop_first().push(s),
        ));
        assert(join_slash(segs.drop_first().push(s)) == join_slash(segs.drop_first()) + seq!['/']
            + seg_text(s));
        assert(join_slash(segs.push(s)) == seq!['/'] + seg_text(segs[0]) + (join_slash(
            segs.drop_first(),
        ) + seq!['/'] + seg_text(s)));
        assert(seq!['/'] + seg_text(segs[0]) + (join_slash(segs.drop_first()) + seq!['/']
            + seg_text(s)) =~= join_slash(segs) + seq!['/'] + seg_text(s));
        assert(join_slash(segs.push(s)) == join_slash(segs) + seq!['/'] + seg_text(s));
    }
}

impl PartialEq for Path {
    /// Two paths are equal when they have the same length and key-equal
    /// segments: dynamic-segment names are ignored.
    fn eq(&self, other: &Self) -> (r: bool) {
        if self.0.len() != other.0.len() {
            proof {
                assert(keys_of(self@).len() != keys_of(other@).len());
            }
            return false;
        }
        let mut i: usize = 0;
        while i < self.0.len()
            invariant
                i <= self.0@.len(),
                self.0@.len() == other.0@.len(),
                forall|k: int| 0 <= k < i ==> #[trigger] self@[k].key() == other@[k].key(),
            decreases self.0@.len() - i,
        {
            if !(self.0[i] == other.0[i]) {
                proof {
                    assert(self@[i as int].key() != other@[i as int].key());
                    assert(keys_of(self@)[i as int] != keys_of(other@)[i as int]);
                }
                return false;
            }
            i += 1;
        }
        proof {
            assert(keys_of(self@) =~= keys_of(other@));
        }
        true
    }
}

impl vstd::std_specs::cmp::PartialEqSpecImpl for Path {
    open spec fn obeys_eq_spec() -> bool {
        true
    }

    open spec fn eq_spec(&self, other: &Path) -> bool {
        paths_equiv(self@, other@)
    }
}

impl Eq for Path {}

} // verus!
