use vstd::prelude::*;

use std::sync::Arc;

use crate::context::Context;
use crate::method::Method;
use crate::node::Node;
use crate::path::keys_of;
use crate::path::split_components;
use crate::path::split_path;
use crate::route::Route;
use crate::segment::SegKey;
use crate::segment::Segment;

verus! {

/// What the router decides for one request: no route, a route without a
/// handler for the method, or a handler to run.
pub enum Dispatch<Extra, H> {
    /// No registered route matched the request path.
    NotFound,
    /// A route matched but has no handler for the request's method; carries
    /// the route's registered methods for an `Allow` header, and the request
    /// context.
    MethodNotAllowed { allowed: Vec<Method>, context: Context<Extra> },
    /// A route matched and has a handler for the request's method.
    Handle { handler: H, context: Context<Extra> },
}

/// The children that one candidate expand_nodeutes for a path component: its
/// literal child keyed by the component's text, then its dynamic child,
/// each where present.
pub open spec fn expand_node<H>(n: Node<H>, comp: Seq<char>) -> Seq<Node<H>> {
    (match n.child_spec(SegKey::Literal(comp)) {
        Some(c) => seq![c],
        None => Seq::empty(),
    }) + (match n.child_spec(SegKey::Dynamic) {
        Some(c) => seq![c],
        None => Seq::empty(),
    })
}

/// One matching level: every candidate's expand_nodeutions for the component,
/// in candidate order.
pub open spec fn step_candidates<H>(cands: Seq<Node<H>>, comp: Seq<char>) -> Seq<Node<H>>
    decreases cands.len(),
{
    if cands.len() == 0 {
        Seq::empty()
    } else {
        expand_node(cands[0], comp) + step_candidates(cands.drop_first(), comp)
    }
}

/// The candidate set after consuming all of `comps`, starting from the
/// root alone.
pub open spec fn candidates_after<H>(root: Node<H>, comps: Seq<Seq<char>>) -> Seq<Node<H>>
    decreases comps.len(),
{
    if comps.len() == 0 {
        seq![root]
    } else {
        step_candidates(candidates_after(root, comps.drop_last()), comps.last())
    }
}

/// A pattern (as keys) matches raw components when the lengths agree and
/// every literal key equals its component; dynamic keys match anything.
pub open spec fn keys_match(ks: Seq<SegKey>, comps: Seq<Seq<char>>) -> bool {
    &&& ks.len() == comps.len()
    &&& forall|i: int|
        0 <= i < ks.len() ==> ((#[trigger] ks[i]) is Literal ==> ks[i]->Literal_0 == comps[i])
}

/// The values bound to a matched pattern's dynamic segments: the raw
/// component at each dynamic position, in pattern order.
pub open spec fn params_of(segs: Seq<crate::segment::SegView>, comps: Seq<Seq<char>>) -> Seq<
    Seq<char>,
>
    decreases segs.len(),
{
    if segs.len() == 0 {
        Seq::empty()
    } else {
        params_of(segs.drop_last(), comps.drop_last()) + (if segs.last().is_dynamic() {
            seq![comps.last()]
        } else {
            Seq::empty()
        })
    }
}

/// The router: the routing trie, plus a shared read-only application
/// context handed to every request. Routes are registered while the router
/// is being built; once serving begins the router is shared immutably and
/// only matching is performed.
#[derive(Debug)]
pub struct Router<Extra, H> {
    /// The shared application context.
    pub ex: Arc<Extra>,
    /// The root of the routing trie; it exists even with no registrations.
    pub root: Node<H>,
}

impl<Extra, H> Router<Extra, H> {
    /// Every route in the trie hangs at exactly the key path of its own
    /// pattern. Registration preserves this, and matching relies on it to
    /// read parameter values off the raw components.
    pub open spec fn inv(self) -> bool {
        forall|ks: Seq<SegKey>|
            (#[trigger] self.root.lookup(ks)) matches Some(r) ==> keys_of(r.path@) == ks
    }

    /// Constructs a router with no registered routes.
    pub fn new(ex: Arc<Extra>) -> (r: Self)
        ensures
            r.ex == ex,
            r.root.is_empty(),
            forall|ks: Seq<SegKey>| #[trigger] r.root.lookup(ks) == None::<Route<H>>,
            r.inv(),
    {
        let r = Router { ex, root: Node::new() };
        proof {
            crate::node::lemma_empty_node(r.root);
        }
        r
    }

    /// Registers a route, replacing an existing route with a key-equal
    /// pattern.
    pub fn register(self, route: Route<H>) -> (r: Self)
        ensures
            r.ex == self.ex,
            forall|ks: Seq<SegKey>|
                #[trigger] r.root.lookup(ks) == (if ks == keys_of(route.path@) {
                    Some(route)
                } else {
                    self.root.lookup(ks)
                }),
            forall|ks: Seq<SegKey>|
                (#[trigger] r.root.node_at(ks) is Some <==> (self.root.node_at(ks) is Some
                    || ks.is_prefix_of(keys_of(route.path@)))),
            self.inv() ==> r.inv(),
    {
        let Router { ex, mut root } = self;
        root.append(route);
        let r = Router { ex, root };
        proof {
            assert(r.root.lookup(keys_of(route.path@)) == Some(route));
            if self.inv() {
                assert forall|ks: Seq<SegKey>|
                    ((#[trigger] r.root.lookup(ks)) matches Some(rt) ==> keys_of(rt.path@)
                        == ks) by {
                    if ks != keys_of(route.path@) {
                        assert(r.root.lookup(ks) == self.root.lookup(ks));
                    }
                }
            }
        }
        r
    }

    /// Registers each route in order; a later route with a key-equal
    /// pattern replaces an earlier one.
    pub fn register_many(&mut self, routes: Vec<Route<H>>)
        ensures
            final(self).ex == old(self).ex,
            forall|ks: Seq<SegKey>|
                #[trigger] final(self).root.lookup(ks) == (match multi_lookup(routes@, ks) {
                    Some(r) => Some(r),
                    None => old(self).root.lookup(ks),
                }),
            old(self).inv() ==> final(self).inv(),
    {
        let ghost all = routes@;
        let mut routes = routes;
        let ghost mut i: int = 0;
        while routes.len() > 0
            invariant
                0 <= i,
                i + routes@.len() == all.len(),
                routes@ =~= all.skip(i),
                self.ex == old(self).ex,
                forall|ks: Seq<SegKey>|
                    #[trigger] self.root.lookup(ks) == (match multi_lookup(all.take(i), ks) {
                        Some(r) => Some(r),
                        None => old(self).root.lookup(ks),
                    }),
            decreases routes@.len(),
        {
            let route = routes.remove(0);
            proof {
                assert(route == all[i]);
            }
            self.root.append(route);
            proof {
                assert(all.take(i + 1).drop_last() =~= all.take(i));
                assert(all.take(i + 1).last() == all[i]);
                assert(routes@ =~= all.skip(i + 1));
                i = i + 1;
            }
        }
        proof {
            assert(all.take(all.len() as int) =~= all);
            if old(self).inv() {
                assert forall|ks: Seq<SegKey>|
                    ((#[trigger] final(self).root.lookup(ks)) matches Some(rt) ==> keys_of(
                        rt.path@,
                    ) == ks) by {
                    lemma_multi_lookup_keys(all, ks);
                }
            }
        }
    }

    /// Resolves a raw request path to a registered route and the values of
    /// its dynamic segments.
    ///
    /// The path's non-empty components are matched level by level: each
    /// candidate node is expanded through its literal child for the exact
    /// component and through its dynamic child, literal first, in candidate
    /// order. If no candidate survives a level, there is no match. After the
    /// last component, the first surviving candidate is chosen — a
    /// deliberate policy when an all-literal and an all-dynamic pattern
    /// overlap — and matching succeeds exactly when that candidate holds a
    /// terminal route.
    pub fn match_route<'a>(&'a self, path: &str) -> (r: Option<(&'a Route<H>, Vec<String>)>)
        requires
            self.inv(),
        ensures
            (r is None <==> (candidates_after(self.root, split_components(path@)).len() == 0
                || candidates_after(self.root, split_components(path@))[0].route is None)),
            (match r {
                Some((route, params)) => {
                    let comps = split_components(path@);
                    &&& candidates_after(self.root, comps)[0].route == Some(*route)
                    &&& self.root.lookup(keys_of(route.path@)) == Some(*route)
                    &&& keys_match(keys_of(route.path@), comps)
                    &&& params@.map_values(|s: String| s@) == params_of(route.path@, comps)
                },
                None => true,
            }),
    {
        let comps: Vec<String> = split_path(path);
        let ghost cs = split_components(path@);
        proof {
            assert(cs.take(0) =~= Seq::<Seq<char>>::empty());
        }
        let mut cands: Vec<&Node<H>> = Vec::new();
        cands.push(&self.root);
        let ghost mut wit: Seq<Seq<SegKey>> = seq![Seq::<SegKey>::empty()];
        let mut i: usize = 0;
        proof {
            assert(cands@.map_values(|n: &Node<H>| *n) =~= candidates_after(self.root, cs.take(0)));
        }
        while i < comps.len()
            invariant
                self.inv(),
                i <= comps@.len(),
                cs == split_components(path@),
                comps@.map_values(|c: String| c@) == cs,
                cands@.len() >= 1,
                wit.len() == cands@.len(),
                cands@.map_values(|n: &Node<H>| *n) == candidates_after(
                    self.root,
                    cs.take(i as int),
                ),
                forall|j: int|
                    0 <= j < cands@.len() ==> self.root.node_at(#[trigger] wit[j]) == Some(
                        *cands@[j],
                    ) && keys_match(wit[j], cs.take(i as int)),
            decreases comps@.len() - i,
        {
            let comp = &comps[i];
            let ghost c_spec = cs[i as int];
            proof {
                assert(comp@ == c_spec);
            }
            let ghost target = cs.take(i as int + 1);
            proof {
                assert(target.drop_last() =~= cs.take(i as int));
                assert(target.last() == cs[i as int]);
            }
            let lit_probe = Segment::literal(comp.as_str());
            let dyn_probe = Segment::dynamic("");
            let mut new_cands: Vec<&Node<H>> = Vec::new();
            let ghost mut new_wit: Seq<Seq<SegKey>> = Seq::empty();
            let mut j: usize = 0;
            proof {
                assert(step_candidates(
                    cands@.map_values(|n: &Node<H>| *n).take(0),
                    c_spec,
                ) =~= Seq::<Node<H>>::empty());
                assert(new_cands@.map_values(|n: &Node<H>| *n) =~= Seq::<Node<H>>::empty());
            }
            while j < cands.len()
                invariant
                    self.inv(),
                    j <= cands@.len(),
                    wit.len() == cands@.len(),
                    new_wit.len() == new_cands@.len(),
                    lit_probe@.key() == SegKey::Literal(c_spec),
                    dyn_probe@.key() == SegKey::Dynamic,
                    target == cs.take(i as int + 1),
                    i < cs.len(),
                    c_spec == cs[i as int],
                    new_cands@.map_values(|n: &Node<H>| *n) == step_candidates(
                        cands@.map_values(|n: &Node<H>| *n).take(j as int),
                        c_spec,
                    ),
                    forall|q: int|
                        0 <= q < cands@.len() ==> self.root.node_at(#[trigger] wit[q]) == Some(
                            *cands@[q],
                        ) && keys_match(wit[q], cs.take(i as int)),
                    forall|q: int|
                        0 <= q < new_cands@.len() ==> self.root.node_at(#[trigger] new_wit[q])
                            == Some(*new_cands@[q]) && keys_match(new_wit[q], target),
                decreases cands@.len() - j,
            {
                let c = cands[j];
                let ghost w = wit[j as int];
                let ghost base_wit = new_wit;
                let ghost base_cands = new_cands@;
                let lit_child = c.child(&lit_probe);
                if let Some(n) = lit_child {
                    new_cands.push(n);
                    proof {
                        lemma_node_at_snoc(self.root, w, SegKey::Literal(c_spec));
                        lemma_keys_match_push(w, cs.take(i as int), SegKey::Literal(c_spec), c_spec);
                        new_wit = new_wit.push(w.push(SegKey::Literal(c_spec)));
                        assert(cs.take(i as int).push(c_spec) =~= target);
                        assert(self.root.node_at(new_wit.last()) == Some(*n));
                        assert(keys_match(new_wit.last(), target));
                    }
                }
                let ghost mid_wit = new_wit;
                let ghost mid_cands = new_cands@;
                let dyn_child = c.child(&dyn_probe);
                if let Some(n) = dyn_child {
                    new_cands.push(n);
                    proof {
                        lemma_node_at_snoc(self.root, w, SegKey::Dynamic);
                        lemma_keys_match_push(w, cs.take(i as int), SegKey::Dynamic, c_spec);
                        new_wit = new_wit.push(w.push(SegKey::Dynamic));
                        assert(cs.take(i as int).push(c_spec) =~= target);
                        assert(self.root.node_at(new_wit.last()) == Some(*n));
                        assert(keys_match(new_wit.last(), target));
                    }
                }
                proof {
                    let mapped = cands@.map_values(|n2: &Node<H>| *n2);
                    lemma_step_snoc(mapped.take(j as int), mapped[j as int], c_spec);
                    assert(mapped.take(j as int).push(mapped[j as int]) =~= mapped.take(
                        j as int + 1,
                    ));
                    assert(mapped[j as int] == *c);
                    assert(new_cands@.map_values(|n2: &Node<H>| *n2) =~= base_cands.map_values(
                        |n2: &Node<H>| *n2,
                    ) + expand_node(mapped[j as int], c_spec));
                    assert forall|q: int|
                        0 <= q < new_cands@.len() implies self.root.node_at(
                        #[trigger] new_wit[q],
                    ) == Some(*new_cands@[q]) && keys_match(new_wit[q], target) by {
                        if q < base_cands.len() {
                            assert(new_wit[q] == base_wit[q]);
                            assert(new_cands@[q] == base_cands[q]);
                        } else if q < mid_cands.len() {
                            assert(new_wit[q] == mid_wit.last());
                            assert(new_cands@[q] == mid_cands.last());
                        } else {
                            assert(new_wit[q] == new_wit.last());
                            assert(new_cands@[q] == new_cands@.last());
                        }
                    }
                }
                j += 1;
            }
            let ghost mapped_old = cands@.map_values(|n: &Node<H>| *n);
            let ghost new_mapped = new_cands@.map_values(|n: &Node<H>| *n);
            proof {
                assert(mapped_old.take(mapped_old.len() as int) =~= mapped_old);
                assert(new_mapped == step_candidates(mapped_old, c_spec));
                assert(candidates_after(self.root, target) == step_candidates(
                    candidates_after(self.root, cs.take(i as int)),
                    cs[i as int],
                ));
                assert(new_mapped == candidates_after(self.root, cs.take(i as int + 1)));
            }
            if new_cands.len() == 0 {
                proof {
                    assert(candidates_after(self.root, cs.take(i as int + 1)).len() == 0);
                    lemma_candidates_empty_stays(self.root, cs, i as int + 1);
                }
                return None;
            }
            cands = new_cands;
            proof {
                wit = new_wit;
            }
            i += 1;
        }
        proof {
            assert(cs.take(comps@.len() as int) =~= cs);
        }
        let first = cands[0];
        let ghost w0 = wit[0];
        match &first.route {
            None => {
                proof {
                    assert(candidates_after(self.root, cs)[0].route is None);
                }
                None
            },
            Some(route) => {
                proof {
                    assert(candidates_after(self.root, cs)[0] == *first);
                    lemma_lookup_node_at(self.root, w0);
                    assert(self.root.lookup(w0) == Some(*route));
                    assert(keys_of(route.path@) == w0);
                    assert(keys_of(route.path@).len() == route.path@.len());
                }
                let mut params: Vec<String> = Vec::new();
                let mut idx: usize = 0;
                proof {
                    assert(route.path@.take(0) =~= Seq::<crate::segment::SegView>::empty());
                    assert(cs.take(0) =~= Seq::<Seq<char>>::empty());
                    assert(params@.map_values(|s: String| s@) =~= params_of(
                        route.path@.take(0),
                        cs.take(0),
                    ));
                }
                while idx < route.path.0.len()
                    invariant
                        idx <= route.path@.len(),
                        route.path@.len() == route.path.0@.len(),
                        route.path@.len() == cs.len(),
                        comps@.map_values(|c: String| c@) == cs,
                        comps@.len() == cs.len(),
                        params@.map_values(|s: String| s@) == params_of(
                            route.path@.take(idx as int),
                            cs.take(idx as int),
                        ),
                    decreases route.path@.len() - idx,
                {
                    let ghost prev_params = params@.map_values(|s: String| s@);
                    if route.path.0[idx].is_dynamic() {
                        params.push(comps[idx].clone());
                        proof {
                            assert(comps@[idx as int]@ == cs[idx as int]);
                            assert(params@.map_values(|s: String| s@) =~= prev_params.push(
                                cs[idx as int],
                            ));
                        }
                    }
                    proof {
                        assert(route.path@.take(idx as int + 1).drop_last() =~= route.path@.take(
                            idx as int,
                        ));
                        assert(cs.take(idx as int + 1).drop_last() =~= cs.take(idx as int));
                        assert(route.path@.take(idx as int + 1).last() == route.path@[idx as int]);
                        assert(cs.take(idx as int + 1).last() == cs[idx as int]);
                        assert(params@.map_values(|s: String| s@) =~= params_of(
                            route.path@.take(idx as int + 1),
                            cs.take(idx as int + 1),
                        ));
                    }
                    idx += 1;
                }
                proof {
                    assert(route.path@.take(route.path@.len() as int) =~= route.path@);
                    assert(cs.take(cs.len() as int) =~= cs);
                }
                Some((route, params))
            },
        }
    }

    /// Decides one request: resolves the path, then picks the handler for
    /// the method, falling back to a method-not-allowed or not-found
    /// outcome. The context carries the extracted parameters and a handle to
    /// the shared application state.
    pub fn route(&self, method: Method, path: &str) -> (r: Dispatch<Extra, H>) where H: Copy
        requires
            self.inv(),
        ensures
            (r is NotFound <==> (candidates_after(self.root, split_components(path@)).len() == 0
                || candidates_after(self.root, split_components(path@))[0].route is None)),
            (match r {
                Dispatch::NotFound => true,
                Dispatch::MethodNotAllowed { allowed, context } => {
                    let comps = split_components(path@);
                    let rt = candidates_after(self.root, comps)[0].route.unwrap();
                    &&& rt.handler_for(method) is None
                    &&& allowed@ == rt.methods()
                    &&& self.root.lookup(keys_of(rt.path@)) == Some(rt)
                    &&& keys_match(keys_of(rt.path@), comps)
                    &&& context.params@.map_values(|s: String| s@) == params_of(rt.path@, comps)
                    &&& context.ex == self.ex
                },
                Dispatch::Handle { handler, context } => {
                    let comps = split_components(path@);
                    let rt = candidates_after(self.root, comps)[0].route.unwrap();
                    &&& rt.handler_for(method) == Some(handler)
                    &&& self.root.lookup(keys_of(rt.path@)) == Some(rt)
                    &&& keys_match(keys_of(rt.path@), comps)
                    &&& context.params@.map_values(|s: String| s@) == params_of(rt.path@, comps)
                    &&& context.ex == self.ex
                },
            }),
    {
        match self.match_route(path) {
            None => Dispatch::NotFound,
            Some((route, params)) => {
                let context = Context::new(params, crate::context::clone_arc(&self.ex));
                match route.handler(&method) {
                    Some(handler) => Dispatch::Handle { handler, context },
                    None => {
                        let allowed = route.allowed_methods();
                        Dispatch::MethodNotAllowed { allowed, context }
                    },
                }
            },
        }
    }
}

/// The route that the last key-equal pattern in `routes` carries, if any.
pub open spec fn multi_lookup<H>(routes: Seq<Route<H>>, ks: Seq<SegKey>) -> Option<Route<H>>
    decreases routes.len(),
{
    if routes.len() == 0 {
        None
    } else if keys_of(routes.last().path@) == ks {
        Some(routes.last())
    } else {
        multi_lookup(routes.drop_last(), ks)
    }
}

/// Whatever `multi_lookup` returns was registered under its own pattern's
/// keys.
proof fn lemma_multi_lookup_keys<H>(routes: Seq<Route<H>>, ks: Seq<SegKey>)
    ensures
        multi_lookup(routes, ks) matches Some(r) ==> keys_of(r.path@) == ks,
    decreases routes.len(),
{
    if routes.len() > 0 {
        lemma_multi_lookup_keys(routes.drop_last(), ks);
    }
}

/// Extending a matching key path by one key that matches the new
/// component keeps it matching.
proof fn lemma_keys_match_push(ks: Seq<SegKey>, comps: Seq<Seq<char>>, k: SegKey, c: Seq<char>)
    requires
        keys_match(ks, comps),
        k is Literal ==> k->Literal_0 == c,
    ensures
        keys_match(ks.push(k), comps.push(c)),
{
    let ks2 = ks.push(k);
    let comps2 = comps.push(c);
    assert forall|i: int|
        0 <= i < ks2.len() implies ((#[trigger] ks2[i]) is Literal ==> ks2[i]->Literal_0
        == comps2[i]) by {
        if i < ks.len() {
            assert(ks2[i] == ks[i]);
            assert(comps2[i] == comps[i]);
        } else {
            assert(ks2[i] == k);
            assert(comps2[i] == c);
        }
    }
}

/// Appending one candidate appends its expand_nodeutions.
proof fn lemma_step_snoc<H>(cands: Seq<Node<H>>, n: Node<H>, comp: Seq<char>)
    ensures
        step_candidates(cands.push(n), comp) == step_candidates(cands, comp) + expand_node(n, comp),
    decreases cands.len(),
{
    if cands.len() == 0 {
        assert(cands.push(n)[0] == n);
        assert(cands.push(n).drop_first() =~= Seq::<Node<H>>::empty());
        assert(step_candidates(cands.push(n), comp) == expand_node(n, comp) + step_candidates(
            cands.push(n).drop_first(),
            comp,
        ));
        assert(step_candidates(cands.push(n), comp) =~= step_candidates(cands, comp) + expand_node(
            n,
            comp,
        ));
    } else {
        assert(cands.push(n)[0] == cands[0]);
        assert(cands.push(n).drop_first() =~= cands.drop_first().push(n));
        lemma_step_snoc(cands.drop_first(), n, comp);
        assert(step_candidates(cands.push(n), comp) == expand_node(cands[0], comp) + step_candidates(
            cands.drop_first().push(n),
            comp,
        ));
        assert(step_candidates(cands.push(n), comp) =~= step_candidates(cands, comp) + expand_node(
            n,
            comp,
        ));
    }
}

/// Descending one key from the node at a key path reaches the node at the
/// extended key path.
proof fn lemma_node_at_snoc<H>(root: Node<H>, w: Seq<SegKey>, k: SegKey)
    ensures
        root.node_at(w.push(k)) == (match root.node_at(w) {
            Some(m) => m.child_spec(k),
            None => None::<Node<H>>,
        }),
    decreases w.len(),
{
    if w.len() == 0 {
        assert(w.push(k)[0] == k);
        assert(w.push(k).drop_first() =~= Seq::<SegKey>::empty());
        assert(root.node_at(w.push(k)) == (match root.child_spec(k) {
            Some(c) => c.node_at(Seq::<SegKey>::empty()),
            None => None::<Node<H>>,
        }));
        match root.child_spec(k) {
            Some(c) => {
                assert(c.node_at(Seq::<SegKey>::empty()) == Some(c));
            },
            None => {},
        }
    } else {
        assert(w.push(k)[0] == w[0]);
        assert(w.push(k).drop_first() =~= w.drop_first().push(k));
        match root.child_spec(w[0]) {
            Some(c) => {
                lemma_node_at_snoc(c, w.drop_first(), k);
                assert(root.node_at(w.push(k)) == c.node_at(w.drop_first().push(k)));
                assert(root.node_at(w) == c.node_at(w.drop_first()));
            },
            None => {
                assert(root.node_at(w.push(k)) is None);
                assert(root.node_at(w) is None);
            },
        }
    }
}

/// The route at a key path is the terminal route of the node there.
proof fn lemma_lookup_node_at<H>(root: Node<H>, ks: Seq<SegKey>)
    ensures
        root.lookup(ks) == (match root.node_at(ks) {
            Some(m) => m.route,
            None => None::<Route<H>>,
        }),
    decreases ks.len(),
{
    if ks.len() > 0 {
        match root.child_spec(ks[0]) {
            Some(c) => {
                lemma_lookup_node_at(c, ks.drop_first());
            },
            None => {},
        }
    }
}

/// Once a level leaves no candidate, no later level has one.
proof fn lemma_candidates_empty_stays<H>(root: Node<H>, comps: Seq<Seq<char>>, i: int)
    requires
        0 <= i <= comps.len(),
        candidates_after(root, comps.take(i)).len() == 0,
    ensures
        candidates_after(root, comps).len() == 0,
    decreases comps.len() - i,
{
    if i == comps.len() {
        assert(comps.take(i) =~= comps);
    } else {
        assert(comps.take(i + 1).drop_last() =~= comps.take(i));
        assert(candidates_after(root, comps.take(i + 1)) == step_candidates(
            candidates_after(root, comps.take(i)),
            comps.take(i + 1).last(),
        ));
        assert(candidates_after(root, comps.take(i + 1)).len() == 0);
        lemma_candidates_empty_stays(root, comps, i + 1);
    }
}

} // verus!
