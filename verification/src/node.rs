use vstd::prelude::*;

use crate::path::keys_of;
use crate::route::Route;
use crate::segment::SegKey;
use crate::segment::Segment;

verus! {

/// One trie node: an optional terminal route plus children keyed by
/// segment. All dynamic segments are equal to each other, so a node has at
/// most one dynamic child, held apart from the literal children.
#[derive(Debug)]
pub struct Node<H> {
    /// The route registered at exactly this node's position, if any.
    pub route: Option<Route<H>>,
    /// The literal children, keyed by segment text, in creation order.
    pub literal_children: Vec<(String, Node<H>)>,
    /// The single collapsed dynamic child, if any.
    pub dynamic_child: Option<Box<Node<H>>>,
}

/// The node of the first entry keyed `t`, if any.
pub open spec fn find_lit<H>(cs: Seq<(String, Node<H>)>, t: Seq<char>) -> Option<Node<H>>
    decreases cs.len(),
{
    if cs.len() == 0 {
        None
    } else if cs[0].0@ == t {
        Some(cs[0].1)
    } else {
        find_lit(cs.drop_first(), t)
    }
}

impl<H> Node<H> {
    /// The child of this node under segment key `k`.
    pub open spec fn child_spec(self, k: SegKey) -> Option<Node<H>> {
        match k {
            SegKey::Literal(t) => find_lit(self.literal_children@, t),
            SegKey::Dynamic => match self.dynamic_child {
                Some(b) => Some(*b),
                None => None,
            },
        }
    }

    /// The route registered at the end of the key path `ks` below this node.
    pub open spec fn lookup(self, ks: Seq<SegKey>) -> Option<Route<H>>
        decreases ks.len(),
    {
        if ks.len() == 0 {
            self.route
        } else {
            match self.child_spec(ks[0]) {
                Some(c) => c.lookup(ks.drop_first()),
                None => None,
            }
        }
    }

    /// The node at the end of the key path `ks` below this node, if the trie
    /// holds one.
    pub open spec fn node_at(self, ks: Seq<SegKey>) -> Option<Node<H>>
        decreases ks.len(),
    {
        if ks.len() == 0 {
            Some(self)
        } else {
            match self.child_spec(ks[0]) {
                Some(c) => c.node_at(ks.drop_first()),
                None => None,
            }
        }
    }

    /// A node with no route and no children.
    pub open spec fn is_empty(self) -> bool {
        &&& self.route is None
        &&& self.literal_children@.len() == 0
        &&& self.dynamic_child is None
    }

    /// The number of children: the literal children plus the dynamic child.
    pub open spec fn num_children(self) -> nat {
        self.literal_children@.len() + (if self.dynamic_child is Some {
            1nat
        } else {
            0nat
        })
    }

    /// Constructs an empty node.
    pub fn new() -> (r: Self)
        ensures
            r.is_empty(),
    {
        Node { route: None, literal_children: Vec::new(), dynamic_child: None }
    }

    /// The child under `segment`, by segment equality: a literal segment
    /// selects the literal child with the same text, and any dynamic segment
    /// selects the single dynamic child.
    pub fn child(&self, segment: &Segment) -> (r: Option<&Node<H>>)
        ensures
            (match r {
                Some(n) => self.child_spec(segment@.key()) == Some(*n),
                None => self.child_spec(segment@.key()) is None,
            }),
    {
        match segment {
            Segment::Dynamic(_) => match &self.dynamic_child {
                Some(b) => Some(&**b),
                None => None,
            },
            Segment::Literal(t) => {
                let mut j: usize = 0;
                while j < self.literal_children.len()
                    invariant
                        j <= self.literal_children@.len(),
                        segment@.key() == SegKey::Literal(t@),
                        forall|k: int|
                            0 <= k < j ==> #[trigger] self.literal_children@[k].0@ != t@,
                    decreases self.literal_children@.len() - j,
                {
                    if self.literal_children[j].0 == *t {
                        proof {
                            lemma_find_lit_first(self.literal_children@, t@, j as int);
                        }
                        return Some(&self.literal_children[j].1);
                    }
                    j += 1;
                }
                proof {
                    lemma_find_lit_none(self.literal_children@, t@);
                }
                None
            },
        }
    }

    /// The number of children of this node.
    pub fn children_count(&self) -> (r: usize)
        requires
            self.num_children() <= usize::MAX,
        ensures
            r == self.num_children(),
    {
        let base = self.literal_children.len();
        if self.dynamic_child.is_some() {
            base + 1
        } else {
            base
        }
    }

    /// Inserts `route` at the end of its own path below this node: the walk
    /// descends an existing child where one matches the path segment's key
    /// and creates an empty child where none does, and the terminal node's
    /// route is overwritten. Every other registered route, and every node
    /// not on the walked path, is untouched.
    pub fn append(&mut self, route: Route<H>)
        ensures
            forall|ks: Seq<SegKey>|
                #[trigger] final(self).lookup(ks) == (if ks == keys_of(route.path@) {
                    Some(route)
                } else {
                    old(self).lookup(ks)
                }),
            forall|ks: Seq<SegKey>|
                (#[trigger] final(self).node_at(ks) is Some <==> (old(self).node_at(ks) is Some
                    || ks.is_prefix_of(keys_of(route.path@)))),
    {
        proof {
            assert(keys_of(route.path@).skip(0) =~= keys_of(route.path@));
        }
        self.insert_at(route, 0);
    }

    /// Inserts `route` below this node, which stands at `depth` segments
    /// into the route's path.
    fn insert_at(&mut self, route: Route<H>, depth: usize)
        requires
            depth <= route.path@.len(),
        ensures
            forall|ks: Seq<SegKey>|
                #[trigger] final(self).lookup(ks) == (if ks == keys_of(route.path@).skip(
                    depth as int,
                ) {
                    Some(route)
                } else {
                    old(self).lookup(ks)
                }),
            forall|ks: Seq<SegKey>|
                (#[trigger] final(self).node_at(ks) is Some <==> (old(self).node_at(ks) is Some
                    || ks.is_prefix_of(keys_of(route.path@).skip(depth as int)))),
        decreases route.path@.len() - depth,
    {
        let ghost suffix = keys_of(route.path@).skip(depth as int);
        let ghost n_old = *self;
        if depth == route.path.0.len() {
            proof {
                assert(route.path@.len() == route.path.0@.len());
                assert(suffix =~= Seq::<SegKey>::empty());
            }
            self.route = Some(route);
            proof {
                assert forall|ks: Seq<SegKey>|
                    #[trigger] final(self).lookup(ks) == (if ks == suffix {
                        Some(route)
                    } else {
                        n_old.lookup(ks)
                    }) by {
                    if ks.len() == 0 {
                        assert(ks =~= suffix);
                        assert(final(self).lookup(ks) == Some(route));
                    } else {
                        assert(ks != suffix);
                        assert(final(self).child_spec(ks[0]) == n_old.child_spec(ks[0]));
                        assert(final(self).lookup(ks) == n_old.lookup(ks));
                    }
                }
                assert forall|ks: Seq<SegKey>|
                    (#[trigger] final(self).node_at(ks) is Some <==> (n_old.node_at(ks) is Some
                        || ks.is_prefix_of(suffix))) by {
                    if ks.len() == 0 {
                    } else {
                        assert(!ks.is_prefix_of(suffix));
                        assert(final(self).child_spec(ks[0]) == n_old.child_spec(ks[0]));
                        assert(final(self).node_at(ks) == n_old.node_at(ks));
                    }
                }
            }
        } else {
            let ghost k0 = suffix[0];
            proof {
                assert(suffix.len() >= 1);
                assert(keys_of(route.path@)[depth as int] == route.path@[depth as int].key());
                assert(k0 == route.path@[depth as int].key());
                assert(route.path@[depth as int] == route.path.0@[depth as int]@);
                assert(suffix.drop_first() =~= keys_of(route.path@).skip(depth as int + 1));
            }
            let is_dyn = route.path.0[depth].is_dynamic();
            if is_dyn {
                proof {
                    assert(k0 == SegKey::Dynamic);
                }
                match self.dynamic_child.take() {
                    Some(mut b) => {
                        let ghost c_old = *b;
                        (&mut *b).insert_at(route, depth + 1);
                        let ghost c_new = *b;
                        self.dynamic_child = Some(b);
                        proof {
                            assert(final(self).child_spec(k0) == Some(c_new));
                            assert(n_old.child_spec(k0) == Some(c_old));
                            assert forall|k: SegKey|
                                k != k0 implies #[trigger] final(self).child_spec(k)
                                == n_old.child_spec(k) by {}
                            lemma_insert_step(n_old, *final(self), k0, c_old, c_new, true, route, suffix);
                        }
                    },
                    None => {
                        let mut c = Node::new();
                        let ghost c_fresh = c;
                        c.insert_at(route, depth + 1);
                        self.dynamic_child = Some(Box::new(c));
                        proof {
                            lemma_empty_node(c_fresh);
                            let c_new = final(self).dynamic_child.unwrap();
                            assert(final(self).child_spec(k0) == Some(*c_new));
                            assert(n_old.child_spec(k0) is None);
                            assert forall|k: SegKey|
                                k != k0 implies #[trigger] final(self).child_spec(k)
                                == n_old.child_spec(k) by {}
                            lemma_insert_step(n_old, *final(self), k0, c_fresh, *c_new, false, route, suffix);
                        }
                    },
                }
            } else {
                let key = route.path.0[depth].text_owned();
                proof {
                    assert(k0 == SegKey::Literal(key@));
                }
                match find_literal_index(&self.literal_children, &key) {
                    Some(j) => {
                        let ghost orig = self.literal_children@;
                        let mut entry = self.literal_children.remove(j);
                        let ghost c_old = entry.1;
                        entry.1.insert_at(route, depth + 1);
                        let ghost c_new = entry.1;
                        self.literal_children.insert(j, entry);
                        proof {
                            assert(final(self).literal_children@ =~= orig.update(
                                j as int,
                                (orig[j as int].0, c_new),
                            ));
                            lemma_find_lit_first(orig, key@, j as int);
                            lemma_find_lit_update(orig, j as int, c_new, key@);
                            assert(final(self).child_spec(k0) == Some(c_new));
                            assert(n_old.child_spec(k0) == Some(c_old));
                            assert forall|k: SegKey|
                                k != k0 implies #[trigger] final(self).child_spec(k)
                                == n_old.child_spec(k) by {
                                if k is Literal {
                                    let t2 = k->Literal_0;
                                    assert(find_lit(orig.update(j as int, (orig[j as int].0, c_new)), t2)
                                        == find_lit(orig, t2));
                                }
                            }
                            lemma_insert_step(n_old, *final(self), k0, c_old, c_new, true, route, suffix);
                        }
                    },
                    None => {
                        let ghost orig = self.literal_children@;
                        let mut c = Node::new();
                        let ghost c_fresh = c;
                        c.insert_at(route, depth + 1);
                        let ghost c_new = c;
                        self.literal_children.push((key, c));
                        proof {
                            lemma_empty_node(c_fresh);
                            lemma_find_lit_push(orig, key@, c_new);
                            assert(final(self).literal_children@ == orig.push((key, c_new)));
                            assert(final(self).child_spec(k0) == Some(c_new));
                            lemma_find_lit_none(orig, key@);
                            assert(n_old.child_spec(k0) is None);
                            assert forall|k: SegKey|
                                k != k0 implies #[trigger] final(self).child_spec(k)
                                == n_old.child_spec(k) by {
                                if k is Literal {
                                    let t2 = k->Literal_0;
                                    assert(find_lit(orig.push((key, c_new)), t2) == find_lit(
                                        orig,
                                        t2,
                                    ));
                                }
                            }
                            lemma_insert_step(n_old, *final(self), k0, c_fresh, c_new, false, route, suffix);
                        }
                    },
                }
            }
        }
    }
}

/// Finds the index of the first literal child keyed `key`.
fn find_literal_index<H>(cs: &Vec<(String, Node<H>)>, key: &String) -> (r: Option<usize>)
    ensures
        (match r {
            Some(j) => j < cs@.len() && cs@[j as int].0@ == key@ && (forall|k: int|
                0 <= k < j ==> #[trigger] cs@[k].0@ != key@),
            None => forall|k: int| 0 <= k < cs@.len() ==> #[trigger] cs@[k].0@ != key@,
        }),
{
    let mut j: usize = 0;
    while j < cs.len()
        invariant
            j <= cs@.len(),
            forall|k: int| 0 <= k < j ==> #[trigger] cs@[k].0@ != key@,
        decreases cs@.len() - j,
    {
        if cs[j].0 == *key {
            return Some(j);
        }
        j += 1;
    }
    None
}

/// An empty node resolves no lookup and holds no node but itself.
pub(crate) proof fn lemma_empty_node<H>(n: Node<H>)
    requires
        n.is_empty(),
    ensures
        forall|ks: Seq<SegKey>| #[trigger] n.lookup(ks) == None::<Route<H>>,
        forall|ks: Seq<SegKey>| (#[trigger] n.node_at(ks) is Some <==> ks.len() == 0),
{
    assert forall|ks: Seq<SegKey>| #[trigger] n.lookup(ks) == None::<Route<H>> by {
        if ks.len() > 0 {
            assert(n.child_spec(ks[0]) is None) by {
                if ks[0] is Literal {
                    assert(find_lit(n.literal_children@, ks[0]->Literal_0) is None);
                }
            }
        }
    }
    assert forall|ks: Seq<SegKey>| (#[trigger] n.node_at(ks) is Some <==> ks.len() == 0) by {
        if ks.len() > 0 {
            assert(n.child_spec(ks[0]) is None) by {
                if ks[0] is Literal {
                    assert(find_lit(n.literal_children@, ks[0]->Literal_0) is None);
                }
            }
        }
    }
}

/// When the first entry keyed `t` stands at `j`, the lookup returns its
/// node.
proof fn lemma_find_lit_first<H>(cs: Seq<(String, Node<H>)>, t: Seq<char>, j: int)
    requires
        0 <= j < cs.len(),
        cs[j].0@ == t,
        forall|k: int| 0 <= k < j ==> #[trigger] cs[k].0@ != t,
    ensures
        find_lit(cs, t) == Some(cs[j].1),
    decreases j,
{
    if j == 0 {
    } else {
        assert(cs.drop_first() =~= cs.skip(1));
        assert(forall|k: int|
            0 <= k < j - 1 ==> #[trigger] cs.drop_first()[k].0@ != t);
        lemma_find_lit_first(cs.drop_first(), t, j - 1);
        assert(cs.drop_first()[j - 1] == cs[j]);
    }
}

/// When no entry is keyed `t`, the lookup fails.
proof fn lemma_find_lit_none<H>(cs: Seq<(String, Node<H>)>, t: Seq<char>)
    requires
        forall|k: int| 0 <= k < cs.len() ==> #[trigger] cs[k].0@ != t,
    ensures
        find_lit(cs, t) is None,
    decreases cs.len(),
{
    if cs.len() > 0 {
        assert(forall|k: int|
            0 <= k < cs.drop_first().len() ==> #[trigger] cs.drop_first()[k].0@ != t);
        lemma_find_lit_none(cs.drop_first(), t);
    }
}

/// Replacing the node of the first entry keyed `t` changes the lookup for
/// `t` and for no other key.
proof fn lemma_find_lit_update<H>(cs: Seq<(String, Node<H>)>, j: int, n: Node<H>, t: Seq<char>)
    requires
        0 <= j < cs.len(),
        cs[j].0@ == t,
        forall|k: int| 0 <= k < j ==> #[trigger] cs[k].0@ != t,
    ensures
        find_lit(cs.update(j, (cs[j].0, n)), t) == Some(n),
        forall|t2: Seq<char>|
            t2 != t ==> #[trigger] find_lit(cs.update(j, (cs[j].0, n)), t2) == find_lit(cs, t2),
    decreases j,
{
    let cs2 = cs.update(j, (cs[j].0, n));
    if j == 0 {
        assert(cs2[0] == (cs[0].0, n));
        assert(find_lit(cs2, t) == Some(n));
        assert forall|t2: Seq<char>|
            t2 != t implies #[trigger] find_lit(cs2, t2) == find_lit(cs, t2) by {
            assert(cs2.drop_first() =~= cs.drop_first());
            assert(find_lit(cs2, t2) == find_lit(cs2.drop_first(), t2));
            assert(find_lit(cs, t2) == find_lit(cs.drop_first(), t2));
        }
    } else {
        assert(cs2[0] == cs[0]);
        assert(cs2.drop_first() =~= cs.drop_first().update(j - 1, (cs.drop_first()[j - 1].0, n)));
        assert(forall|k: int|
            0 <= k < j - 1 ==> #[trigger] cs.drop_first()[k].0@ != t);
        lemma_find_lit_update(cs.drop_first(), j - 1, n, t);
        assert(cs[0].0@ != t);
        assert(find_lit(cs2, t) == find_lit(cs2.drop_first(), t));
        assert(find_lit(cs2, t) == Some(n));
        assert forall|t2: Seq<char>|
            t2 != t implies #[trigger] find_lit(cs2, t2) == find_lit(cs, t2) by {
            if cs[0].0@ == t2 {
                assert(find_lit(cs2, t2) == Some(cs2[0].1));
                assert(find_lit(cs, t2) == Some(cs[0].1));
            } else {
                assert(find_lit(cs2, t2) == find_lit(cs2.drop_first(), t2));
                assert(find_lit(cs, t2) == find_lit(cs.drop_first(), t2));
            }
        }
    }
}

/// Appending an entry for a fresh key gives that key the new node and
/// leaves every other key's lookup unchanged.
proof fn lemma_find_lit_push<H>(cs: Seq<(String, Node<H>)>, t: Seq<char>, n: Node<H>)
    requires
        forall|k: int| 0 <= k < cs.len() ==> #[trigger] cs[k].0@ != t,
    ensures
        forall|entry: (String, Node<H>)|
            entry.0@ == t && entry.1 == n ==> #[trigger] find_lit(cs.push(entry), t) == Some(n)
                && (forall|t2: Seq<char>|
                t2 != t ==> #[trigger] find_lit(cs.push(entry), t2) == find_lit(cs, t2)),
    decreases cs.len(),
{
    assert forall|entry: (String, Node<H>)|
        entry.0@ == t && entry.1 == n implies #[trigger] find_lit(cs.push(entry), t) == Some(n)
            && (forall|t2: Seq<char>|
            t2 != t ==> #[trigger] find_lit(cs.push(entry), t2) == find_lit(cs, t2)) by {
        let cs2 = cs.push(entry);
        if cs.len() == 0 {
            assert(cs2[0] == entry);
            assert(find_lit(cs2, t) == Some(n));
            assert forall|t2: Seq<char>|
                t2 != t implies #[trigger] find_lit(cs2, t2) == find_lit(cs, t2) by {
                assert(cs2.drop_first() =~= Seq::<(String, Node<H>)>::empty());
                assert(find_lit(cs2, t2) == find_lit(cs2.drop_first(), t2));
                assert(find_lit(cs2.drop_first(), t2) == None::<Node<H>>);
            }
        } else {
            assert(cs2[0] == cs[0]);
            assert(cs2.drop_first() =~= cs.drop_first().push(entry));
            assert(forall|k: int|
                0 <= k < cs.drop_first().len() ==> #[trigger] cs.drop_first()[k].0@ != t);
            lemma_find_lit_push(cs.drop_first(), t, n);
            assert(cs[0].0@ != t);
            assert(find_lit(cs2, t) == find_lit(cs2.drop_first(), t));
            assert(find_lit(cs2, t) == Some(n));
            assert forall|t2: Seq<char>|
                t2 != t implies #[trigger] find_lit(cs2, t2) == find_lit(cs, t2) by {
                if cs[0].0@ == t2 {
                    assert(find_lit(cs2, t2) == Some(cs2[0].1));
                } else {
                    assert(find_lit(cs2, t2) == find_lit(cs2.drop_first(), t2));
                    assert(find_lit(cs, t2) == find_lit(cs.drop_first(), t2));
                }
            }
        }
    }
}

/// A non-empty key path is a prefix of another exactly when their heads
/// agree and the tail is a prefix of the other's tail.
proof fn lemma_prefix_shift(a: Seq<SegKey>, b: Seq<SegKey>)
    requires
        a.len() >= 1,
        b.len() >= 1,
    ensures
        a.is_prefix_of(b) <==> (a[0] == b[0] && a.drop_first().is_prefix_of(b.drop_first())),
{
    let ad = a.drop_first();
    let bd = b.drop_first();
    if a.len() <= b.len() {
        if a.is_prefix_of(b) {
            assert(a[0] == b.subrange(0, a.len() as int)[0]);
            assert forall|i: int| 0 <= i < ad.len() implies ad[i] == bd.subrange(
                0,
                ad.len() as int,
            )[i] by {
                assert(ad[i] == a[i + 1]);
                assert(a[i + 1] == b.subrange(0, a.len() as int)[i + 1]);
                assert(b[i + 1] == bd[i]);
            }
            assert(ad =~= bd.subrange(0, ad.len() as int));
        }
        if a[0] == b[0] && ad.is_prefix_of(bd) {
            assert forall|i: int| 0 <= i < a.len() implies a[i] == b.subrange(
                0,
                a.len() as int,
            )[i] by {
                if i > 0 {
                    assert(a[i] == ad[i - 1]);
                    assert(ad[i - 1] == bd.subrange(0, ad.len() as int)[i - 1]);
                    assert(bd[i - 1] == b[i]);
                }
            }
            assert(a =~= b.subrange(0, a.len() as int));
        }
    } else {
        assert(!a.is_prefix_of(b));
        assert(!ad.is_prefix_of(bd));
    }
}

/// Lifts the effect of an insertion into one child to the parent node: the
/// parent resolves the inserted suffix to the new route, resolves every
/// other key path as before, and holds a node at a key path exactly where
/// it did before or where the path is a prefix of the inserted suffix.
proof fn lemma_insert_step<H>(
    n_old: Node<H>,
    n_new: Node<H>,
    k0: SegKey,
    c_old: Node<H>,
    c_new: Node<H>,
    had: bool,
    route: Route<H>,
    suffix: Seq<SegKey>,
)
    requires
        suffix.len() >= 1,
        suffix[0] == k0,
        n_new.route == n_old.route,
        n_old.child_spec(k0) == (if had {
            Some(c_old)
        } else {
            None::<Node<H>>
        }),
        n_new.child_spec(k0) == Some(c_new),
        forall|k: SegKey| k != k0 ==> #[trigger] n_new.child_spec(k) == n_old.child_spec(k),
        forall|ks: Seq<SegKey>|
            #[trigger] c_new.lookup(ks) == (if ks == suffix.drop_first() {
                Some(route)
            } else if had {
                c_old.lookup(ks)
            } else {
                None::<Route<H>>
            }),
        forall|ks: Seq<SegKey>|
            (#[trigger] c_new.node_at(ks) is Some <==> ((if had {
                c_old.node_at(ks) is Some
            } else {
                ks.len() == 0
            }) || ks.is_prefix_of(suffix.drop_first()))),
    ensures
        forall|ks: Seq<SegKey>|
            #[trigger] n_new.lookup(ks) == (if ks == suffix {
                Some(route)
            } else {
                n_old.lookup(ks)
            }),
        forall|ks: Seq<SegKey>|
            (#[trigger] n_new.node_at(ks) is Some <==> (n_old.node_at(ks) is Some
                || ks.is_prefix_of(suffix))),
{
    assert forall|ks: Seq<SegKey>|
        #[trigger] n_new.lookup(ks) == (if ks == suffix {
            Some(route)
        } else {
            n_old.lookup(ks)
        }) by {
        if ks.len() == 0 {
            assert(ks != suffix);
            assert(n_new.lookup(ks) == n_new.route);
            assert(n_old.lookup(ks) == n_old.route);
        } else {
            let tail = ks.drop_first();
            if ks[0] == k0 {
                assert(n_new.lookup(ks) == c_new.lookup(tail));
                if tail == suffix.drop_first() {
                    assert(c_new.lookup(tail) == Some(route));
                    assert(ks =~= suffix) by {
                        assert(ks.len() == suffix.len());
                        assert forall|i: int| 0 <= i < ks.len() implies ks[i] == suffix[i] by {
                            if i > 0 {
                                assert(ks[i] == tail[i - 1]);
                                assert(suffix[i] == suffix.drop_first()[i - 1]);
                            }
                        }
                    }
                } else {
                    assert(ks != suffix) by {
                        if ks == suffix {
                            assert(tail == suffix.drop_first());
                        }
                    }
                    if had {
                        assert(n_old.lookup(ks) == c_old.lookup(tail));
                        assert(c_new.lookup(tail) == c_old.lookup(tail));
                    } else {
                        assert(n_old.lookup(ks) == None::<Route<H>>);
                        assert(c_new.lookup(tail) == None::<Route<H>>);
                    }
                }
            } else {
                assert(ks != suffix);
                assert(n_new.child_spec(ks[0]) == n_old.child_spec(ks[0]));
                assert(n_new.lookup(ks) == n_old.lookup(ks));
            }
        }
    }
    assert forall|ks: Seq<SegKey>|
        (#[trigger] n_new.node_at(ks) is Some <==> (n_old.node_at(ks) is Some || ks.is_prefix_of(
            suffix,
        ))) by {
        if ks.len() == 0 {
            assert(n_new.node_at(ks) is Some);
            assert(n_old.node_at(ks) is Some);
        } else {
            let tail = ks.drop_first();
            lemma_prefix_shift(ks, suffix);
            if ks[0] == k0 {
                assert(n_new.node_at(ks) == c_new.node_at(tail));
                if had {
                    assert(n_old.node_at(ks) == c_old.node_at(tail));
                } else {
                    assert(n_old.node_at(ks) is None);
                    assert(c_new.node_at(tail) is Some <==> (tail.len() == 0 || tail.is_prefix_of(
                        suffix.drop_first(),
                    )));
                    if tail.len() == 0 {
                        assert(tail.is_prefix_of(suffix.drop_first()));
                    }
                }
            } else {
                assert(!ks.is_prefix_of(suffix));
                assert(n_new.child_spec(ks[0]) == n_old.child_spec(ks[0]));
                assert(n_new.node_at(ks) == n_old.node_at(ks));
            }
        }
    }
}

/// Registration builds exactly the nodes along the registered patterns'
/// key paths. Starting from an empty trie, after two registrations the trie
/// holds a node at a key path exactly where that path is a prefix of one of
/// the two patterns: patterns sharing a literal prefix share the prefix's
/// nodes, and two patterns whose keys are equal — for instance two patterns
/// differing only in the names of dynamic segments at the same positions —
/// collapse to the very same nodes, the second registration overwriting the
/// first's terminal route. The hypotheses are what `append` ensures of each
/// of the two registrations in turn.
pub proof fn lemma_two_registrations_share_nodes<H>(
    n0: Node<H>,
    n1: Node<H>,
    n2: Node<H>,
    r1: Route<H>,
    r2: Route<H>,
)
    requires
        n0.is_empty(),
        forall|ks: Seq<SegKey>|
            (#[trigger] n1.node_at(ks) is Some <==> (n0.node_at(ks) is Some || ks.is_prefix_of(
                keys_of(r1.path@),
            ))),
        forall|ks: Seq<SegKey>|
            #[trigger] n2.lookup(ks) == (if ks == keys_of(r2.path@) {
                Some(r2)
            } else {
                n1.lookup(ks)
            }),
        forall|ks: Seq<SegKey>|
            (#[trigger] n2.node_at(ks) is Some <==> (n1.node_at(ks) is Some || ks.is_prefix_of(
                keys_of(r2.path@),
            ))),
    ensures
        forall|ks: Seq<SegKey>|
            (#[trigger] n2.node_at(ks) is Some <==> (ks.is_prefix_of(keys_of(r1.path@))
                || ks.is_prefix_of(keys_of(r2.path@)))),
        keys_of(r1.path@) == keys_of(r2.path@) ==> n2.lookup(keys_of(r1.path@)) == Some(r2),
{
    lemma_empty_node(n0);
    assert forall|ks: Seq<SegKey>|
        (#[trigger] n2.node_at(ks) is Some <==> (ks.is_prefix_of(keys_of(r1.path@))
            || ks.is_prefix_of(keys_of(r2.path@)))) by {
        if ks.len() == 0 {
            assert(ks =~= keys_of(r1.path@).subrange(0, 0));
            assert(ks.is_prefix_of(keys_of(r1.path@)));
        }
    }
}

impl<H> Default for Node<H> {
    /// An empty node.
    fn default() -> (r: Self)
        ensures
            r.is_empty(),
    {
        Node::new()
    }
}

} // verus!
