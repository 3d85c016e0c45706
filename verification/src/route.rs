use vstd::prelude::*;

use crate::method::Method;
use crate::path::Path;

verus! {

/// A route: one endpoint's path pattern plus its table of per-method
/// handlers. The handler payload type `H` is opaque to the router; a server
/// typically uses a function pointer or a handler identifier.
#[derive(Debug, Clone)]
pub struct Route<H> {
    /// The path pattern this route is registered under.
    pub path: Path,
    /// The method table: at most one handler per method, in registration
    /// order.
    pub handlers: Vec<(Method, H)>,
}

/// The handler of the first entry for `m`, if any.
pub open spec fn table_lookup<H>(t: Seq<(Method, H)>, m: Method) -> Option<H>
    decreases t.len(),
{
    if t.len() == 0 {
        None
    } else if t[0].0 == m {
        Some(t[0].1)
    } else {
        table_lookup(t.drop_first(), m)
    }
}

impl<H> Route<H> {
    /// The methods of the table, in registration order.
    pub open spec fn methods(&self) -> Seq<Method> {
        self.handlers@.map_values(|p: (Method, H)| p.0)
    }

    /// The handler registered for `m`, if any.
    pub open spec fn handler_for(&self, m: Method) -> Option<H> {
        table_lookup(self.handlers@, m)
    }

    /// Each method has at most one entry in the table.
    pub open spec fn wf(&self) -> bool {
        forall|i: int, j: int|
            0 <= i < j < self.methods().len() ==> self.methods()[i] != self.methods()[j]
    }

    /// What one registration call does: the handler for `m` becomes `h`,
    /// every other method's handler is unchanged, the path is unchanged, and
    /// `m` is appended to the method list unless already present.
    pub open spec fn registered(pre: Route<H>, post: Route<H>, m: Method, h: H) -> bool {
        &&& post.path == pre.path
        &&& post.handler_for(m) == Some(h)
        &&& forall|m2: Method| m2 != m ==> post.handler_for(m2) == pre.handler_for(m2)
        &&& post.methods() == (if pre.methods().contains(m) {
            pre.methods()
        } else {
            pre.methods().push(m)
        })
        &&& (pre.wf() ==> post.wf())
    }

    /// Constructs a new route for `path` with an empty method table.
    pub fn new(path: Path) -> (r: Self)
        ensures
            r.path == path,
            r.methods() == Seq::<Method>::empty(),
            forall|m: Method| r.handler_for(m) == None::<H>,
            r.wf(),
    {
        let r = Route { path, handlers: Vec::new() };
        proof {
            assert(r.methods() =~= Seq::<Method>::empty());
        }
        r
    }

    /// Returns the methods for which this route has registered handlers, in
    /// registration order.
    pub fn allowed_methods(&self) -> (r: Vec<Method>)
        ensures
            r@ == self.methods(),
    {
        let mut r: Vec<Method> = Vec::new();
        let mut i: usize = 0;
        while i < self.handlers.len()
            invariant
                i <= self.handlers@.len(),
                r@ == self.methods().take(i as int),
            decreases self.handlers@.len() - i,
        {
            r.push(self.handlers[i].0);
            proof {
                assert(r@ =~= self.methods().take(i as int + 1));
            }
            i += 1;
        }
        proof {
            assert(self.methods().take(self.methods().len() as int) =~= self.methods());
        }
        r
    }

    /// The handler registered for `method`, if any.
    pub fn handler(&self, method: &Method) -> (r: Option<H>) where H: Copy
        ensures
            r == self.handler_for(*method),
    {
        let mut i: usize = 0;
        proof {
            assert(self.handlers@.skip(0) =~= self.handlers@);
        }
        while i < self.handlers.len()
            invariant
                i <= self.handlers@.len(),
                table_lookup(self.handlers@.skip(i as int), *method) == self.handler_for(
                    *method,
                ),
                forall|k: int| 0 <= k < i ==> #[trigger] self.handlers@[k].0 != *method,
            decreases self.handlers@.len() - i,
        {
            let ghost rest = self.handlers@.skip(i as int);
            proof {
                assert(rest[0] == self.handlers@[i as int]);
                assert(rest.drop_first() =~= self.handlers@.skip(i as int + 1));
            }
            if self.handlers[i].0 == *method {
                return Some(self.handlers[i].1);
            }
            i += 1;
        }
        proof {
            assert(self.handlers@.skip(self.handlers@.len() as int) =~= Seq::<(
                Method,
                H,
            )>::empty());
        }
        None
    }

    /// Sets the handler for `method` to `handler`: an existing entry is
    /// replaced in place, otherwise a new entry is appended.
    fn register(self, method: Method, handler: H) -> (r: Self)
        ensures
            Route::registered(self, r, method, handler),
    {
        let mut r = self;
        let ghost orig = r.handlers@;
        let mut i: usize = 0;
        while i < r.handlers.len()
            invariant
                i <= r.handlers@.len(),
                r.handlers@ == orig,
                orig == self.handlers@,
                r.path == self.path,
                forall|k: int| 0 <= k < i ==> #[trigger] orig[k].0 != method,
            decreases r.handlers@.len() - i,
        {
            if r.handlers[i].0 == method {
                r.handlers[i] = (method, handler);
                proof {
                    lemma_table_update(orig, i as int, method, handler);
                    lemma_methods_update(orig, i as int, method, handler);
                    let pre_ms = orig.map_values(|p: (Method, H)| p.0);
                    assert(pre_ms.contains(method)) by {
                        assert(pre_ms[i as int] == method);
                    }
                }
                return r;
            }
            i += 1;
        }
        proof {
            assert(forall|k: int|
                0 <= k < orig.len() ==> #[trigger] orig[k].0 != method);
            let ms = orig.map_values(|p: (Method, H)| p.0);
            if ms.contains(method) {
                let k = choose|k: int| 0 <= k < ms.len() && #[trigger] ms[k] == method;
                assert(orig[k].0 == method);
            }
            lemma_table_push(orig, method, handler);
        }
        r.handlers.push((method, handler));
        proof {
            let pre_ms = orig.map_values(|p: (Method, H)| p.0);
            let post_ms = r.handlers@.map_values(|p: (Method, H)| p.0);
            assert(post_ms =~= pre_ms.push(method));
            assert(forall|k: int| 0 <= k < pre_ms.len() ==> #[trigger] pre_ms[k] != method);
            if forall|a: int, b: int| 0 <= a < b < pre_ms.len() ==> pre_ms[a] != pre_ms[b] {
                assert forall|a: int, b: int|
                    0 <= a < b < post_ms.len() implies post_ms[a] != post_ms[b] by {
                    if b == pre_ms.len() {
                        assert(post_ms[a] == pre_ms[a]);
                        assert(post_ms[b] == method);
                    } else {
                        assert(post_ms[a] == pre_ms[a]);
                        assert(post_ms[b] == pre_ms[b]);
                    }
                }
            }
        }
        proof {
            assert(r.path == self.path);
            assert(r.handler_for(method) == Some(handler));
            assert(forall|m2: Method|
                m2 != method ==> r.handler_for(m2) == self.handler_for(m2));
            assert(r.methods() == (if self.methods().contains(method) {
                self.methods()
            } else {
                self.methods().push(method)
            }));
            assert(self.wf() ==> r.wf());
            assert(Route::registered(self, r, method, handler));
        }
        r
    }

    /// Registers a handler for GET requests.
    pub fn get(self, handler: H) -> (r: Self)
        ensures
            Route::registered(self, r, Method::Get, handler),
    {
        self.register(Method::Get, handler)
    }

    /// Registers a handler for POST requests.
    pub fn post(self, handler: H) -> (r: Self)
        ensures
            Route::registered(self, r, Method::Post, handler),
    {
        self.register(Method::Post, handler)
    }

    /// Registers a handler for PUT requests.
    pub fn put(self, handler: H) -> (r: Self)
        ensures
            Route::registered(self, r, Method::Put, handler),
    {
        self.register(Method::Put, handler)
    }

    /// Registers a handler for DELETE requests.
    pub fn delete(self, handler: H) -> (r: Self)
        ensures
            Route::registered(self, r, Method::Delete, handler),
    {
        self.register(Method::Delete, handler)
    }

    /// Registers a handler for HEAD requests.
    pub fn head(self, handler: H) -> (r: Self)
        ensures
            Route::registered(self, r, Method::Head, handler),
    {
        self.register(Method::Head, handler)
    }

    /// Registers a handler for OPTIONS requests.
    pub fn options(self, handler: H) -> (r: Self)
        ensures
            Route::registered(self, r, Method::Options, handler),
    {
        self.register(Method::Options, handler)
    }

    /// Registers a handler for CONNECT requests.
    pub fn connect(self, handler: H) -> (r: Self)
        ensures
            Route::registered(self, r, Method::Connect, handler),
    {
        self.register(Method::Connect, handler)
    }

    /// Registers a handler for PATCH requests.
    pub fn patch(self, handler: H) -> (r: Self)
        ensures
            Route::registered(self, r, Method::Patch, handler),
    {
        self.register(Method::Patch, handler)
    }

    /// Registers a handler for TRACE requests.
    pub fn trace(self, handler: H) -> (r: Self)
        ensures
            Route::registered(self, r, Method::Trace, handler),
    {
        self.register(Method::Trace, handler)
    }
}

/// Replacing the first entry for `m` in place changes `m`'s lookup to the
/// new handler and no other method's lookup.
proof fn lemma_table_update<H>(t: Seq<(Method, H)>, i: int, m: Method, h: H)
    requires
        0 <= i < t.len(),
        t[i].0 == m,
        forall|k: int| 0 <= k < i ==> #[trigger] t[k].0 != m,
    ensures
        table_lookup(t.update(i, (m, h)), m) == Some(h),
        forall|m2: Method| m2 != m ==> table_lookup(t.update(i, (m, h)), m2) == table_lookup(t, m2),
    decreases i,
{
    let t2 = t.update(i, (m, h));
    if i == 0 {
        assert(t2[0] == (m, h));
        assert(table_lookup(t2, m) == Some(h));
        assert forall|m2: Method| m2 != m implies #[trigger] table_lookup(t2, m2) == table_lookup(
            t,
            m2,
        ) by {
            assert(t2.drop_first() =~= t.drop_first());
            assert(table_lookup(t2, m2) == table_lookup(t2.drop_first(), m2));
            assert(table_lookup(t, m2) == table_lookup(t.drop_first(), m2));
        }
    } else {
        assert(t2[0] == t[0]);
        assert(t2.drop_first() =~= t.drop_first().update(i - 1, (m, h)));
        lemma_table_update(t.drop_first(), i - 1, m, h);
        assert(t[0].0 != m);
        assert(table_lookup(t2, m) == table_lookup(t2.drop_first(), m));
        assert(table_lookup(t2, m) == Some(h));
        assert forall|m2: Method| m2 != m implies #[trigger] table_lookup(t2, m2) == table_lookup(
            t,
            m2,
        ) by {
            if t[0].0 == m2 {
                assert(table_lookup(t2, m2) == Some(t2[0].1));
                assert(table_lookup(t, m2) == Some(t[0].1));
            } else {
                assert(table_lookup(t2, m2) == table_lookup(t2.drop_first(), m2));
                assert(table_lookup(t, m2) == table_lookup(t.drop_first(), m2));
            }
        }
    }
}

/// Replacing an entry by one for the same method leaves the method list
/// unchanged.
proof fn lemma_methods_update<H>(t: Seq<(Method, H)>, i: int, m: Method, h: H)
    requires
        0 <= i < t.len(),
        t[i].0 == m,
    ensures
        t.update(i, (m, h)).map_values(|p: (Method, H)| p.0) == t.map_values(|p: (Method, H)| p.0),
{
    assert(t.update(i, (m, h)).map_values(|p: (Method, H)| p.0) =~= t.map_values(
        |p: (Method, H)| p.0,
    ));
}

/// Appending an entry for a method with no prior entry gives that method the
/// new handler and leaves every other method's lookup unchanged.
proof fn lemma_table_push<H>(t: Seq<(Method, H)>, m: Method, h: H)
    requires
        forall|k: int| 0 <= k < t.len() ==> #[trigger] t[k].0 != m,
    ensures
        table_lookup(t.push((m, h)), m) == Some(h),
        forall|m2: Method| m2 != m ==> table_lookup(t.push((m, h)), m2) == table_lookup(t, m2),
    decreases t.len(),
{
    let t2 = t.push((m, h));
    if t.len() == 0 {
        assert(t2[0] == (m, h));
        assert(table_lookup(t2, m) == Some(h));
        assert forall|m2: Method| m2 != m implies #[trigger] table_lookup(t2, m2) == table_lookup(
            t,
            m2,
        ) by {
            assert(t2.drop_first() =~= Seq::<(Method, H)>::empty());
            assert(table_lookup(t2, m2) == table_lookup(t2.drop_first(), m2));
            assert(table_lookup(t2.drop_first(), m2) == None::<H>);
            assert(table_lookup(t, m2) == None::<H>);
        }
    } else {
        assert(t2[0] == t[0]);
        assert(t2.drop_first() =~= t.drop_first().push((m, h)));
        assert(forall|k: int|
            0 <= k < t.drop_first().len() ==> #[trigger] t.drop_first()[k].0 != m) by {
            assert(forall|k: int|
                0 <= k < t.drop_first().len() ==> t.drop_first()[k] == t[k + 1]);
        }
        lemma_table_push(t.drop_first(), m, h);
        assert(t[0].0 != m);
        assert(table_lookup(t2, m) == table_lookup(t2.drop_first(), m));
        assert(table_lookup(t2, m) == Some(h));
        assert forall|m2: Method| m2 != m implies #[trigger] table_lookup(t2, m2) == table_lookup(
            t,
            m2,
        ) by {
            if t[0].0 == m2 {
                assert(table_lookup(t2, m2) == Some(t2[0].1));
            } else {
                assert(table_lookup(t2, m2) == table_lookup(t2.drop_first(), m2));
                assert(table_lookup(t, m2) == table_lookup(t.drop_first(), m2));
            }
        }
    }
}

} // verus!
