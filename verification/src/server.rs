//! Binding of (method, URI) pairs to handlers, and dispatch of structured
//! requests to the unique matching handler.
//!
//! A route's binding is its method and its exact URI string: matching is
//! plain string equality, with no normalization and no wildcard — `/foo` and
//! `/foo?x=1` are distinct bindings. Registering a binding twice is a
//! startup-time programming error and fails; an unmatched dispatch is a
//! normal outcome and yields `None`.

use vstd::prelude::*;

use crate::web::{HttpMethod, HttpRequest, HttpResponse, HttpVersion};

verus! {

/// What the server invokes on a dispatched request. `response_spec` names
/// the response an implementation returns on a given request, so that
/// dispatch can be specified exactly; `handle` must return it.
pub trait Handler: Sized {
    /// The response this handler gives `request`.
    spec fn response_spec(&self, request: HttpRequest) -> HttpResponse;

    /// Handles one request.
    fn handle(&self, request: HttpRequest) -> (r: HttpResponse)
        ensures
            r == self.response_spec(request),
    ;
}

/// A handler that answers every request with one fixed response.
#[derive(Debug, Clone, Copy)]
pub struct FixedHandler {
    pub response: HttpResponse,
}

impl Handler for FixedHandler {
    open spec fn response_spec(&self, request: HttpRequest) -> HttpResponse {
        self.response
    }

    fn handle(&self, request: HttpRequest) -> (r: HttpResponse) {
        self.response
    }
}

/// One registered route: a binding and the handler it leads to.
pub struct Route<H> {
    http_method: HttpMethod,
    uri: String,
    handler: H,
}

impl<H> Route<H> {
    /// The method of this route's binding.
    pub closed spec fn spec_method(&self) -> HttpMethod {
        self.http_method
    }

    /// The URI of this route's binding.
    pub closed spec fn spec_uri(&self) -> Seq<char> {
        self.uri@
    }

    /// The handler this route leads to.
    pub closed spec fn spec_handler(&self) -> H {
        self.handler
    }

    /// Starts a binding of routes for one method; [`Binding::to`] then binds
    /// the URIs.
    pub fn bind(http_method: HttpMethod) -> (r: Binding<H>)
        ensures
            r.spec_method() == http_method,
            r.spec_routes() == Seq::<Route<H>>::empty(),
    {
        Binding { http_method, routes: Vec::new() }
    }
}

/// Routes under construction: one method, and the routes bound so far.
pub struct Binding<H> {
    http_method: HttpMethod,
    routes: Vec<Route<H>>,
}

impl<H> Binding<H> {
    /// The method every route of this binding carries.
    pub closed spec fn spec_method(&self) -> HttpMethod {
        self.http_method
    }

    /// The routes bound so far.
    pub closed spec fn spec_routes(&self) -> Seq<Route<H>> {
        self.routes@
    }

    /// Adds a route from this binding's method and `uri` to `handler`.
    pub fn to(self, uri: &str, handler: H) -> (r: Binding<H>)
        ensures
            r.spec_method() == self.spec_method(),
            r.spec_routes().len() == self.spec_routes().len() + 1,
            forall|k: int|
                0 <= k < self.spec_routes().len() ==> r.spec_routes()[k] == self.spec_routes()[k],
            r.spec_routes().last().spec_method() == self.spec_method(),
            r.spec_routes().last().spec_uri() == uri@,
            r.spec_routes().last().spec_handler() == handler,
    {
        let mut routes = self.routes;
        routes.push(Route { http_method: self.http_method, uri: uri.to_owned(), handler });
        Binding { http_method: self.http_method, routes }
    }
}

/// Whether the bindings of `a` and `b` are the same: the same method and the
/// same URI string, whatever the handlers.
pub open spec fn same_binding<H>(a: Route<H>, b: Route<H>) -> bool {
    a.spec_method() == b.spec_method() && a.spec_uri() == b.spec_uri()
}

/// Whether `route`'s binding is exactly (`m`, `uri`).
pub open spec fn route_matches<H>(route: Route<H>, m: HttpMethod, uri: Seq<char>) -> bool {
    route.spec_method() == m && route.spec_uri() == uri
}

/// The first index at or after `i` of a route in `routes` whose binding is
/// (`m`, `uri`).
pub open spec fn find_match_from<H>(
    routes: Seq<Route<H>>,
    m: HttpMethod,
    uri: Seq<char>,
    i: int,
) -> Option<int>
    decreases routes.len() - i,
{
    if i < 0 || i >= routes.len() {
        None
    } else if route_matches(routes[i], m, uri) {
        Some(i)
    } else {
        find_match_from(routes, m, uri, i + 1)
    }
}

/// No two routes share a binding.
pub open spec fn no_duplicate_bindings<H>(routes: Seq<Route<H>>) -> bool {
    forall|i: int, j: int|
        #![trigger routes[i], routes[j]]
        0 <= i < j < routes.len() ==> !same_binding(routes[i], routes[j])
}

/// Whether registering `added` on top of `existing` would repeat a binding:
/// some added route repeats an existing one, or two added routes repeat each
/// other.
pub open spec fn has_duplicate<H>(existing: Seq<Route<H>>, added: Seq<Route<H>>) -> bool {
    (exists|i: int, j: int|
        #![trigger added[i], existing[j]]
        0 <= i < added.len() && 0 <= j < existing.len() && same_binding(added[i], existing[j]))
        || (exists|i: int, j: int|
        #![trigger added[i], added[j]]
        0 <= i < j < added.len() && same_binding(added[i], added[j]))
}

/// `find_match_from` returns the first match at or after `i`, or reports
/// that none exists.
pub proof fn lemma_find_match<H>(routes: Seq<Route<H>>, m: HttpMethod, uri: Seq<char>, i: int)
    requires
        0 <= i,
    ensures
        match find_match_from(routes, m, uri, i) {
            Some(k) => i <= k < routes.len() && route_matches(routes[k], m, uri) && (forall|j: int|
                i <= j < k ==> !route_matches(#[trigger] routes[j], m, uri)),
            None => forall|j: int| i <= j < routes.len() ==> !route_matches(
                #[trigger] routes[j],
                m,
                uri,
            ),
        },
    decreases routes.len() - i,
{
    if i < routes.len() && !route_matches(routes[i], m, uri) {
        lemma_find_match(routes, m, uri, i + 1);
    }
}

/// The one registration-time failure: the binding being registered repeats a
/// (method, URI) pair. A duplicate is a programming error made before
/// serving begins, so a caller should treat it as fatal.
#[derive(PartialEq, Eq, Structural, Debug, Clone, Copy)]
pub enum ServerError {
    DuplicateBinding,
}

/// Dispatches each structured request to the handler of the unique route
/// whose binding matches it.
pub struct Server<H> {
    routes: Vec<Route<H>>,
}

impl<H> Server<H> {
    /// The registered routes, in registration order.
    pub closed spec fn spec_routes(&self) -> Seq<Route<H>> {
        self.routes@
    }

    /// No two registered routes share a binding, so dispatch matches at most
    /// one route. Registration keeps this for the life of the server.
    pub open spec fn wf(&self) -> bool {
        no_duplicate_bindings(self.spec_routes())
    }

    /// Registers every route of `binding`. Registration fails, and leaves
    /// the server unchanged, exactly when a route of `binding` repeats a
    /// binding already registered, or repeats one within `binding` itself —
    /// whatever the handlers involved.
    pub fn route(&mut self, binding: Binding<H>) -> (r: Result<(), ServerError>)
        requires
            old(self).wf(),
        ensures
            final(self).wf(),
            match r {
                Ok(()) => !has_duplicate(old(self).spec_routes(), binding.spec_routes())
                    && final(self).spec_routes() == old(self).spec_routes()
                    + binding.spec_routes(),
                Err(e) => e == ServerError::DuplicateBinding && has_duplicate(
                    old(self).spec_routes(),
                    binding.spec_routes(),
                ) && *final(self) == *old(self),
            },
    {
        let mut added = binding;
        let n = self.routes.len();
        let m = added.routes.len();
        let mut i: usize = 0;
        while i < m
            invariant
                *self == *old(self),
                self.wf(),
                n == self.routes@.len(),
                m == added.routes@.len(),
                added.routes@ == binding.spec_routes(),
                0 <= i <= m,
                forall|a: int, b: int|
                    #![trigger added.routes@[a], self.routes@[b]]
                    0 <= a < i && 0 <= b < n ==> !same_binding(added.routes@[a], self.routes@[b]),
            decreases m - i,
        {
            let mut j: usize = 0;
            while j < n
                invariant
                    *self == *old(self),
                    self.wf(),
                    n == self.routes@.len(),
                    m == added.routes@.len(),
                    added.routes@ == binding.spec_routes(),
                    0 <= i < m,
                    0 <= j <= n,
                    forall|b: int|
                        0 <= b < j ==> !same_binding(
                            added.routes@[i as int],
                            #[trigger] self.routes@[b],
                        ),
                decreases n - j,
            {
                if added.routes[i].http_method == self.routes[j].http_method
                    && added.routes[i].uri == self.routes[j].uri {
                    assert(same_binding(added.routes@[i as int], self.routes@[j as int]));
                    return Err(ServerError::DuplicateBinding);
                }
                j = j + 1;
            }
            i = i + 1;
        }
        let mut i: usize = 0;
        while i < m
            invariant
                *self == *old(self),
                self.wf(),
                m == added.routes@.len(),
                added.routes@ == binding.spec_routes(),
                0 <= i <= m,
                forall|a: int, b: int|
                    #![trigger added.routes@[a], added.routes@[b]]
                    0 <= a < b < m && a < i ==> !same_binding(added.routes@[a], added.routes@[b]),
            decreases m - i,
        {
            let mut j: usize = i + 1;
            while j < m
                invariant
                    *self == *old(self),
                    self.wf(),
                    m == added.routes@.len(),
                    added.routes@ == binding.spec_routes(),
                    0 <= i < j <= m,
                    forall|b: int|
                        (i as int) < b < j ==> !same_binding(
                            added.routes@[i as int],
                            #[trigger] added.routes@[b],
                        ),
                decreases m - j,
            {
                if added.routes[i].http_method == added.routes[j].http_method
                    && added.routes[i].uri == added.routes[j].uri {
                    assert(same_binding(added.routes@[i as int], added.routes@[j as int]));
                    return Err(ServerError::DuplicateBinding);
                }
                j = j + 1;
            }
            i = i + 1;
        }
        let ghost old_routes = self.routes@;
        self.routes.append(&mut added.routes);
        proof {
            assert forall|a: int, b: int|
                #![trigger self.routes@[a], self.routes@[b]]
                0 <= a < b < self.routes@.len() implies !same_binding(
                self.routes@[a],
                self.routes@[b],
            ) by {
                if b < old_routes.len() {
                    assert(old_routes[a] == self.routes@[a]);
                    assert(old_routes[b] == self.routes@[b]);
                } else if a >= old_routes.len() {
                    assert(self.routes@[a] == binding.spec_routes()[a - old_routes.len()]);
                    assert(self.routes@[b] == binding.spec_routes()[b - old_routes.len()]);
                } else {
                    assert(self.routes@[a] == old_routes[a]);
                    assert(self.routes@[b] == binding.spec_routes()[b - old_routes.len()]);
                    assert(!same_binding(binding.spec_routes()[b - old_routes.len()], old_routes[a]));
                }
            }
        }
        Ok(())
    }
}

impl<H: Handler> Server<H> {
    /// The response of the handler of the unique route whose binding matches
    /// `request`'s method and URI. `None` exactly when no binding matches:
    /// an unmatched request is a normal, recoverable outcome for the caller
    /// to report, never a failure of the server.
    pub fn delegate(&self, request: HttpRequest) -> (r: Option<HttpResponse>)
        ensures
            match r {
                Some(resp) => find_match_from(self.spec_routes(), request@.method, request@.uri, 0)
                    matches Some(k) && resp == self.spec_routes()[k].spec_handler().response_spec(
                    request,
                ),
                None => find_match_from(self.spec_routes(), request@.method, request@.uri, 0)
                    is None,
            },
            r is None <==> (forall|i: int|
                0 <= i < self.spec_routes().len() ==> !route_matches(
                    #[trigger] self.spec_routes()[i],
                    request@.method,
                    request@.uri,
                )),
    {
        let n = self.routes.len();
        let mut i: usize = 0;
        while i < n
            invariant
                n == self.routes@.len(),
                0 <= i <= n,
                find_match_from(self.spec_routes(), request@.method, request@.uri, 0)
                    == find_match_from(self.spec_routes(), request@.method, request@.uri, i as int),
            decreases n - i,
        {
            if self.routes[i].http_method == request.http_method && self.routes[i].uri
                == request.uri {
                assert(route_matches(self.spec_routes()[i as int], request@.method, request@.uri));
                proof {
                    lemma_find_match(self.spec_routes(), request@.method, request@.uri, 0);
                }
                return Some(self.routes[i].handler.handle(request));
            }
            i = i + 1;
        }
        proof {
            lemma_find_match(self.spec_routes(), request@.method, request@.uri, 0);
        }
        None
    }
}

/// Dispatch determinism: on a well-formed server, a route whose binding
/// matches a request is the route dispatch resolves to — the request is
/// answered by that route's handler and no other.
pub proof fn lemma_dispatch_deterministic<H>(
    s: Server<H>,
    m: HttpMethod,
    uri: Seq<char>,
    i: int,
)
    requires
        s.wf(),
        0 <= i < s.spec_routes().len(),
        route_matches(s.spec_routes()[i], m, uri),
    ensures
        find_match_from(s.spec_routes(), m, uri, 0) == Some(i),
{
    lemma_find_match(s.spec_routes(), m, uri, 0);
    match find_match_from(s.spec_routes(), m, uri, 0) {
        Some(k) => {
            if k < i {
                assert(same_binding(s.spec_routes()[k], s.spec_routes()[i]));
            } else if i < k {
                assert(!route_matches(s.spec_routes()[i], m, uri));
            }
        },
        None => {
            assert(!route_matches(s.spec_routes()[i], m, uri));
        },
    }
}

/// Duplicate-binding rejection: a route that repeats the (method, URI) pair
/// of an already-registered route makes `has_duplicate` hold — whether or
/// not the two handlers are the same — so registration fails.
pub proof fn lemma_duplicate_binding_rejected<H>(
    existing: Seq<Route<H>>,
    added: Seq<Route<H>>,
    i: int,
    j: int,
)
    requires
        0 <= i < added.len(),
        0 <= j < existing.len(),
        added[i].spec_method() == existing[j].spec_method(),
        added[i].spec_uri() == existing[j].spec_uri(),
    ensures
        has_duplicate(existing, added),
{
    assert(same_binding(added[i], existing[j]));
}

impl<H> Default for Server<H> {
    /// A server with no routes.
    fn default() -> (r: Server<H>)
        ensures
            r.spec_routes() == Seq::<Route<H>>::empty(),
            r.wf(),
    {
        Server { routes: Vec::new() }
    }
}

} // verus!
