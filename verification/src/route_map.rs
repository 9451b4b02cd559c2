//! The route map: a trie for parameterized and static-prefix routes, a
//! plain-route table for literal paths, and the static-path set.

use vstd::prelude::*;
use vstd::string::*;

use crate::handler::{
    conflict_error, entries_view, from_http_method_spec, get_handler, group_params, handlers_map,
    merge_spec, ConfigError, ConfigErrorView, GroupView, HandlerGroup, HandlerType,
    HandlerTypeView,
};
use crate::params::{clone_params, params_view, PathParam, PathParamView};
use crate::trie::{
    empty_node_view, group_at, insert_group, inserted_group, key_at, lemma_walk_finds_key,
    nodes_view, params_of, realizes, route_key, trie_wf, walk, Node, NodeView, SegKey,
};
use crate::util::{normalize_path, normalize_spec, segments_spec, split_segments, strip_prefix_once, strip_prefix_spec, strs_view};

verus! {

// ------------------------------------------------------------------
// Request-time outcomes
// ------------------------------------------------------------------

/// A typed request-time failure.
#[derive(Debug, PartialEq, Eq, Structural)]
pub enum ResolveError {
    /// No trie or table entry matches the normalized path.
    NotFound,
    /// A dispatch group matched, but the request's HTTP method has no entry.
    MethodNotAllowed,
}

// ------------------------------------------------------------------
// Route declarations
// ------------------------------------------------------------------

/// One route declaration handed in at build time.  Handlers arrive already
/// wrapped by the hosting layer and are stored verbatim.
pub enum Route<H> {
    /// An HTTP route: one handler per method name.
    Http { path: String, path_parameters: Vec<PathParam>, handlers: Vec<(String, H)> },
    /// A websocket route with its single handler.
    Websocket { path: String, path_parameters: Vec<PathParam>, handler: H },
    /// A catch-all (ASGI) route: one handler for every method and protocol.
    Asgi { path: String, path_parameters: Vec<PathParam>, handler: H },
    /// A declaration of a kind the router does not recognize.
    Other { path: String, path_parameters: Vec<PathParam>, kind_name: String },
}

/// The mathematical value of a route declaration.
pub enum RouteView<H> {
    Http { path: Seq<char>, path_parameters: Seq<PathParamView>, handlers: Seq<(Seq<char>, H)> },
    Websocket { path: Seq<char>, path_parameters: Seq<PathParamView>, handler: H },
    Asgi { path: Seq<char>, path_parameters: Seq<PathParamView>, handler: H },
    Other { path: Seq<char>, path_parameters: Seq<PathParamView>, kind_name: Seq<char> },
}

/// The views of an HTTP method-to-handler list.
pub open spec fn http_handlers_view<H>(s: Seq<(String, H)>) -> Seq<(Seq<char>, H)> {
    s.map_values(|p: (String, H)| (p.0@, p.1))
}

impl<H> View for Route<H> {
    type V = RouteView<H>;

    open spec fn view(&self) -> RouteView<H> {
        match self {
            Route::Http { path, path_parameters, handlers } => RouteView::Http {
                path: path@,
                path_parameters: params_view(path_parameters@),
                handlers: http_handlers_view(handlers@),
            },
            Route::Websocket { path, path_parameters, handler } => RouteView::Websocket {
                path: path@,
                path_parameters: params_view(path_parameters@),
                handler: *handler,
            },
            Route::Asgi { path, path_parameters, handler } => RouteView::Asgi {
                path: path@,
                path_parameters: params_view(path_parameters@),
                handler: *handler,
            },
            Route::Other { path, path_parameters, kind_name } => RouteView::Other {
                path: path@,
                path_parameters: params_view(path_parameters@),
                kind_name: kind_name@,
            },
        }
    }
}

/// The path template of a declaration.
pub open spec fn route_path<H>(rv: RouteView<H>) -> Seq<char> {
    match rv {
        RouteView::Http { path, .. } => path,
        RouteView::Websocket { path, .. } => path,
        RouteView::Asgi { path, .. } => path,
        RouteView::Other { path, .. } => path,
    }
}

/// The parameter definitions of a declaration.
pub open spec fn route_params<H>(rv: RouteView<H>) -> Seq<PathParamView> {
    match rv {
        RouteView::Http { path_parameters, .. } => path_parameters,
        RouteView::Websocket { path_parameters, .. } => path_parameters,
        RouteView::Asgi { path_parameters, .. } => path_parameters,
        RouteView::Other { path_parameters, .. } => path_parameters,
    }
}

// ------------------------------------------------------------------
// Scopes
// ------------------------------------------------------------------

/// The request-time context the router reads and rewrites: the request
/// path, the protocol type, the HTTP method when applicable, and the fields
/// the router fills during resolution (the raw parameter values collected
/// during traversal, and the parameter definitions recorded at the match,
/// which the hosting layer's parameter parser consumes).
pub struct Scope {
    pub path: String,
    pub scope_type: String,
    pub method: String,
    pub param_values: Vec<String>,
    pub path_parameters: Vec<PathParam>,
}

/// The mathematical value of a scope.
pub struct ScopeView {
    pub path: Seq<char>,
    pub scope_type: Seq<char>,
    pub method: Seq<char>,
    pub param_values: Seq<Seq<char>>,
    pub path_parameters: Seq<PathParamView>,
}

impl View for Scope {
    type V = ScopeView;

    open spec fn view(&self) -> ScopeView {
        ScopeView {
            path: self.path@,
            scope_type: self.scope_type@,
            method: self.method@,
            param_values: strs_view(self.param_values@),
            path_parameters: params_view(self.path_parameters@),
        }
    }
}

// ------------------------------------------------------------------
// Plain-route table lookups
// ------------------------------------------------------------------

/// The value of the first entry of `s` whose key is `key`.
pub open spec fn gfind<V>(s: Seq<(Seq<char>, V)>, key: Seq<char>) -> Option<V>
    decreases s.len(),
{
    if s.len() == 0 {
        None
    } else if s[0].0 == key {
        Some(s[0].1)
    } else {
        gfind(s.drop_first(), key)
    }
}

proof fn lemma_gfind_at<V>(s: Seq<(Seq<char>, V)>, key: Seq<char>, j: int)
    requires
        0 <= j < s.len(),
        s[j].0 == key,
        forall|j2: int| 0 <= j2 < j ==> (#[trigger] s[j2]).0 != key,
    ensures
        gfind(s, key) == Some(s[j].1),
    decreases s.len(),
{
    if j == 0 {
    } else {
        assert(forall|j2: int| 0 <= j2 < s.len() - 1 ==> #[trigger] s.drop_first()[j2] == s[j2 + 1]);
        lemma_gfind_at(s.drop_first(), key, j - 1);
    }
}

proof fn lemma_gfind_none<V>(s: Seq<(Seq<char>, V)>, key: Seq<char>)
    requires
        forall|j: int| 0 <= j < s.len() ==> (#[trigger] s[j]).0 != key,
    ensures
        gfind(s, key) is None,
    decreases s.len(),
{
    if s.len() > 0 {
        assert(forall|j2: int| 0 <= j2 < s.len() - 1 ==> #[trigger] s.drop_first()[j2] == s[j2 + 1]);
        lemma_gfind_none(s.drop_first(), key);
    }
}

/// Appending an entry serves its key when the key was absent and leaves
/// every other key's lookup unchanged.
proof fn lemma_gfind_push<V>(s: Seq<(Seq<char>, V)>, e: (Seq<char>, V), key: Seq<char>)
    ensures
        gfind(s.push(e), key) == (if gfind(s, key) is Some {
            gfind(s, key)
        } else if e.0 == key {
            Some(e.1)
        } else {
            None
        }),
    decreases s.len(),
{
    if s.len() == 0 {
        assert(s.push(e)[0] == e);
        assert(s.push(e).drop_first() =~= Seq::<(Seq<char>, V)>::empty());
    } else {
        assert(s.push(e)[0] == s[0]);
        assert(s.push(e).drop_first() =~= s.drop_first().push(e));
        lemma_gfind_push(s.drop_first(), e, key);
    }
}

/// Replacing the value of the first entry for a key serves the new value at
/// that key and leaves every other key's lookup unchanged.
proof fn lemma_gfind_update<V>(s: Seq<(Seq<char>, V)>, j: int, v: V, key: Seq<char>)
    requires
        0 <= j < s.len(),
        forall|j2: int| 0 <= j2 < j ==> (#[trigger] s[j2]).0 != s[j].0,
    ensures
        gfind(s.update(j, (s[j].0, v)), key) == (if key == s[j].0 {
            Some(v)
        } else {
            gfind(s, key)
        }),
    decreases s.len(),
{
    let s2 = s.update(j, (s[j].0, v));
    if j == 0 {
        assert(s2[0] == (s[0].0, v));
        assert(s2.drop_first() =~= s.drop_first());
    } else {
        assert(s2[0] == s[0]);
        assert(s2.drop_first() =~= s.drop_first().update(j - 1, (s[j].0, v)));
        assert(forall|j2: int| 0 <= j2 < s.len() - 1 ==> #[trigger] s.drop_first()[j2] == s[j2 + 1]);
        assert(s.drop_first()[j - 1] == s[j]);
        lemma_gfind_update(s.drop_first(), j - 1, v, key);
    }
}

/// Whether `x` occurs in `s`.
pub open spec fn str_in(s: Seq<Seq<char>>, x: Seq<char>) -> bool {
    exists|i: int| 0 <= i < s.len() && #[trigger] s[i] == x
}

// ------------------------------------------------------------------
// The route map
// ------------------------------------------------------------------

/// The views of the plain-route table.
pub open spec fn plain_view<H>(s: Seq<(String, HandlerGroup<H>)>) -> Seq<(Seq<char>, GroupView<H>)> {
    s.map_values(|p: (String, HandlerGroup<H>)| (p.0@, p.1@))
}

/// A path router based on a prefix tree.
///
/// Stores a handler group for every declared route position: parameterized
/// and static-prefix routes inside the trie, parameter-free routes in the
/// plain-route table.  Routes are added with `add_route`/`add_routes`
/// during the build phase; `resolve_asgi_app` serves lookups afterwards.
pub struct RouteMap<H> {
    pub nodes: Vec<Node<H>>,
    pub plain_routes: Vec<(String, HandlerGroup<H>)>,
    pub static_paths: Vec<String>,
}

/// The mathematical value of a route map.
pub struct RouteMapView<H> {
    pub nodes: Seq<NodeView<H>>,
    pub plain: Seq<(Seq<char>, GroupView<H>)>,
    pub statics: Seq<Seq<char>>,
}

impl<H> View for RouteMap<H> {
    type V = RouteMapView<H>;

    open spec fn view(&self) -> RouteMapView<H> {
        RouteMapView {
            nodes: nodes_view(self.nodes@),
            plain: plain_view(self.plain_routes@),
            statics: strs_view(self.static_paths@),
        }
    }
}

impl<H> RouteMap<H> {
    /// The route map's structural invariant: the trie arena is a tree with
    /// all edges strictly forward, and the static-path set holds no
    /// duplicates.
    pub open spec fn inv(&self) -> bool {
        &&& trie_wf(self@.nodes)
        &&& forall|i: int, j: int|
            0 <= i < j < self@.statics.len() ==> #[trigger] self@.statics[i]
                != #[trigger] self@.statics[j]
    }

    /// Creates an empty route map.
    pub fn new() -> (r: RouteMap<H>)
        ensures
            r.inv(),
            r@.nodes == seq![empty_node_view::<H>()],
            r@.plain == Seq::<(Seq<char>, GroupView<H>)>::empty(),
            r@.statics == Seq::<Seq<char>>::empty(),
    {
        let mut nodes: Vec<Node<H>> = Vec::new();
        nodes.push(Node::new());
        let r = RouteMap { nodes, plain_routes: Vec::new(), static_paths: Vec::new() };
        proof {
            assert(r@.nodes =~= seq![empty_node_view::<H>()]);
            assert(r@.plain =~= Seq::<(Seq<char>, GroupView<H>)>::empty());
            assert(r@.statics =~= Seq::<Seq<char>>::empty());
            assert forall|i: int| 0 <= i < r@.nodes.len() implies crate::trie::node_wf(
                r@.nodes,
                i,
            ) by {
                assert(r@.nodes[i].children.len() == 0);
            }
            assert(trie_wf(r@.nodes));
        }
        r
    }

    /// Whether `path` occurs in the static-path set.
    pub fn is_static_path(&self, path: &str) -> (r: bool)
        ensures
            r == str_in(self@.statics, path@),
    {
        let p = path.to_owned();
        let mut i: usize = 0;
        while i < self.static_paths.len()
            invariant
                i <= self.static_paths@.len(),
                p@ == path@,
                forall|k: int| 0 <= k < i ==> #[trigger] strs_view(self.static_paths@)[k] != path@,
            decreases self.static_paths@.len() - i,
        {
            if self.static_paths[i] == p {
                proof {
                    assert(strs_view(self.static_paths@)[i as int] == path@);
                }
                return true;
            }
            i += 1;
        }
        false
    }

    /// Adds `path` to the static-path set.
    pub fn add_static_path(&mut self, path: &str)
        requires
            old(self).inv(),
        ensures
            final(self).inv(),
            forall|q: Seq<char>|
                #[trigger] str_in(final(self)@.statics, q) == (str_in(old(self)@.statics, q) || q
                    == path@),
            final(self)@.nodes == old(self)@.nodes,
            final(self)@.plain == old(self)@.plain,
    {
        if !self.is_static_path(path) {
            let ghost old_statics = self@.statics;
            self.static_paths.push(path.to_owned());
            proof {
                assert(self@.statics =~= old_statics.push(path@));
                assert forall|q: Seq<char>| #[trigger] str_in(self@.statics, q) == (str_in(
                    old_statics,
                    q,
                ) || q == path@) by {
                    if str_in(old_statics, q) {
                        let i = choose|i: int| 0 <= i < old_statics.len() && old_statics[i] == q;
                        assert(self@.statics[i] == q);
                    }
                    if q == path@ {
                        assert(self@.statics[old_statics.len() as int] == q);
                    }
                    if str_in(self@.statics, q) {
                        let i = choose|i: int|
                            0 <= i < self@.statics.len() && self@.statics[i] == q;
                        if i < old_statics.len() {
                            assert(old_statics[i] == q);
                        }
                    }
                }
            }
        } else {
            proof {
                assert forall|q: Seq<char>| #[trigger] str_in(self@.statics, q) == (str_in(
                    self@.statics,
                    q,
                ) || q == path@) by {
                    if q == path@ {
                        assert(str_in(self@.statics, q));
                    }
                }
            }
        }
    }

    /// Removes `path` from the static-path set; whether it was present.
    pub fn remove_static_path(&mut self, path: &str) -> (r: bool)
        requires
            old(self).inv(),
        ensures
            final(self).inv(),
            r == str_in(old(self)@.statics, path@),
            forall|q: Seq<char>|
                #[trigger] str_in(final(self)@.statics, q) == (str_in(old(self)@.statics, q) && q
                    != path@),
            final(self)@.nodes == old(self)@.nodes,
            final(self)@.plain == old(self)@.plain,
    {
        let p = path.to_owned();
        let ghost old_statics = self@.statics;
        let mut i: usize = 0;
        while i < self.static_paths.len()
            invariant
                i <= self.static_paths@.len(),
                p@ == path@,
                old_statics == old(self)@.statics,
                self@.statics == old_statics,
                self@.nodes == old(self)@.nodes,
                self@.plain == old(self)@.plain,
                trie_wf(self@.nodes),
                forall|a: int, b: int|
                    0 <= a < b < old_statics.len() ==> #[trigger] old_statics[a]
                        != #[trigger] old_statics[b],
                forall|k: int| 0 <= k < i ==> #[trigger] old_statics[k] != path@,
            decreases self.static_paths@.len() - i,
        {
            if self.static_paths[i] == p {
                proof {
                    assert(old_statics[i as int] == path@);
                }
                self.static_paths.remove(i);
                proof {
                    assert(self@.statics =~= old_statics.remove(i as int));
                    let removed = old_statics.remove(i as int);
                    assert forall|q: Seq<char>| #[trigger] str_in(removed, q) == (str_in(
                        old_statics,
                        q,
                    ) && q != path@) by {
                        if str_in(removed, q) {
                            let k = choose|k: int| 0 <= k < removed.len() && removed[k] == q;
                            if k < i {
                                assert(old_statics[k] == q);
                            } else {
                                assert(old_statics[k + 1] == q);
                            }
                            assert(str_in(old_statics, q));
                            // no duplicates: the removed occurrence was the only one
                            if q == path@ {
                                if k < i {
                                    assert(old_statics[k] == old_statics[i as int]);
                                    assert(false);
                                } else {
                                    assert(old_statics[k + 1] == old_statics[i as int]);
                                    assert(false);
                                }
                            }
                        }
                        if str_in(old_statics, q) && q != path@ {
                            let k = choose|k: int|
                                0 <= k < old_statics.len() && old_statics[k] == q;
                            if k < i {
                                assert(removed[k] == q);
                            } else {
                                assert(k > i);
                                assert(removed[k - 1] == q);
                            }
                        }
                    }
                    assert forall|a: int, b: int|
                        0 <= a < b < removed.len() implies #[trigger] removed[a]
                            != #[trigger] removed[b] by {
                        if a < i && b < i {
                            assert(removed[a] == old_statics[a] && removed[b] == old_statics[b]);
                        } else if a < i {
                            assert(removed[a] == old_statics[a] && removed[b] == old_statics[b
                                + 1]);
                        } else {
                            assert(removed[a] == old_statics[a + 1] && removed[b] == old_statics[b
                                + 1]);
                        }
                    }
                }
                return true;
            }
            i += 1;
        }
        proof {
            assert(!str_in(old_statics, path@));
            assert forall|q: Seq<char>| #[trigger] str_in(self@.statics, q) == (str_in(
                old_statics,
                q,
            ) && q != path@) by {
                if str_in(self@.statics, q) && q == path@ {
                    assert(str_in(old_statics, path@));
                }
            }
        }
        false
    }

    /// Whether `path` is a key of the plain-route table.
    pub fn is_plain_route(&self, path: &str) -> (r: bool)
        ensures
            r == (gfind(self@.plain, path@) is Some),
    {
        let p = path.to_owned();
        match plain_index(&self.plain_routes, &p) {
            Some(j) => {
                proof {
                    lemma_gfind_at(self@.plain, path@, j as int);
                }
                true
            },
            None => {
                proof {
                    lemma_gfind_none(self@.plain, path@);
                }
                false
            },
        }
    }
}

/// Index of the first plain-route entry for `key`, if any.
fn plain_index<H>(plain: &Vec<(String, HandlerGroup<H>)>, key: &String) -> (r: Option<usize>)
    ensures
        match r {
            Some(j) => (j as int) < plain@.len() && plain_view(plain@)[j as int].0 == key@
                && forall|j2: int|
                    0 <= j2 < j as int ==> (#[trigger] plain_view(plain@)[j2]).0 != key@,
            None => forall|j2: int|
                0 <= j2 < plain@.len() ==> (#[trigger] plain_view(plain@)[j2]).0 != key@,
        },
{
    let mut i: usize = 0;
    while i < plain.len()
        invariant
            i <= plain@.len(),
            forall|j2: int| 0 <= j2 < i ==> (#[trigger] plain_view(plain@)[j2]).0 != key@,
        decreases plain@.len() - i,
    {
        if plain[i].0 == *key {
            proof {
                assert(plain_view(plain@)[i as int].0 == key@);
            }
            return Some(i);
        }
        i += 1;
    }
    None
}

// ------------------------------------------------------------------
// Building groups from declarations
// ------------------------------------------------------------------

/// The dispatch-table entries an HTTP method-to-handler list denotes.
pub open spec fn http_entries<H>(hs: Seq<(Seq<char>, H)>) -> Seq<(HandlerTypeView, H)> {
    hs.map_values(|p: (Seq<char>, H)| (from_http_method_spec(p.0), p.1))
}

/// The handler group a declaration builds, or the configuration error it
/// raises: a static path requires a catch-all declaration with no
/// parameters; otherwise HTTP handlers form a dispatch table, a websocket
/// handler a one-entry dispatch table, and a catch-all declaration a
/// catch-all group.
pub open spec fn built_group_spec<H>(rv: RouteView<H>, is_static: bool) -> Result<
    GroupView<H>,
    ConfigErrorView,
> {
    if is_static {
        match rv {
            RouteView::Asgi { path, path_parameters, handler } => {
                if path_parameters.len() > 0 {
                    Err(ConfigErrorView::StaticWithParams { path })
                } else {
                    Ok(GroupView::Static { path, handler })
                }
            },
            _ => Err(ConfigErrorView::StaticNotAsgi { path: route_path(rv) }),
        }
    } else {
        match rv {
            RouteView::Http { path, path_parameters, handlers } => Ok(
                GroupView::NonAsgi {
                    path_parameters,
                    asgi_handlers: handlers_map(http_entries(handlers)),
                },
            ),
            RouteView::Websocket { path, path_parameters, handler } => Ok(
                GroupView::NonAsgi {
                    path_parameters,
                    asgi_handlers: Map::empty().insert(HandlerTypeView::Websocket, handler),
                },
            ),
            RouteView::Asgi { path, path_parameters, handler } => Ok(
                GroupView::Asgi { path_parameters, handler },
            ),
            RouteView::Other { kind_name, .. } => Err(
                ConfigErrorView::UnknownRouteType { kind_name },
            ),
        }
    }
}

/// The view of an insertion outcome.
pub open spec fn err_view(r: Result<(), ConfigError>) -> Result<(), ConfigErrorView> {
    match r {
        Ok(()) => Ok(()),
        Err(e) => Err(e@),
    }
}

/// How one insertion changes the route map: a route with parameters or a
/// static prefix goes to the trie at its declared key, everything else to
/// the plain-route table at its exact path; the group at that one position
/// becomes the merge of what was there with the built group, every other
/// position is untouched, and a merge conflict changes nothing.
pub open spec fn route_inserted<H>(
    before: RouteMapView<H>,
    after: RouteMapView<H>,
    p: Seq<char>,
    ps: Seq<PathParamView>,
    is_static: bool,
    g: GroupView<H>,
    r: Result<(), ConfigErrorView>,
) -> bool {
    &&& after.statics == before.statics
    &&& if ps.len() > 0 || is_static {
        let key = route_key(segments_spec(p), ps);
        &&& after.plain == before.plain
        &&& match r {
            Ok(()) => inserted_group(group_at(before.nodes, key), g) matches Ok(g2) && group_at(
                after.nodes,
                key,
            ) == Some(g2) && (forall|k: Seq<SegKey>|
                k != key ==> #[trigger] group_at(after.nodes, k) == group_at(before.nodes, k)),
            Err(ev) => inserted_group(group_at(before.nodes, key), g) matches Err(c) && ev
                == conflict_error(c, p) && (forall|k: Seq<SegKey>|
                #[trigger] group_at(after.nodes, k) == group_at(before.nodes, k)),
        }
    } else {
        &&& after.nodes == before.nodes
        &&& match r {
            Ok(()) => inserted_group(gfind(before.plain, p), g) matches Ok(g2) && gfind(
                after.plain,
                p,
            ) == Some(g2) && (forall|q: Seq<char>|
                q != p ==> #[trigger] gfind(after.plain, q) == gfind(before.plain, q)),
            Err(ev) => inserted_group(gfind(before.plain, p), g) matches Err(c) && ev
                == conflict_error(c, p) && after.plain == before.plain,
        }
    }
}

impl<H> RouteMap<H> {
    /// Stores `group` at the position `path` declares: inside the trie when
    /// the route has parameters or a static prefix, in the plain-route
    /// table otherwise.  An existing group at that position is merged.
    pub fn find_insert_handler_group(
        &mut self,
        path: &str,
        path_parameters: &Vec<PathParam>,
        is_static: bool,
        group: HandlerGroup<H>,
    ) -> (r: Result<(), ConfigError>)
        requires
            old(self).inv(),
        ensures
            final(self).inv(),
            route_inserted(
                old(self)@,
                final(self)@,
                path@,
                params_view(path_parameters@),
                is_static,
                group@,
                err_view(r),
            ),
    {
        if path_parameters.len() > 0 || is_static {
            let segments = split_segments(path);
            let r = insert_group(&mut self.nodes, &segments, path_parameters, group, path);
            proof {
                assert(final(self)@.plain =~= old(self)@.plain);
                assert(final(self)@.statics =~= old(self)@.statics);
            }
            r
        } else {
            let pstring = path.to_owned();
            let ghost before_plain = self@.plain;
            match plain_index(&self.plain_routes, &pstring) {
                Some(j) => {
                    proof {
                        lemma_gfind_at(before_plain, path@, j as int);
                    }
                    let entry = &mut self.plain_routes[j];
                    let ghost old_group = entry.1@;
                    let res = entry.1.merge(group, path);
                    proof {
                        assert(self@.plain =~= before_plain.update(
                            j as int,
                            (before_plain[j as int].0, self.plain_routes@[j as int].1@),
                        ));
                        let newv = self.plain_routes@[j as int].1@;
                        assert forall|q: Seq<char>| #[trigger] gfind(self@.plain, q) == (if q
                            == path@ {
                            Some(newv)
                        } else {
                            gfind(before_plain, q)
                        }) by {
                            lemma_gfind_update(before_plain, j as int, newv, q);
                        }
                        if res is Err {
                            assert(newv == old_group);
                            assert(self@.plain =~= before_plain);
                        }
                        assert(final(self)@.statics =~= old(self)@.statics);
                    }
                    res
                },
                None => {
                    proof {
                        lemma_gfind_none(before_plain, path@);
                    }
                    let ghost gview = group@;
                    self.plain_routes.push((pstring, group));
                    proof {
                        assert(self@.plain =~= before_plain.push((path@, gview)));
                        assert forall|q: Seq<char>| #[trigger] gfind(self@.plain, q) == (if q
                            == path@ {
                            Some(gview)
                        } else {
                            gfind(before_plain, q)
                        }) by {
                            lemma_gfind_push(before_plain, (path@, gview), q);
                        }
                        assert(final(self)@.statics =~= old(self)@.statics);
                    }
                    Ok(())
                },
            }
        }
    }

    /// Adds one route declaration: validates static-route constraints,
    /// builds the handler group (wrapped handlers are stored verbatim), and
    /// installs it at the declared position, merging on collision.
    pub fn add_route(&mut self, route: Route<H>) -> (r: Result<(), ConfigError>)
        requires
            old(self).inv(),
        ensures
            final(self).inv(),
            ({
                let rv = route@;
                let p = route_path(rv);
                let is_static = str_in(old(self)@.statics, p);
                match built_group_spec(rv, is_static) {
                    Ok(g) => route_inserted(
                        old(self)@,
                        final(self)@,
                        p,
                        route_params(rv),
                        is_static,
                        g,
                        err_view(r),
                    ),
                    Err(ev) => r matches Err(e) && e@ == ev && final(self)@ == old(self)@,
                }
            }),
    {
        match route {
            Route::Http { path, path_parameters, handlers } => {
                let is_static = self.is_static_path(path.as_str());
                if is_static {
                    return Err(ConfigError::StaticNotAsgi { path });
                }
                let ghost hv = http_handlers_view(handlers@);
                let mut hs = handlers;
                let mut entries: Vec<(HandlerType, H)> = Vec::new();
                proof {
                    assert(entries_view(entries@) =~= Seq::<(HandlerTypeView, H)>::empty());
                    assert(entries_view(entries@) + http_entries(http_handlers_view(hs@))
                        =~= http_entries(hv));
                }
                while hs.len() > 0
                    invariant
                        entries_view(entries@) + http_entries(http_handlers_view(hs@))
                            == http_entries(hv),
                    decreases hs@.len(),
                {
                    let ghost pre_entries = entries_view(entries@);
                    let ghost pre_hs = http_handlers_view(hs@);
                    let e = hs.remove(0);
                    let t = HandlerType::from_http_method(e.0.as_str());
                    entries.push((t, e.1));
                    proof {
                        assert(entries_view(entries@) =~= pre_entries.push(
                            (from_http_method_spec(e.0@), entries@.last().1),
                        ));
                        assert(http_handlers_view(hs@) =~= pre_hs.drop_first());
                        assert(http_entries(pre_hs)[0] == (from_http_method_spec(e.0@), e.1));
                        assert(http_entries(pre_hs.drop_first()) =~= http_entries(
                            pre_hs,
                        ).drop_first());
                        assert(entries_view(entries@) + http_entries(http_handlers_view(hs@))
                            =~= pre_entries + http_entries(pre_hs));
                    }
                }
                proof {
                    assert(http_entries(http_handlers_view(hs@)) =~= Seq::<(
                        HandlerTypeView,
                        H,
                    )>::empty());
                    assert(entries_view(entries@) =~= http_entries(hv));
                }
                let params_copy = clone_params(&path_parameters);
                let group = HandlerGroup::NonAsgi { path_parameters, asgi_handlers: entries };
                self.find_insert_handler_group(path.as_str(), &params_copy, false, group)
            },
            Route::Websocket { path, path_parameters, handler } => {
                let is_static = self.is_static_path(path.as_str());
                if is_static {
                    return Err(ConfigError::StaticNotAsgi { path });
                }
                let params_copy = clone_params(&path_parameters);
                let group = HandlerGroup::websocket(path_parameters, handler);
                self.find_insert_handler_group(path.as_str(), &params_copy, false, group)
            },
            Route::Asgi { path, path_parameters, handler } => {
                let is_static = self.is_static_path(path.as_str());
                if is_static {
                    if path_parameters.len() > 0 {
                        return Err(ConfigError::StaticWithParams { path });
                    }
                    let params_copy = clone_params(&path_parameters);
                    let group = HandlerGroup::Static { path: path.clone(), handler };
                    self.find_insert_handler_group(path.as_str(), &params_copy, true, group)
                } else {
                    let params_copy = clone_params(&path_parameters);
                    let group = HandlerGroup::Asgi { path_parameters, handler };
                    self.find_insert_handler_group(path.as_str(), &params_copy, false, group)
                }
            },
            Route::Other { path, path_parameters, kind_name } => {
                let is_static = self.is_static_path(path.as_str());
                if is_static {
                    return Err(ConfigError::StaticNotAsgi { path });
                }
                Err(ConfigError::UnknownRouteType { kind_name })
            },
        }
    }
}

// ------------------------------------------------------------------
// Lookup
// ------------------------------------------------------------------

/// The path handed back after a static-prefix match: the recorded static
/// prefix is removed once, unless it is the bare root.
pub open spec fn rewritten_path<H>(np: Seq<char>, g: GroupView<H>, early: bool) -> Seq<char> {
    if early {
        match g {
            GroupView::Static { path, .. } => if path != seq!['/'] {
                strip_prefix_spec(np, path)
            } else {
                np
            },
            _ => np,
        }
    } else {
        np
    }
}

/// What looking a request path up yields: the handler group, the parameter
/// values collected in traversal order, and the path after normalization
/// and any static-prefix rewrite.  The normalized path is served from the
/// plain-route table when it is an exact key there, and by the trie walk
/// otherwise.
pub open spec fn find_spec<H>(m: RouteMapView<H>, full_path: Seq<char>) -> Option<
    (GroupView<H>, Seq<Seq<char>>, Seq<char>),
> {
    let np = normalize_spec(full_path);
    match gfind(m.plain, np) {
        Some(g) => Some((g, Seq::empty(), np)),
        None => match walk(m.nodes, 0, segments_spec(np)) {
            Some(res) => match m.nodes[res.0].handler_group {
                Some(g) => Some((g, res.1, rewritten_path(np, g, res.2))),
                None => None,
            },
            None => None,
        },
    }
}

/// A successful lookup: the matched handler group, the raw parameter
/// values, and the rewritten path when it differs from the one looked up.
pub struct FindResult<'a, H> {
    pub handler_group: &'a HandlerGroup<H>,
    pub param_values: Vec<String>,
    pub changed_path: Option<String>,
}

impl<H> RouteMap<H> {
    /// Looks a request path up, as `find_spec` describes.
    pub fn find_handler_group<'a>(&'a self, full_path: &str) -> (r: Result<
        FindResult<'a, H>,
        ResolveError,
    >)
        requires
            self.inv(),
        ensures
            ({
                let f = find_spec(self@, full_path@);
                match r {
                    Ok(fr) => {
                        &&& f matches Some(t)
                        &&& fr.handler_group@ == t.0
                        &&& strs_view(fr.param_values@) == t.1
                        &&& match fr.changed_path {
                            Some(p) => p@ == t.2 && t.2 != full_path@,
                            None => t.2 == full_path@,
                        }
                    },
                    Err(e) => f is None && e == ResolveError::NotFound,
                }
            }),
    {
        let np = normalize_path(full_path);
        let orig = full_path.to_owned();
        match plain_index(&self.plain_routes, &np) {
            Some(j) => {
                proof {
                    lemma_gfind_at(self@.plain, np@, j as int);
                }
                let group = &self.plain_routes[j].1;
                let changed = !(np == orig);
                let changed_path = if changed {
                    Some(np)
                } else {
                    None
                };
                let param_values: Vec<String> = Vec::new();
                proof {
                    assert(strs_view(param_values@) =~= Seq::<Seq<char>>::empty());
                }
                Ok(FindResult { handler_group: group, param_values, changed_path })
            },
            None => {
                proof {
                    lemma_gfind_none(self@.plain, np@);
                }
                let segments = split_segments(np.as_str());
                match crate::trie::walk_find(&self.nodes, &segments) {
                    None => Err(ResolveError::NotFound),
                    Some((t, vals, early)) => {
                        let node = &self.nodes[t];
                        match &node.handler_group {
                            None => Err(ResolveError::NotFound),
                            Some(group) => {
                                let rewritten: String = if early {
                                    match group.static_path() {
                                        Some(sp) => {
                                            let root = String::from_str("/");
                                            proof {
                                                reveal_strlit("/");
                                                assert(root@ =~= seq!['/']);
                                            }
                                            if !(*sp == root) {
                                                strip_prefix_once(&np, sp)
                                            } else {
                                                np.clone()
                                            }
                                        },
                                        None => np.clone(),
                                    }
                                } else {
                                    np.clone()
                                };
                                proof {
                                    assert(rewritten@ == rewritten_path(np@, group@, early));
                                }
                                let changed = !(rewritten == orig);
                                let changed_path = if changed {
                                    Some(rewritten)
                                } else {
                                    None
                                };
                                Ok(FindResult {
                                    handler_group: group,
                                    param_values: vals,
                                    changed_path,
                                })
                            },
                        }
                    },
                }
            },
        }
    }
}

// ------------------------------------------------------------------
// Dispatch
// ------------------------------------------------------------------

/// The handler a matched group serves a request with: a static or
/// catch-all group serves its one handler for every method and protocol; a
/// dispatch group selects by HTTP method (or the websocket entry for any
/// non-HTTP scope) and fails with method-not-allowed for HTTP misses and
/// not-found for non-HTTP misses.
pub open spec fn dispatch_spec<H>(g: GroupView<H>, scope_type: Seq<char>, method: Seq<char>) -> Result<
    H,
    ResolveError,
> {
    match g {
        GroupView::Static { handler, .. } => Ok(handler),
        GroupView::Asgi { handler, .. } => Ok(handler),
        GroupView::NonAsgi { asgi_handlers, .. } => {
            let k = if scope_type == "http"@ {
                from_http_method_spec(method)
            } else {
                HandlerTypeView::Websocket
            };
            if asgi_handlers.contains_key(k) {
                Ok(asgi_handlers[k])
            } else {
                Err(
                    if scope_type == "http"@ {
                        ResolveError::MethodNotAllowed
                    } else {
                        ResolveError::NotFound
                    },
                )
            }
        },
    }
}

impl<H> RouteMap<H> {
    /// Looks the scope's path up and rewrites the scope: the path receives
    /// any normalization and static-prefix rewrite, and the collected raw
    /// parameter values and the matched parameter definitions are stored
    /// for the hosting layer's parameter parser.  Returns the matched
    /// handler group.
    pub fn parse_scope_to_route<'a>(&'a self, scope: &mut Scope) -> (r: Result<
        &'a HandlerGroup<H>,
        ResolveError,
    >)
        requires
            self.inv(),
        ensures
            final(scope)@.scope_type == old(scope)@.scope_type,
            final(scope)@.method == old(scope)@.method,
            ({
                let f = find_spec(self@, old(scope)@.path);
                match r {
                    Ok(g) => {
                        &&& f matches Some(t)
                        &&& g@ == t.0
                        &&& final(scope)@.path == t.2
                        &&& final(scope)@.param_values == t.1
                        &&& final(scope)@.path_parameters == group_params(t.0)
                    },
                    Err(e) => f is None && e == ResolveError::NotFound && final(scope)@ == old(
                        scope,
                    )@,
                }
            }),
    {
        let path_copy = scope.path.clone();
        match self.find_handler_group(path_copy.as_str()) {
            Err(e) => Err(e),
            Ok(fr) => {
                let FindResult { handler_group, param_values, changed_path } = fr;
                match changed_path {
                    Some(p) => {
                        scope.path = p;
                    },
                    None => {},
                }
                scope.param_values = param_values;
                scope.path_parameters = handler_group.path_parameters();
                Ok(handler_group)
            },
        }
    }

    /// Resolves the scope to the one handler that serves it: looks the path
    /// up, rewrites the scope as `parse_scope_to_route` does, and
    /// dispatches by the scope's protocol type and method.
    pub fn resolve_asgi_app<'a>(&'a self, scope: &mut Scope) -> (r: Result<&'a H, ResolveError>)
        requires
            self.inv(),
        ensures
            final(scope)@.scope_type == old(scope)@.scope_type,
            final(scope)@.method == old(scope)@.method,
            ({
                let f = find_spec(self@, old(scope)@.path);
                match f {
                    Some(t) => {
                        &&& final(scope)@.path == t.2
                        &&& final(scope)@.param_values == t.1
                        &&& final(scope)@.path_parameters == group_params(t.0)
                        &&& match dispatch_spec(t.0, old(scope)@.scope_type, old(scope)@.method) {
                            Ok(h) => r matches Ok(rh) && rh == h,
                            Err(e) => r matches Err(e2) && e2 == e,
                        }
                    },
                    None => r matches Err(e) && e == ResolveError::NotFound && final(scope)@ == old(
                        scope,
                    )@,
                }
            }),
    {
        let group = match self.parse_scope_to_route(scope) {
            Ok(g) => g,
            Err(e) => {
                return Err(e);
            },
        };
        match group {
            HandlerGroup::Static { handler, .. } => Ok(handler),
            HandlerGroup::Asgi { handler, .. } => Ok(handler),
            HandlerGroup::NonAsgi { asgi_handlers, .. } => {
                let http = scope.scope_type == String::from_str("http");
                let key = if http {
                    HandlerType::from_http_method(scope.method.as_str())
                } else {
                    HandlerType::Websocket
                };
                match get_handler(asgi_handlers, &key) {
                    Some(h) => Ok(h),
                    None => Err(
                        if http {
                            ResolveError::MethodNotAllowed
                        } else {
                            ResolveError::NotFound
                        },
                    ),
                }
            },
        }
    }
}

// ------------------------------------------------------------------
// The observable model
// ------------------------------------------------------------------

/// The observable content of a route map: which paths are static, what the
/// plain-route table maps each literal path to, and what the trie holds at
/// each declared key.
#[verifier::ext_equal]
pub struct RouteModel<H> {
    pub statics: Set<Seq<char>>,
    pub plain: Map<Seq<char>, GroupView<H>>,
    pub trie: Map<Seq<SegKey>, GroupView<H>>,
}

/// The observable model of a route map value.
pub open spec fn model<H>(m: RouteMapView<H>) -> RouteModel<H> {
    RouteModel {
        statics: Set::new(|q: Seq<char>| str_in(m.statics, q)),
        plain: Map::new(
            |q: Seq<char>| gfind(m.plain, q) is Some,
            |q: Seq<char>| gfind(m.plain, q)->Some_0,
        ),
        trie: Map::new(
            |k: Seq<SegKey>| group_at(m.nodes, k) is Some,
            |k: Seq<SegKey>| group_at(m.nodes, k)->Some_0,
        ),
    }
}

/// What one declaration does to the observable model: it builds its handler
/// group, then installs it at the declared position (trie key for
/// parameterized or static routes, table key otherwise), merging with an
/// existing group; a build failure or merge conflict changes nothing.
pub open spec fn apply_route<H>(md: RouteModel<H>, rv: RouteView<H>) -> Result<
    RouteModel<H>,
    ConfigErrorView,
> {
    let p = route_path(rv);
    let ps = route_params(rv);
    let is_static = md.statics.contains(p);
    match built_group_spec(rv, is_static) {
        Err(e) => Err(e),
        Ok(g) => if ps.len() > 0 || is_static {
            let key = route_key(segments_spec(p), ps);
            let cur = if md.trie.contains_key(key) {
                Some(md.trie[key])
            } else {
                None
            };
            match inserted_group(cur, g) {
                Ok(g2) => Ok(
                    RouteModel { statics: md.statics, plain: md.plain, trie: md.trie.insert(key, g2) },
                ),
                Err(c) => Err(conflict_error(c, p)),
            }
        } else {
            let cur = if md.plain.contains_key(p) {
                Some(md.plain[p])
            } else {
                None
            };
            match inserted_group(cur, g) {
                Ok(g2) => Ok(
                    RouteModel { statics: md.statics, plain: md.plain.insert(p, g2), trie: md.trie },
                ),
                Err(c) => Err(conflict_error(c, p)),
            }
        },
    }
}

/// `add_route`'s contract, restated over the observable model: on success
/// the new model is exactly `apply_route` of the old one, and on failure
/// the model is unchanged and the error is the one `apply_route` names.
pub proof fn lemma_add_route_model<H>(
    before: RouteMapView<H>,
    after: RouteMapView<H>,
    rv: RouteView<H>,
    r: Result<(), ConfigErrorView>,
)
    requires
        match built_group_spec(rv, str_in(before.statics, route_path(rv))) {
            Ok(g) => route_inserted(
                before,
                after,
                route_path(rv),
                route_params(rv),
                str_in(before.statics, route_path(rv)),
                g,
                r,
            ),
            Err(ev) => r == Err::<(), ConfigErrorView>(ev) && after == before,
        },
    ensures
        match r {
            Ok(()) => apply_route(model(before), rv) == Ok::<RouteModel<H>, ConfigErrorView>(model(after)),
            Err(e) => apply_route(model(before), rv) == Err::<RouteModel<H>, ConfigErrorView>(e)
                && model(after) == model(before),
        },
{
    let p = route_path(rv);
    let ps = route_params(rv);
    let md = model(before);
    let is_static = str_in(before.statics, p);
    assert(md.statics.contains(p) == is_static);
    match built_group_spec(rv, is_static) {
        Err(ev) => {
            assert(model(after) =~= model(before));
        },
        Ok(g) => {
            assert(after.statics == before.statics);
            assert(model(after).statics =~= model(before).statics);
            if ps.len() > 0 || is_static {
                let key = route_key(segments_spec(p), ps);
                let cur = if md.trie.contains_key(key) {
                    Some(md.trie[key])
                } else {
                    None
                };
                assert(cur == group_at(before.nodes, key));
                assert(model(after).plain =~= model(before).plain);
                match r {
                    Ok(()) => {
                        let g2 = inserted_group(group_at(before.nodes, key), g)->Ok_0;
                        assert(group_at(after.nodes, key) == Some(g2));
                        assert(model(after).trie =~= md.trie.insert(key, g2)) by {
                            assert forall|k: Seq<SegKey>| k != key implies #[trigger] group_at(
                                after.nodes,
                                k,
                            ) == group_at(before.nodes, k) by {}
                        }
                        assert(apply_route(md, rv) == Ok::<RouteModel<H>, ConfigErrorView>(
                            model(after),
                        )) by {
                            assert(model(after) =~= RouteModel {
                                statics: md.statics,
                                plain: md.plain,
                                trie: md.trie.insert(key, g2),
                            });
                        }
                    },
                    Err(e) => {
                        assert(model(after).trie =~= model(before).trie);
                        assert(model(after) =~= model(before));
                    },
                }
            } else {
                let cur = if md.plain.contains_key(p) {
                    Some(md.plain[p])
                } else {
                    None
                };
                assert(cur == gfind(before.plain, p));
                assert(model(after).trie =~= model(before).trie);
                match r {
                    Ok(()) => {
                        let g2 = inserted_group(gfind(before.plain, p), g)->Ok_0;
                        assert(gfind(after.plain, p) == Some(g2));
                        assert(model(after).plain =~= md.plain.insert(p, g2)) by {
                            assert forall|q: Seq<char>| q != p implies #[trigger] gfind(
                                after.plain,
                                q,
                            ) == gfind(before.plain, q) by {}
                        }
                        assert(apply_route(md, rv) == Ok::<RouteModel<H>, ConfigErrorView>(
                            model(after),
                        )) by {
                            assert(model(after) =~= RouteModel {
                                statics: md.statics,
                                plain: md.plain.insert(p, g2),
                                trie: md.trie,
                            });
                        }
                    },
                    Err(e) => {
                        assert(model(after).plain =~= model(before).plain);
                        assert(model(after) =~= model(before));
                    },
                }
            }
        },
    }
}

/// The views of a list of declarations.
pub open spec fn routes_view<H>(s: Seq<Route<H>>) -> Seq<RouteView<H>> {
    s.map_values(|r: Route<H>| r@)
}

/// What a list of declarations does to the observable model: each is
/// applied in order, and the first failure aborts.
pub open spec fn apply_routes<H>(md: RouteModel<H>, rvs: Seq<RouteView<H>>) -> Result<
    RouteModel<H>,
    ConfigErrorView,
>
    decreases rvs.len(),
{
    if rvs.len() == 0 {
        Ok(md)
    } else {
        match apply_route(md, rvs[0]) {
            Ok(md2) => apply_routes(md2, rvs.drop_first()),
            Err(e) => Err(e),
        }
    }
}

impl<H> RouteMap<H> {
    /// Adds a collection of declarations in order; the first configuration
    /// error aborts, leaving the routes before it installed.
    pub fn add_routes(&mut self, routes: Vec<Route<H>>) -> (r: Result<(), ConfigError>)
        requires
            old(self).inv(),
        ensures
            final(self).inv(),
            match r {
                Ok(()) => apply_routes(model(old(self)@), routes_view(routes@)) == Ok::<
                    RouteModel<H>,
                    ConfigErrorView,
                >(model(final(self)@)),
                Err(e) => apply_routes(model(old(self)@), routes_view(routes@)) == Err::<
                    RouteModel<H>,
                    ConfigErrorView,
                >(e@),
            },
    {
        let ghost orig_model = model(old(self)@);
        let ghost rvs = routes_view(routes@);
        let mut rs = routes;
        proof {
            assert(routes_view(rs@) =~= rvs);
        }
        while rs.len() > 0
            invariant
                self.inv(),
                orig_model == model(old(self)@),
                rvs == routes_view(routes@),
                apply_routes(orig_model, rvs) == apply_routes(model(self@), routes_view(rs@)),
            decreases rs@.len(),
        {
            let ghost pre_view = self@;
            let ghost pre_model = model(self@);
            let ghost pre_rvs = routes_view(rs@);
            let route = rs.remove(0);
            let ghost rv = route@;
            proof {
                assert(pre_rvs[0] == rv);
                assert(routes_view(rs@) =~= pre_rvs.drop_first());
            }
            let res = self.add_route(route);
            proof {
                lemma_add_route_model(pre_view, self@, rv, err_view(res));
            }
            match res {
                Ok(()) => {},
                Err(e) => {
                    return Err(e);
                },
            }
        }
        proof {
            assert(routes_view(rs@) =~= Seq::<RouteView<H>>::empty());
        }
        Ok(())
    }
}

// ------------------------------------------------------------------
// Laws
// ------------------------------------------------------------------

/// The method-to-handler list of an HTTP declaration.
pub open spec fn route_http_handlers<H>(rv: RouteView<H>) -> Seq<(Seq<char>, H)> {
    match rv {
        RouteView::Http { handlers, .. } => handlers,
        _ => Seq::empty(),
    }
}

/// Law: after declaring an HTTP route on a literal path (no parameters, not
/// static), looking up any path that normalizes to the declared path — the
/// exact path, or a trailing-separator variant of it — matches with no
/// parameter values and no rewrite, and dispatching any declared method
/// returns the handler that was declared for it.
pub proof fn lemma_literal_route_resolves<H>(
    m1: RouteMapView<H>,
    m2: RouteMapView<H>,
    rv: RouteView<H>,
    q: Seq<char>,
    method: Seq<char>,
)
    requires
        rv matches RouteView::Http { .. },
        route_params(rv).len() == 0,
        !str_in(m1.statics, route_path(rv)),
        apply_route(model(m1), rv) == Ok::<RouteModel<H>, ConfigErrorView>(model(m2)),
        normalize_spec(q) == route_path(rv),
        handlers_map(http_entries(route_http_handlers(rv))).contains_key(
            from_http_method_spec(method),
        ),
    ensures
        find_spec(m2, q) matches Some(t) && t.1 == Seq::<Seq<char>>::empty() && t.2 == route_path(
            rv,
        ) && dispatch_spec(t.0, "http"@, method) == Ok::<H, ResolveError>(
            handlers_map(http_entries(route_http_handlers(rv)))[from_http_method_spec(method)],
        ),
{
    let p = route_path(rv);
    let md1 = model(m1);
    let md2 = model(m2);
    let hm = handlers_map(http_entries(route_http_handlers(rv)));
    let mk = from_http_method_spec(method);
    assert(!md1.statics.contains(p));
    match rv {
        RouteView::Http { path, path_parameters, handlers } => {
            let g = built_group_spec(rv, false)->Ok_0;
            assert(g == (GroupView::NonAsgi {
                path_parameters,
                asgi_handlers: hm,
            }));
            let cur = if md1.plain.contains_key(p) {
                Some(md1.plain[p])
            } else {
                None
            };
            let g2 = inserted_group(cur, g)->Ok_0;
            assert(md2.plain == md1.plain.insert(p, g2));
            match cur {
                None => {
                    assert(g2 == g);
                },
                Some(c) => {
                    match c {
                        GroupView::NonAsgi { path_parameters: pp2, asgi_handlers: am2 } => {
                            assert(g2 == (GroupView::NonAsgi {
                                path_parameters: pp2,
                                asgi_handlers: am2.union_prefer_right(hm),
                            }));
                            assert(am2.union_prefer_right(hm).contains_key(mk));
                            assert(am2.union_prefer_right(hm)[mk] == hm[mk]);
                        },
                        _ => {
                            assert(false);
                        },
                    }
                },
            }
            assert(md2.plain.contains_key(p) && md2.plain[p] == g2);
            assert(gfind(m2.plain, p) == Some(g2));
            assert(find_spec(m2, q) == Some((g2, Seq::<Seq<char>>::empty(), p)));
        },
        _ => {
            assert(false);
        },
    }
}

/// Law: when a declared route's key holds a handler group, any request path
/// whose normalized segments realize that key — equal text at the literal
/// steps, no literal child capturing the segment at a placeholder step —
/// matches that group, and the parameter values collected are exactly the
/// segments standing at the placeholder positions, in traversal order.
pub proof fn lemma_param_route_resolves<H>(
    m: RouteMapView<H>,
    key: Seq<SegKey>,
    g: GroupView<H>,
    q: Seq<char>,
)
    requires
        trie_wf(m.nodes),
        group_at(m.nodes, key) == Some(g),
        gfind(m.plain, normalize_spec(q)) is None,
        realizes(m.nodes, 0, key, segments_spec(normalize_spec(q))),
        segments_spec(normalize_spec(q)).len() == key.len(),
        !(g matches GroupView::Static { .. }),
    ensures
        find_spec(m, q) matches Some(t) && t.0 == g && t.1 == params_of(
            key,
            segments_spec(normalize_spec(q)),
        ) && t.2 == normalize_spec(q),
{
    let np = normalize_spec(q);
    let segs = segments_spec(np);
    match key_at(m.nodes, 0, key) {
        Some(t) => {
            lemma_walk_finds_key(m.nodes, 0, key, segs, t);
            assert(walk(m.nodes, 0, segs) == Some((t, params_of(key, segs), false)));
        },
        None => {
            assert(false);
        },
    }
}

/// Law: re-declaring a catch-all route with the same path and the same
/// parameter set succeeds (idempotent re-registration), and the second
/// handler replaces the first at the declared position.
pub proof fn lemma_catchall_redeclare_replaces<H>(
    md: RouteModel<H>,
    md1: RouteModel<H>,
    p: Seq<char>,
    ps: Seq<PathParamView>,
    h1: H,
    h2: H,
)
    requires
        !md.statics.contains(p),
        apply_route(md, RouteView::Asgi { path: p, path_parameters: ps, handler: h1 }) == Ok::<
            RouteModel<H>,
            ConfigErrorView,
        >(md1),
    ensures
        apply_route(md1, RouteView::Asgi { path: p, path_parameters: ps, handler: h2 }) matches Ok(
            md2,
        ) && (if ps.len() > 0 {
            md2.trie[route_key(segments_spec(p), ps)] == (GroupView::Asgi {
                path_parameters: ps,
                handler: h2,
            })
        } else {
            md2.plain[p] == (GroupView::Asgi { path_parameters: ps, handler: h2 })
        }),
{
    let rv1 = RouteView::Asgi { path: p, path_parameters: ps, handler: h1 };
    let rv2 = RouteView::Asgi { path: p, path_parameters: ps, handler: h2 };
    let ga1 = GroupView::Asgi { path_parameters: ps, handler: h1 };
    let ga2 = GroupView::Asgi { path_parameters: ps, handler: h2 };
    assert(md1.statics == md.statics);
    assert(!md1.statics.contains(p));
    assert(built_group_spec(rv1, false) == Ok::<GroupView<H>, ConfigErrorView>(ga1));
    assert(built_group_spec(rv2, false) == Ok::<GroupView<H>, ConfigErrorView>(ga2));
    if ps.len() > 0 {
        let key = route_key(segments_spec(p), ps);
        let cur = if md.trie.contains_key(key) {
            Some(md.trie[key])
        } else {
            None
        };
        let g1 = inserted_group(cur, ga1)->Ok_0;
        assert(g1 == ga1) by {
            match cur {
                None => {},
                Some(c) => {
                    match c {
                        GroupView::Asgi { path_parameters: pp0, handler: h0 } => {},
                        _ => {
                            assert(false);
                        },
                    }
                },
            }
        }
        assert(md1.trie == md.trie.insert(key, ga1));
        assert(md1.trie.contains_key(key) && md1.trie[key] == ga1);
        assert(merge_spec(ga1, ga2) == Ok::<GroupView<H>, crate::handler::MergeConflict>(ga2));
    } else {
        let cur = if md.plain.contains_key(p) {
            Some(md.plain[p])
        } else {
            None
        };
        let g1 = inserted_group(cur, ga1)->Ok_0;
        assert(g1 == ga1) by {
            match cur {
                None => {},
                Some(c) => {
                    match c {
                        GroupView::Asgi { path_parameters: pp0, handler: h0 } => {},
                        _ => {
                            assert(false);
                        },
                    }
                },
            }
        }
        assert(md1.plain == md.plain.insert(p, ga1));
        assert(md1.plain.contains_key(p) && md1.plain[p] == ga1);
        assert(merge_spec(ga1, ga2) == Ok::<GroupView<H>, crate::handler::MergeConflict>(ga2));
    }
}

} // verus!
