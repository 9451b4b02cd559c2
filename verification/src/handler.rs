//! Handler groups keyed by method or protocol, and their merge rules.

use vstd::prelude::*;
use vstd::string::*;

use crate::params::{clone_params, params_view, path_parameters_eq, PathParam, PathParamView};

verus! {

// ------------------------------------------------------------------
// Handler types
// ------------------------------------------------------------------

/// What a handler is registered for: the websocket protocol, or one HTTP
/// method.
pub enum HandlerType {
    Websocket,
    HttpGet,
    HttpPost,
    HttpDelete,
    HttpPatch,
    HttpPut,
    HttpHead,
    HttpOther(String),
}

/// The mathematical value of a `HandlerType`.
pub enum HandlerTypeView {
    Websocket,
    HttpGet,
    HttpPost,
    HttpDelete,
    HttpPatch,
    HttpPut,
    HttpHead,
    HttpOther(Seq<char>),
}

impl View for HandlerType {
    type V = HandlerTypeView;

    open spec fn view(&self) -> HandlerTypeView {
        match self {
            HandlerType::Websocket => HandlerTypeView::Websocket,
            HandlerType::HttpGet => HandlerTypeView::HttpGet,
            HandlerType::HttpPost => HandlerTypeView::HttpPost,
            HandlerType::HttpDelete => HandlerTypeView::HttpDelete,
            HandlerType::HttpPatch => HandlerTypeView::HttpPatch,
            HandlerType::HttpPut => HandlerTypeView::HttpPut,
            HandlerType::HttpHead => HandlerTypeView::HttpHead,
            HandlerType::HttpOther(s) => HandlerTypeView::HttpOther(s@),
        }
    }
}

/// The handler type an HTTP method name selects.
pub open spec fn from_http_method_spec(m: Seq<char>) -> HandlerTypeView {
    if m == "GET"@ {
        HandlerTypeView::HttpGet
    } else if m == "POST"@ {
        HandlerTypeView::HttpPost
    } else if m == "DELETE"@ {
        HandlerTypeView::HttpDelete
    } else if m == "PATCH"@ {
        HandlerTypeView::HttpPatch
    } else if m == "PUT"@ {
        HandlerTypeView::HttpPut
    } else if m == "HEAD"@ {
        HandlerTypeView::HttpHead
    } else {
        HandlerTypeView::HttpOther(m)
    }
}

impl HandlerType {
    /// The handler type for an HTTP method name.
    pub fn from_http_method(method: &str) -> (r: HandlerType)
        ensures
            r@ == from_http_method_spec(method@),
    {
        let m = method.to_owned();
        if m == String::from_str("GET") {
            HandlerType::HttpGet
        } else if m == String::from_str("POST") {
            HandlerType::HttpPost
        } else if m == String::from_str("DELETE") {
            HandlerType::HttpDelete
        } else if m == String::from_str("PATCH") {
            HandlerType::HttpPatch
        } else if m == String::from_str("PUT") {
            HandlerType::HttpPut
        } else if m == String::from_str("HEAD") {
            HandlerType::HttpHead
        } else {
            HandlerType::HttpOther(m)
        }
    }

    /// The canonical name of the method or protocol this handler type
    /// stands for.
    pub open spec fn method_name_spec(v: HandlerTypeView) -> Seq<char> {
        match v {
            HandlerTypeView::Websocket => "WEBSOCKET"@,
            HandlerTypeView::HttpGet => "GET"@,
            HandlerTypeView::HttpPost => "POST"@,
            HandlerTypeView::HttpDelete => "DELETE"@,
            HandlerTypeView::HttpPatch => "PATCH"@,
            HandlerTypeView::HttpPut => "PUT"@,
            HandlerTypeView::HttpHead => "HEAD"@,
            HandlerTypeView::HttpOther(s) => s,
        }
    }

    /// The canonical name of the method or protocol this handler type
    /// stands for.
    pub fn method_name(&self) -> (r: String)
        ensures
            r@ == Self::method_name_spec(self@),
    {
        match self {
            HandlerType::Websocket => String::from_str("WEBSOCKET"),
            HandlerType::HttpGet => String::from_str("GET"),
            HandlerType::HttpPost => String::from_str("POST"),
            HandlerType::HttpDelete => String::from_str("DELETE"),
            HandlerType::HttpPatch => String::from_str("PATCH"),
            HandlerType::HttpPut => String::from_str("PUT"),
            HandlerType::HttpHead => String::from_str("HEAD"),
            HandlerType::HttpOther(s) => s.clone(),
        }
    }

    /// Value equality of two handler types.
    pub fn kind_eq(&self, other: &HandlerType) -> (r: bool)
        ensures
            r == (self@ == other@),
    {
        match (self, other) {
            (HandlerType::Websocket, HandlerType::Websocket) => true,
            (HandlerType::HttpGet, HandlerType::HttpGet) => true,
            (HandlerType::HttpPost, HandlerType::HttpPost) => true,
            (HandlerType::HttpDelete, HandlerType::HttpDelete) => true,
            (HandlerType::HttpPatch, HandlerType::HttpPatch) => true,
            (HandlerType::HttpPut, HandlerType::HttpPut) => true,
            (HandlerType::HttpHead, HandlerType::HttpHead) => true,
            (HandlerType::HttpOther(a), HandlerType::HttpOther(b)) => *a == *b,
            _ => false,
        }
    }
}

// ------------------------------------------------------------------
// Dispatch tables
// ------------------------------------------------------------------

/// The views of a dispatch-table entry list.
pub open spec fn entries_view<H>(s: Seq<(HandlerType, H)>) -> Seq<(HandlerTypeView, H)> {
    s.map_values(|p: (HandlerType, H)| (p.0@, p.1))
}

/// The map a dispatch-table entry list denotes; a later entry for the same
/// key overwrites an earlier one.
pub open spec fn handlers_map<H>(s: Seq<(HandlerTypeView, H)>) -> Map<HandlerTypeView, H>
    decreases s.len(),
{
    if s.len() == 0 {
        Map::empty()
    } else {
        handlers_map(s.drop_last()).insert(s.last().0, s.last().1)
    }
}

/// Concatenating entry lists unions their maps; entries on the right win.
pub proof fn lemma_handlers_map_concat<H>(a: Seq<(HandlerTypeView, H)>, b: Seq<(HandlerTypeView, H)>)
    ensures
        handlers_map(a + b) == handlers_map(a).union_prefer_right(handlers_map(b)),
    decreases b.len(),
{
    if b.len() == 0 {
        assert(a + b =~= a);
        assert(handlers_map(a).union_prefer_right(Map::empty()) =~= handlers_map(a));
    } else {
        lemma_handlers_map_concat(a, b.drop_last());
        assert((a + b).drop_last() =~= a + b.drop_last());
        assert((a + b).last() == b.last());
        assert(handlers_map(a).union_prefer_right(handlers_map(b)) =~= handlers_map(
            a + b.drop_last(),
        ).insert(b.last().0, b.last().1));
    }
}

/// Looks the handler for `t` up in a dispatch-table entry list.
pub fn get_handler<'a, H>(entries: &'a Vec<(HandlerType, H)>, t: &HandlerType) -> (r: Option<
    &'a H,
>)
    ensures
        match r {
            Some(h) => handlers_map(entries_view(entries@)).contains_key(t@) && *h == handlers_map(
                entries_view(entries@),
            )[t@],
            None => !handlers_map(entries_view(entries@)).contains_key(t@),
        },
{
    let mut i: usize = entries.len();
    proof {
        assert(entries@.subrange(0, entries@.len() as int) =~= entries@);
    }
    while i > 0
        invariant
            i <= entries@.len(),
            handlers_map(entries_view(entries@)).contains_key(t@) == handlers_map(
                entries_view(entries@.subrange(0, i as int)),
            ).contains_key(t@),
            handlers_map(entries_view(entries@)).contains_key(t@) ==> handlers_map(
                entries_view(entries@),
            )[t@] == handlers_map(entries_view(entries@.subrange(0, i as int)))[t@],
        decreases i,
    {
        i -= 1;
        let ghost pre = entries@.subrange(0, i as int + 1);
        proof {
            assert(entries_view(pre).drop_last() =~= entries_view(entries@.subrange(0, i as int)));
            assert(entries_view(pre).last() == (entries@[i as int].0@, entries@[i as int].1));
        }
        if entries[i].0.kind_eq(t) {
            return Some(&entries[i].1);
        }
    }
    proof {
        assert(entries@.subrange(0, 0) =~= Seq::<(HandlerType, H)>::empty());
        assert(entries_view(Seq::<(HandlerType, H)>::empty()) =~= Seq::<(
            HandlerTypeView,
            H,
        )>::empty());
    }
    None
}

// ------------------------------------------------------------------
// Handler groups
// ------------------------------------------------------------------

/// What is reachable at one trie node or plain-route entry: a static-asset
/// mapping, a single catch-all (ASGI) handler, or a per-method dispatch
/// table.
pub enum HandlerGroup<H> {
    /// A static-asset mapping: every sub-path beneath `path` is served by
    /// the one handler; no parameters.
    Static { path: String, handler: H },
    /// One catch-all handler servicing every method and protocol.
    Asgi { path_parameters: Vec<PathParam>, handler: H },
    /// A per-method / per-protocol dispatch table.
    NonAsgi { path_parameters: Vec<PathParam>, asgi_handlers: Vec<(HandlerType, H)> },
}

/// The mathematical value of a `HandlerGroup`.
pub enum GroupView<H> {
    Static { path: Seq<char>, handler: H },
    Asgi { path_parameters: Seq<PathParamView>, handler: H },
    NonAsgi { path_parameters: Seq<PathParamView>, asgi_handlers: Map<HandlerTypeView, H> },
}

impl<H> View for HandlerGroup<H> {
    type V = GroupView<H>;

    open spec fn view(&self) -> GroupView<H> {
        match self {
            HandlerGroup::Static { path, handler } => GroupView::Static {
                path: path@,
                handler: *handler,
            },
            HandlerGroup::Asgi { path_parameters, handler } => GroupView::Asgi {
                path_parameters: params_view(path_parameters@),
                handler: *handler,
            },
            HandlerGroup::NonAsgi { path_parameters, asgi_handlers } => GroupView::NonAsgi {
                path_parameters: params_view(path_parameters@),
                asgi_handlers: handlers_map(entries_view(asgi_handlers@)),
            },
        }
    }
}

/// The parameter definitions recorded in a group; a static group records
/// none.
pub open spec fn group_params<H>(g: GroupView<H>) -> Seq<PathParamView> {
    match g {
        GroupView::Static { .. } => Seq::empty(),
        GroupView::Asgi { path_parameters, .. } => path_parameters,
        GroupView::NonAsgi { path_parameters, .. } => path_parameters,
    }
}

// ------------------------------------------------------------------
// Merge
// ------------------------------------------------------------------

/// Why two handler groups cannot share a position.
pub enum MergeConflict {
    /// A static group paired with anything else.
    BelowStatic,
    /// Parameter sets differ between the two declarations.
    ConflictingParams,
    /// A catch-all group paired with a dispatch group.
    AsgiConflict,
}

/// The merge rules for two declarations that terminate at the same
/// position: static re-declaration keeps the existing group; a catch-all
/// re-declaration with equal parameters replaces the handler; two dispatch
/// groups with equal parameters union their tables, the new entries
/// overwriting; everything else is a conflict.
pub open spec fn merge_spec<H>(cur: GroupView<H>, other: GroupView<H>) -> Result<
    GroupView<H>,
    MergeConflict,
> {
    match cur {
        GroupView::Static { .. } => match other {
            GroupView::Static { .. } => Ok(cur),
            _ => Err(MergeConflict::BelowStatic),
        },
        GroupView::Asgi { path_parameters: pp1, handler: h1 } => match other {
            GroupView::Static { .. } => Err(MergeConflict::BelowStatic),
            GroupView::Asgi { path_parameters: pp2, handler: h2 } => if pp1 == pp2 {
                Ok(GroupView::Asgi { path_parameters: pp1, handler: h2 })
            } else {
                Err(MergeConflict::ConflictingParams)
            },
            GroupView::NonAsgi { .. } => Err(MergeConflict::AsgiConflict),
        },
        GroupView::NonAsgi { path_parameters: pp1, asgi_handlers: m1 } => match other {
            GroupView::Static { .. } => Err(MergeConflict::BelowStatic),
            GroupView::Asgi { .. } => Err(MergeConflict::AsgiConflict),
            GroupView::NonAsgi { path_parameters: pp2, asgi_handlers: m2 } => if pp1 == pp2 {
                Ok(GroupView::NonAsgi {
                    path_parameters: pp1,
                    asgi_handlers: m1.union_prefer_right(m2),
                })
            } else {
                Err(MergeConflict::ConflictingParams)
            },
        },
    }
}

/// A build-time configuration conflict.
#[derive(Debug)]
pub enum ConfigError {
    /// Some other route was declared at or below a static path.
    RoutesBelowStatic { path: String },
    /// Two declarations at the same position disagree on parameters.
    ConflictingPathParams { path: String },
    /// A catch-all handler cannot coexist with method-specific handlers.
    AsgiRouteConflict { path: String },
    /// A static route's handler must be a catch-all handler.
    StaticNotAsgi { path: String },
    /// A static route may not have path parameters.
    StaticWithParams { path: String },
    /// A declaration's kind matches none of the recognized variants.
    UnknownRouteType { kind_name: String },
}

/// The mathematical value of a `ConfigError`.
pub enum ConfigErrorView {
    RoutesBelowStatic { path: Seq<char> },
    ConflictingPathParams { path: Seq<char> },
    AsgiRouteConflict { path: Seq<char> },
    StaticNotAsgi { path: Seq<char> },
    StaticWithParams { path: Seq<char> },
    UnknownRouteType { kind_name: Seq<char> },
}

impl View for ConfigError {
    type V = ConfigErrorView;

    open spec fn view(&self) -> ConfigErrorView {
        match self {
            ConfigError::RoutesBelowStatic { path } => ConfigErrorView::RoutesBelowStatic {
                path: path@,
            },
            ConfigError::ConflictingPathParams { path } => ConfigErrorView::ConflictingPathParams {
                path: path@,
            },
            ConfigError::AsgiRouteConflict { path } => ConfigErrorView::AsgiRouteConflict {
                path: path@,
            },
            ConfigError::StaticNotAsgi { path } => ConfigErrorView::StaticNotAsgi { path: path@ },
            ConfigError::StaticWithParams { path } => ConfigErrorView::StaticWithParams {
                path: path@,
            },
            ConfigError::UnknownRouteType { kind_name } => ConfigErrorView::UnknownRouteType {
                kind_name: kind_name@,
            },
        }
    }
}

/// The configuration error a merge conflict at `path` raises.
pub open spec fn conflict_error(c: MergeConflict, path: Seq<char>) -> ConfigErrorView {
    match c {
        MergeConflict::BelowStatic => ConfigErrorView::RoutesBelowStatic { path },
        MergeConflict::ConflictingParams => ConfigErrorView::ConflictingPathParams { path },
        MergeConflict::AsgiConflict => ConfigErrorView::AsgiRouteConflict { path },
    }
}

impl<H> HandlerGroup<H> {
    /// A dispatch group holding one websocket handler.
    pub fn websocket(path_parameters: Vec<PathParam>, handler: H) -> (r: HandlerGroup<H>)
        ensures
            r@ == (GroupView::NonAsgi {
                path_parameters: params_view(path_parameters@),
                asgi_handlers: Map::empty().insert(HandlerTypeView::Websocket, handler),
            }),
    {
        let mut asgi_handlers: Vec<(HandlerType, H)> = Vec::new();
        asgi_handlers.push((HandlerType::Websocket, handler));
        proof {
            let ev = entries_view(asgi_handlers@);
            assert(ev.len() == 1);
            assert(ev.last() == (HandlerTypeView::Websocket, asgi_handlers@[0].1));
            assert(ev.drop_last() =~= Seq::<(HandlerTypeView, H)>::empty());
            assert(handlers_map(ev) == handlers_map(ev.drop_last()).insert(
                ev.last().0,
                ev.last().1,
            ));
            assert(handlers_map(Seq::<(HandlerTypeView, H)>::empty()) == Map::<
                HandlerTypeView,
                H,
            >::empty());
        }
        HandlerGroup::NonAsgi { path_parameters, asgi_handlers }
    }

    /// The parameter definitions recorded in this group, by value; a static
    /// group records none.
    pub fn path_parameters(&self) -> (r: Vec<PathParam>)
        ensures
            params_view(r@) == group_params(self@),
    {
        match self {
            HandlerGroup::Static { .. } => {
                let r: Vec<PathParam> = Vec::new();
                proof {
                    assert(params_view(r@) =~= Seq::<PathParamView>::empty());
                }
                r
            },
            HandlerGroup::Asgi { path_parameters, .. } => clone_params(path_parameters),
            HandlerGroup::NonAsgi { path_parameters, .. } => clone_params(path_parameters),
        }
    }

    /// The static prefix this group was declared under, if it is a static
    /// group.
    pub fn static_path(&self) -> (r: Option<&String>)
        ensures
            match r {
                Some(p) => self@ matches GroupView::Static { path, .. } && p@ == path,
                None => !(self@ matches GroupView::Static { .. }),
            },
    {
        match self {
            HandlerGroup::Static { path, .. } => Some(path),
            _ => None,
        }
    }

    /// Merges `other` into this group, the resolution when two declarations
    /// target the same tree position; `path` only labels the error.
    pub fn merge(&mut self, other: HandlerGroup<H>, path: &str) -> (r: Result<(), ConfigError>)
        ensures
            match r {
                Ok(()) => merge_spec(old(self)@, other@) matches Ok(g) && final(self)@ == g,
                Err(e) => {
                    &&& merge_spec(old(self)@, other@) matches Err(c) && e@ == conflict_error(
                        c,
                        path@,
                    )
                    &&& final(self)@ == old(self)@
                },
            },
    {
        match (&mut *self, other) {
            (HandlerGroup::Static { .. }, HandlerGroup::Static { .. }) => Ok(()),
            (HandlerGroup::Static { .. }, _) => Err(
                ConfigError::RoutesBelowStatic { path: path.to_owned() },
            ),
            (_, HandlerGroup::Static { .. }) => Err(
                ConfigError::RoutesBelowStatic { path: path.to_owned() },
            ),
            (
                HandlerGroup::Asgi { path_parameters: pp1, handler: h1 },
                HandlerGroup::Asgi { path_parameters: pp2, handler: h2 },
            ) => {
                if path_parameters_eq(pp1, &pp2) {
                    *h1 = h2;
                    Ok(())
                } else {
                    Err(ConfigError::ConflictingPathParams { path: path.to_owned() })
                }
            },
            (HandlerGroup::Asgi { .. }, HandlerGroup::NonAsgi { .. }) => Err(
                ConfigError::AsgiRouteConflict { path: path.to_owned() },
            ),
            (HandlerGroup::NonAsgi { .. }, HandlerGroup::Asgi { .. }) => Err(
                ConfigError::AsgiRouteConflict { path: path.to_owned() },
            ),
            (
                HandlerGroup::NonAsgi { path_parameters: pp1, asgi_handlers: hs1 },
                HandlerGroup::NonAsgi { path_parameters: pp2, asgi_handlers: hs2 },
            ) => {
                if path_parameters_eq(pp1, &pp2) {
                    let ghost old_entries = entries_view(hs1@);
                    let mut new_entries = hs2;
                    hs1.append(&mut new_entries);
                    proof {
                        assert(entries_view(hs1@) =~= old_entries + entries_view(hs2@));
                        lemma_handlers_map_concat(old_entries, entries_view(hs2@));
                    }
                    Ok(())
                } else {
                    Err(ConfigError::ConflictingPathParams { path: path.to_owned() })
                }
            },
        }
    }
}

} // verus!
