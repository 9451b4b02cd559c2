//! A request-path router.
//!
//! Routes are declared during a build phase (`RouteMap::add_route`) and
//! resolved at request time (`RouteMap::resolve_asgi_app`).  A declaration
//! carries a path template, the definitions of the parameters appearing in
//! that template, and one or more handlers.  Handlers are opaque to the
//! router: the type parameter `H` stands for whatever the hosting layer
//! stores (the router never inspects or invokes a handler).
//!
//! Parameter-free, non-static paths live in a plain route table; templates
//! with placeholders and static prefixes live in a prefix tree keyed by path
//! segments.

pub mod handler;
pub mod params;
pub mod route_map;
pub mod trie;
pub mod util;

pub use handler::{ConfigError, HandlerGroup, HandlerType};
pub use params::PathParam;
pub use route_map::{FindResult, ResolveError, Route, RouteMap, Scope};
