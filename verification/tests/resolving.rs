use route_map::{HandlerGroup, PathParam, ResolveError, Route, RouteMap, Scope};

fn param(name: &str, full: &str) -> PathParam {
    PathParam { name: name.to_string(), full: full.to_string() }
}

fn http_route(path: &str, methods: &[(&str, u64)]) -> Route<u64> {
    Route::Http {
        path: path.to_string(),
        path_parameters: Vec::new(),
        handlers: methods.iter().map(|(m, h)| (m.to_string(), *h)).collect(),
    }
}

fn http_scope(path: &str, method: &str) -> Scope {
    Scope {
        path: path.to_string(),
        scope_type: "http".to_string(),
        method: method.to_string(),
        param_values: Vec::new(),
        path_parameters: Vec::new(),
    }
}

fn ws_scope(path: &str) -> Scope {
    Scope {
        path: path.to_string(),
        scope_type: "websocket".to_string(),
        method: String::new(),
        param_values: Vec::new(),
        path_parameters: Vec::new(),
    }
}

#[test]
fn literal_route_resolves_exactly() {
    let mut route_map: RouteMap<u64> = RouteMap::new();
    route_map.add_route(http_route("/hello", &[("GET", 5)])).unwrap();

    let mut scope = http_scope("/hello", "GET");
    let handler = route_map.resolve_asgi_app(&mut scope).unwrap();
    assert_eq!(*handler, 5);
    assert_eq!(scope.path, "/hello");
    assert!(scope.param_values.is_empty());

    // A trailing-separator variant of the same path resolves identically.
    let mut scope = http_scope("/hello/", "GET");
    let handler = route_map.resolve_asgi_app(&mut scope).unwrap();
    assert_eq!(*handler, 5);
    assert_eq!(scope.path, "/hello");
}

#[test]
fn path_parameter_value_is_collected() {
    let mut route_map: RouteMap<u64> = RouteMap::new();
    let route = Route::Http {
        path: "/articles/{id:str}".to_string(),
        path_parameters: vec![param("id", "id:str")],
        handlers: vec![("GET".to_string(), 7)],
    };
    route_map.add_route(route).unwrap();

    let mut scope = http_scope("/articles/42", "GET");
    let handler = route_map.resolve_asgi_app(&mut scope).unwrap();
    assert_eq!(*handler, 7);
    assert_eq!(scope.param_values, vec!["42".to_string()]);
    assert_eq!(scope.path_parameters.len(), 1);
    assert_eq!(scope.path_parameters[0].name, "id");
}

#[test]
fn method_miss_is_method_not_allowed() {
    let mut route_map: RouteMap<u64> = RouteMap::new();
    route_map.add_route(http_route("/x", &[("GET", 1)])).unwrap();
    route_map.add_route(http_route("/x", &[("POST", 2)])).unwrap();

    // One dispatch group holds both methods.
    assert_eq!(route_map.plain_routes.len(), 1);
    let group = &route_map.plain_routes[0].1;
    match group {
        HandlerGroup::NonAsgi { asgi_handlers, .. } => assert_eq!(asgi_handlers.len(), 2),
        _ => panic!("Expected NonAsgi handler group"),
    }

    let mut scope = http_scope("/x", "GET");
    assert_eq!(*route_map.resolve_asgi_app(&mut scope).unwrap(), 1);
    let mut scope = http_scope("/x", "POST");
    assert_eq!(*route_map.resolve_asgi_app(&mut scope).unwrap(), 2);

    let mut scope = http_scope("/x", "DELETE");
    let err = route_map.resolve_asgi_app(&mut scope).unwrap_err();
    assert_eq!(err, ResolveError::MethodNotAllowed);

    let mut scope = http_scope("/missing", "GET");
    let err = route_map.resolve_asgi_app(&mut scope).unwrap_err();
    assert_eq!(err, ResolveError::NotFound);
}

#[test]
fn catchall_conflicts_with_method_routes() {
    let mut route_map: RouteMap<u64> = RouteMap::new();
    let catchall: Route<u64> = Route::Asgi {
        path: "/ws".to_string(),
        path_parameters: vec![],
        handler: 1,
    };
    route_map.add_route(catchall).unwrap();

    let err = route_map.add_route(http_route("/ws", &[("GET", 2)])).unwrap_err();
    assert!(matches!(err, route_map::ConfigError::AsgiRouteConflict { .. }));
}

#[test]
fn catchall_redeclaration_replaces_handler() {
    let mut route_map: RouteMap<u64> = RouteMap::new();
    let first: Route<u64> = Route::Asgi {
        path: "/app".to_string(),
        path_parameters: vec![],
        handler: 1,
    };
    let second: Route<u64> = Route::Asgi {
        path: "/app".to_string(),
        path_parameters: vec![],
        handler: 2,
    };
    route_map.add_route(first).unwrap();
    route_map.add_route(second).unwrap();

    let mut scope = http_scope("/app", "GET");
    assert_eq!(*route_map.resolve_asgi_app(&mut scope).unwrap(), 2);
    // A catch-all serves every method and protocol.
    let mut scope = ws_scope("/app");
    assert_eq!(*route_map.resolve_asgi_app(&mut scope).unwrap(), 2);
}

#[test]
fn static_prefix_match_rewrites_path() {
    let mut route_map: RouteMap<u64> = RouteMap::new();
    route_map.add_static_path("/assets");
    let static_route: Route<u64> = Route::Asgi {
        path: "/assets".to_string(),
        path_parameters: vec![],
        handler: 9,
    };
    route_map.add_route(static_route).unwrap();

    let mut scope = http_scope("/assets/app.js", "GET");
    let handler = route_map.resolve_asgi_app(&mut scope).unwrap();
    assert_eq!(*handler, 9);
    assert_eq!(scope.path, "/app.js");

    // An exact match on the static path itself is served without a rewrite.
    let mut scope = http_scope("/assets", "GET");
    let handler = route_map.resolve_asgi_app(&mut scope).unwrap();
    assert_eq!(*handler, 9);
    assert_eq!(scope.path, "/assets");
}

#[test]
fn websocket_routes_dispatch_by_protocol() {
    let mut route_map: RouteMap<u64> = RouteMap::new();
    let route: Route<u64> = Route::Websocket {
        path: "/live".to_string(),
        path_parameters: vec![],
        handler: 4,
    };
    route_map.add_route(route).unwrap();

    let mut scope = ws_scope("/live");
    assert_eq!(*route_map.resolve_asgi_app(&mut scope).unwrap(), 4);

    // An HTTP request on a websocket-only route misses by method.
    let mut scope = http_scope("/live", "GET");
    assert_eq!(
        route_map.resolve_asgi_app(&mut scope).unwrap_err(),
        ResolveError::MethodNotAllowed
    );
}

#[test]
fn websocket_miss_is_not_found() {
    let mut route_map: RouteMap<u64> = RouteMap::new();
    route_map.add_route(http_route("/only-http", &[("GET", 1)])).unwrap();

    let mut scope = ws_scope("/only-http");
    assert_eq!(route_map.resolve_asgi_app(&mut scope).unwrap_err(), ResolveError::NotFound);
}

#[test]
fn literal_child_wins_over_placeholder() {
    let mut route_map: RouteMap<u64> = RouteMap::new();
    let param_route = Route::Http {
        path: "/articles/{id:str}".to_string(),
        path_parameters: vec![param("id", "id:str")],
        handlers: vec![("GET".to_string(), 1)],
    };
    let literal_route = Route::Http {
        path: "/articles/{x:str}/new".to_string(),
        path_parameters: vec![param("x", "x:str")],
        handlers: vec![("GET".to_string(), 2)],
    };
    route_map.add_route(param_route).unwrap();
    route_map.add_route(literal_route).unwrap();

    let mut scope = http_scope("/articles/7", "GET");
    assert_eq!(*route_map.resolve_asgi_app(&mut scope).unwrap(), 1);
    assert_eq!(scope.param_values, vec!["7".to_string()]);

    let mut scope = http_scope("/articles/7/new", "GET");
    assert_eq!(*route_map.resolve_asgi_app(&mut scope).unwrap(), 2);
    assert_eq!(scope.param_values, vec!["7".to_string()]);
}

#[test]
fn find_handler_group_reports_changed_path() {
    let mut route_map: RouteMap<u64> = RouteMap::new();
    route_map.add_route(http_route("/a/b", &[("GET", 1)])).unwrap();

    let found = route_map.find_handler_group("/a/b/").unwrap();
    assert_eq!(found.changed_path.as_deref(), Some("/a/b"));

    let found = route_map.find_handler_group("/a/b").unwrap();
    assert!(found.changed_path.is_none());
}
