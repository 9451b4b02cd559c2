use route_map::handler::get_handler;
use route_map::trie::Node;
use route_map::{ConfigError, HandlerGroup, HandlerType, PathParam, Route, RouteMap};

fn param(name: &str, full: &str) -> PathParam {
    PathParam { name: name.to_string(), full: full.to_string() }
}

fn http_route(path: &str, methods: &[(&str, u64)]) -> Route<u64> {
    Route::Http {
        path: path.to_string(),
        path_parameters: Vec::new(),
        handlers: methods.iter().map(|(m, h)| (m.to_string(), *h)).collect(),
    }
}

fn http_route_with_params(path: &str, params: Vec<PathParam>, methods: &[(&str, u64)]) -> Route<u64> {
    Route::Http {
        path: path.to_string(),
        path_parameters: params,
        handlers: methods.iter().map(|(m, h)| (m.to_string(), *h)).collect(),
    }
}

fn node_empty(node: &Node<u64>) -> bool {
    node.children.is_empty() && node.placeholder_child.is_none() && node.handler_group.is_none()
}

fn method_entry(group: &HandlerGroup<u64>, t: HandlerType) -> Option<u64> {
    match group {
        HandlerGroup::NonAsgi { asgi_handlers, .. } => get_handler(asgi_handlers, &t).copied(),
        _ => None,
    }
}

#[test]
fn init() {
    let mut route_map: RouteMap<u64> = RouteMap::new();
    route_map.add_routes(vec![]).unwrap();
}

#[test]
fn test_init() {
    let mut route_map: RouteMap<u64> = RouteMap::new();
    route_map.add_routes(vec![]).unwrap();
}

#[test]
fn init_empty() {
    let mut route_map: RouteMap<u64> = RouteMap::new();

    route_map.add_routes(Vec::new()).unwrap();

    assert!(node_empty(&route_map.nodes[0]));
    assert!(route_map.static_paths.is_empty());
    assert!(route_map.plain_routes.is_empty());
}

#[test]
fn mod_init_empty() {
    let mut route_map: RouteMap<u64> = RouteMap::new();

    route_map.add_routes(vec![]).unwrap();

    assert_eq!(route_map.nodes.len(), 1);
    assert!(route_map.nodes[0].children.is_empty());
    assert!(route_map.nodes[0].placeholder_child.is_none());
    assert!(route_map.nodes[0].handler_group.is_none());
    assert!(route_map.static_paths.is_empty());
    assert!(route_map.plain_routes.is_empty());
}

#[test]
fn init_one_route() {
    let mut route_map: RouteMap<u64> = RouteMap::new();

    let route = http_route("/test", &[("GET", 1)]);

    route_map.add_route(route).unwrap();

    assert!(node_empty(&route_map.nodes[0]));
    assert!(route_map.static_paths.is_empty());

    assert_eq!(route_map.plain_routes.len(), 1);
    assert_eq!(route_map.plain_routes[0].0, "/test");

    let handler_group = &route_map.plain_routes[0].1;
    match handler_group {
        HandlerGroup::NonAsgi { path_parameters, asgi_handlers } => {
            assert_eq!(asgi_handlers.len(), 1);
            assert_eq!(get_handler(asgi_handlers, &HandlerType::HttpGet), Some(&1));
            assert!(path_parameters.is_empty());
        }
        _ => panic!("Expected NonAsgi handler group"),
    }
}

#[test]
fn mod_init_one_route() {
    let mut route_map: RouteMap<u64> = RouteMap::new();

    route_map.add_routes(vec![http_route("/test", &[("GET", 11)])]).unwrap();

    assert!(node_empty(&route_map.nodes[0]));
    assert_eq!(route_map.plain_routes.len(), 1);
    assert_eq!(route_map.plain_routes[0].0, "/test");

    let group = &route_map.plain_routes[0].1;
    assert_eq!(method_entry(group, HandlerType::HttpGet), Some(11));
    assert_eq!(method_entry(group, HandlerType::HttpPost), None);
}

#[test]
fn init_one_route_multiple_methods() {
    let mut route_map: RouteMap<u64> = RouteMap::new();

    route_map
        .add_routes(vec![http_route(
            "/test",
            &[("GET", 1), ("POST", 2), ("DELETE", 3)],
        )])
        .unwrap();

    assert_eq!(route_map.plain_routes.len(), 1);
    assert_eq!(route_map.plain_routes[0].0, "/test");

    let group = &route_map.plain_routes[0].1;
    match group {
        HandlerGroup::NonAsgi { path_parameters, asgi_handlers } => {
            assert_eq!(asgi_handlers.len(), 3);
            assert!(path_parameters.is_empty());
        }
        _ => panic!("Expected NonAsgi handler group"),
    }
    assert_eq!(method_entry(group, HandlerType::HttpGet), Some(1));
    assert_eq!(method_entry(group, HandlerType::HttpPost), Some(2));
    assert_eq!(method_entry(group, HandlerType::HttpDelete), Some(3));
    assert_eq!(method_entry(group, HandlerType::HttpPatch), None);
}

#[test]
fn init_one_route_with_path() {
    let mut route_map: RouteMap<u64> = RouteMap::new();

    let route = http_route_with_params(
        "/articles/{id:str}",
        vec![param("id", "id:str")],
        &[("GET", 1)],
    );

    route_map.add_route(route).unwrap();

    assert!(route_map.static_paths.is_empty());
    assert!(route_map.plain_routes.is_empty());

    let node = &route_map.nodes[0];
    assert!(node.handler_group.is_none());
    assert!(node.placeholder_child.is_none());
    assert_eq!(node.children.len(), 1);
    assert_eq!(node.children[0].0, "articles");

    let node = &route_map.nodes[node.children[0].1];
    assert!(node.handler_group.is_none());
    assert!(node.children.is_empty());

    let node = &route_map.nodes[node.placeholder_child.unwrap()];
    assert!(node.children.is_empty());
    assert!(node.placeholder_child.is_none());

    let handler_group = node.handler_group.as_ref().unwrap();
    match handler_group {
        HandlerGroup::NonAsgi { path_parameters, asgi_handlers } => {
            assert_eq!(get_handler(asgi_handlers, &HandlerType::HttpGet), Some(&1));
            assert_eq!(path_parameters.len(), 1);
        }
        _ => panic!("expected NonAsgi Handler Group"),
    }
}

#[test]
fn mod_init_one_route_with_path() {
    let mut route_map: RouteMap<u64> = RouteMap::new();

    let route = http_route_with_params(
        "/articles/{id:str}",
        vec![param("id", "id:str")],
        &[("GET", 21)],
    );

    route_map.add_routes(vec![route]).unwrap();

    let root = &route_map.nodes[0];
    assert_eq!(root.children.len(), 1);
    assert_eq!(root.children[0].0, "articles");

    let articles = &route_map.nodes[root.children[0].1];
    let terminal = &route_map.nodes[articles.placeholder_child.unwrap()];

    match terminal.handler_group.as_ref().unwrap() {
        HandlerGroup::NonAsgi { path_parameters, asgi_handlers } => {
            assert_eq!(path_parameters.len(), 1);
            assert_eq!(path_parameters[0].name, "id");
            assert_eq!(path_parameters[0].full, "id:str");
            assert_eq!(asgi_handlers.len(), 1);
            assert_eq!(get_handler(asgi_handlers, &HandlerType::HttpGet), Some(&21));
        }
        _ => panic!("expected NonAsgi Handler Group"),
    }
}

#[test]
fn init_one_route_multiple_methods_with_path() {
    let mut route_map: RouteMap<u64> = RouteMap::new();

    let route = http_route_with_params(
        "/test/{val:int}",
        vec![param("val", "val:int")],
        &[("GET", 1), ("POST", 2), ("DELETE", 3)],
    );

    route_map.add_routes(vec![route]).unwrap();

    let root = &route_map.nodes[0];
    assert_eq!(root.children.len(), 1);
    assert_eq!(root.children[0].0, "test");

    let test_node = &route_map.nodes[root.children[0].1];
    assert!(test_node.children.is_empty());
    let terminal = &route_map.nodes[test_node.placeholder_child.unwrap()];
    assert!(terminal.children.is_empty());
    assert!(terminal.placeholder_child.is_none());

    match terminal.handler_group.as_ref().unwrap() {
        HandlerGroup::NonAsgi { path_parameters, asgi_handlers } => {
            assert_eq!(path_parameters.len(), 1);
            assert_eq!(path_parameters[0].name, "val");
            assert_eq!(path_parameters[0].full, "val:int");
            assert_eq!(asgi_handlers.len(), 3);
            assert_eq!(get_handler(asgi_handlers, &HandlerType::HttpGet), Some(&1));
            assert_eq!(get_handler(asgi_handlers, &HandlerType::HttpPost), Some(&2));
            assert_eq!(get_handler(asgi_handlers, &HandlerType::HttpDelete), Some(&3));
        }
        _ => panic!("expected NonAsgi Handler Group"),
    }
}

#[test]
fn init_one_deep_path() {
    let mut route_map: RouteMap<u64> = RouteMap::new();
    let mut path = vec!["a"; 50_000].join("/");
    // Ensure path has a placeholder
    path.insert_str(0, "/{x:str}/");
    let route = http_route_with_params(&path, vec![param("x", "x:str")], &[("GET", 1)]);

    route_map.add_route(route).unwrap();
    drop(route_map);
}

#[test]
fn simple_route() {
    let mut route_map: RouteMap<u64> = RouteMap::new();
    let routes = vec![
        http_route("/", &[("GET", 1)]),
        http_route("/", &[("POST", 2)]),
        http_route("/a", &[("GET", 3)]),
    ];
    route_map.add_routes(routes).unwrap();

    let keys: Vec<&str> = route_map.plain_routes.iter().map(|e| e.0.as_str()).collect();
    assert_eq!(keys, vec!["/", "/a"]);
    assert!(route_map.static_paths.is_empty());
    assert!(node_empty(&route_map.nodes[0]));

    let base_handlers = &route_map.plain_routes[0].1;
    match base_handlers {
        HandlerGroup::NonAsgi { path_parameters, asgi_handlers } => {
            assert_eq!(get_handler(asgi_handlers, &HandlerType::HttpGet), Some(&1));
            assert_eq!(get_handler(asgi_handlers, &HandlerType::HttpPost), Some(&2));
            assert!(path_parameters.is_empty());
        }
        _ => panic!("Expected non asgi handler"),
    }

    let a_handlers = &route_map.plain_routes[1].1;
    match a_handlers {
        HandlerGroup::NonAsgi { path_parameters, asgi_handlers } => {
            assert_eq!(get_handler(asgi_handlers, &HandlerType::HttpGet), Some(&3));
            assert_eq!(get_handler(asgi_handlers, &HandlerType::HttpPost), None);
            assert!(path_parameters.is_empty());
        }
        _ => panic!("Expected non asgi handler"),
    }

    let found = route_map.find_handler_group("/").unwrap();
    assert_eq!(method_entry(found.handler_group, HandlerType::HttpGet), Some(1));
    assert_eq!(method_entry(found.handler_group, HandlerType::HttpPost), Some(2));

    let found_a = route_map.find_handler_group("/a").unwrap();
    assert_eq!(method_entry(found_a.handler_group, HandlerType::HttpGet), Some(3));
}

#[test]
fn plain_route_normalize() {
    let mut route_map: RouteMap<u64> = RouteMap::new();
    let route = http_route("/a/b", &[("GET", 1)]);
    route_map.add_route(route).unwrap();

    route_map.find_handler_group("/a/b/").unwrap();
}

#[test]
fn static_route_must_be_catchall() {
    let mut route_map: RouteMap<u64> = RouteMap::new();
    route_map.add_static_path("/assets");

    let err = route_map.add_route(http_route("/assets", &[("GET", 1)])).unwrap_err();
    assert!(matches!(err, ConfigError::StaticNotAsgi { .. }));
}

#[test]
fn static_route_may_not_have_parameters() {
    let mut route_map: RouteMap<u64> = RouteMap::new();
    route_map.add_static_path("/assets");

    let route: Route<u64> = Route::Asgi {
        path: "/assets".to_string(),
        path_parameters: vec![param("x", "x:str")],
        handler: 1,
    };
    let err = route_map.add_route(route).unwrap_err();
    assert!(matches!(err, ConfigError::StaticWithParams { .. }));
}

#[test]
fn unknown_route_kind_is_rejected() {
    let mut route_map: RouteMap<u64> = RouteMap::new();

    let route: Route<u64> = Route::Other {
        path: "/o".to_string(),
        path_parameters: vec![],
        kind_name: "MountRoute".to_string(),
    };
    let err = route_map.add_route(route).unwrap_err();
    match err {
        ConfigError::UnknownRouteType { kind_name } => assert_eq!(kind_name, "MountRoute"),
        _ => panic!("expected an unknown-route-kind error"),
    }
}

#[test]
fn conflicting_path_parameters_are_rejected() {
    let mut route_map: RouteMap<u64> = RouteMap::new();

    let first = http_route_with_params("/a/{id:str}", vec![param("id", "id:str")], &[("GET", 1)]);
    route_map.add_route(first).unwrap();

    // Same trie position, different parameter definitions.
    let second = http_route_with_params("/a/{id:int}", vec![param("id", "id:int")], &[("POST", 2)]);
    let err = route_map.add_route(second).unwrap_err();
    assert!(matches!(err, ConfigError::ConflictingPathParams { .. }));
}

#[test]
fn routes_below_static_are_rejected() {
    let mut route_map: RouteMap<u64> = RouteMap::new();
    route_map.add_static_path("/files");

    let static_route: Route<u64> = Route::Asgi {
        path: "/files".to_string(),
        path_parameters: vec![],
        handler: 1,
    };
    route_map.add_route(static_route).unwrap();

    // A parameterized declaration whose key lands on the same trie node.
    let below = http_route_with_params("files", vec![param("x", "x:str")], &[("GET", 2)]);
    let err = route_map.add_route(below).unwrap_err();
    assert!(matches!(err, ConfigError::RoutesBelowStatic { .. }));
}

#[test]
fn static_path_set_operations() {
    let mut route_map: RouteMap<u64> = RouteMap::new();

    assert!(!route_map.is_static_path("/s"));
    route_map.add_static_path("/s");
    assert!(route_map.is_static_path("/s"));
    route_map.add_static_path("/s");
    assert_eq!(route_map.static_paths.len(), 1);

    assert!(route_map.remove_static_path("/s"));
    assert!(!route_map.is_static_path("/s"));
    assert!(!route_map.remove_static_path("/s"));
}

#[test]
fn plain_route_membership() {
    let mut route_map: RouteMap<u64> = RouteMap::new();
    route_map.add_route(http_route("/test", &[("GET", 1)])).unwrap();

    assert!(route_map.is_plain_route("/test"));
    assert!(!route_map.is_plain_route("/nope"));
}

#[test]
fn http_method_names_round_trip() {
    assert!(matches!(HandlerType::from_http_method("GET"), HandlerType::HttpGet));
    assert!(matches!(HandlerType::from_http_method("POST"), HandlerType::HttpPost));
    assert!(matches!(HandlerType::from_http_method("DELETE"), HandlerType::HttpDelete));
    assert!(matches!(HandlerType::from_http_method("PATCH"), HandlerType::HttpPatch));
    assert!(matches!(HandlerType::from_http_method("PUT"), HandlerType::HttpPut));
    assert!(matches!(HandlerType::from_http_method("HEAD"), HandlerType::HttpHead));
    match HandlerType::from_http_method("BREW") {
        HandlerType::HttpOther(name) => assert_eq!(name, "BREW"),
        _ => panic!("expected the fall-through method kind"),
    }

    assert_eq!(HandlerType::HttpGet.method_name(), "GET");
    assert_eq!(HandlerType::Websocket.method_name(), "WEBSOCKET");
    assert_eq!(HandlerType::HttpOther("BREW".to_string()).method_name(), "BREW");
}
