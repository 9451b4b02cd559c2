use route_map::params::path_parameters_eq;
use route_map::util::{get_base_components, normalize_path};
use route_map::PathParam;

fn param(name: &str, full: &str) -> PathParam {
    PathParam { name: name.to_string(), full: full.to_string() }
}

#[test]
fn get_base_components_root() {
    let path = "/";

    let components = get_base_components(path);

    assert_eq!(components, vec!["/".to_string()]);
}

#[test]
fn get_base_components_plain() {
    let path = "/healthcheck";

    let components = get_base_components(path);

    assert_eq!(components, vec!["/".to_string(), "healthcheck".to_string()]);
}

#[test]
fn get_base_components_two() {
    let path = "/articles/new";

    let components = get_base_components(path);

    assert_eq!(
        components,
        vec!["/".to_string(), "articles".to_string(), "new".to_string()]
    );
}

#[test]
fn get_base_components_one_path_param() {
    let path = "/articles/*";

    let components = get_base_components(path);

    assert_eq!(
        components,
        vec!["/".to_string(), "articles".to_string(), "*".to_string()]
    );
}

#[test]
fn path_parameters_eq_empty_eq() {
    let path_parameters_a: Vec<PathParam> = vec![];
    let path_parameters_b: Vec<PathParam> = vec![];

    let eq = path_parameters_eq(&path_parameters_a, &path_parameters_b);

    assert!(eq);
}

#[test]
fn path_parameters_eq_one_eq() {
    let parameter1 = param("param", "param:int");
    let parameter2 = param("param", "param:int");

    let path_parameters_a = vec![parameter1];
    let path_parameters_b = vec![parameter2];

    let eq = path_parameters_eq(&path_parameters_a, &path_parameters_b);

    assert!(eq);
}

#[test]
fn path_parameters_eq_one_neq() {
    let parameter1 = param("param", "param:int");
    let parameter2 = param("param", "param:str");

    let path_parameters_a = vec![parameter1];
    let path_parameters_b = vec![parameter2];

    let eq = path_parameters_eq(&path_parameters_a, &path_parameters_b);

    assert!(!eq);
}

#[test]
fn normalize_collapses_and_strips() {
    assert_eq!(normalize_path("//a//b/"), "/a/b");
}

#[test]
fn normalize_already_normalized_is_noop() {
    for p in ["/", "/a", "/a/b", "/articles/42", "/a b/c"] {
        assert_eq!(normalize_path(p), p);
    }
}

#[test]
fn normalize_edge_cases() {
    assert_eq!(normalize_path(""), "/");
    assert_eq!(normalize_path("   "), "/");
    assert_eq!(normalize_path("a"), "/a");
    assert_eq!(normalize_path("a/"), "/a");
    assert_eq!(normalize_path(" /x/y/ "), "/x/y");
    assert_eq!(normalize_path("///"), "/");
}
