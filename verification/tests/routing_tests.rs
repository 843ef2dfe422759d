use pico::Method;
use pico::RouteTree;

#[test]
fn literal_route_resolves_exactly() {
    let mut tree = RouteTree::new();
    let key = tree.insert_path("/ping");
    assert_eq!(key, "ping");
    let (k, binds) = tree.resolve("/ping").unwrap();
    assert_eq!(k, "ping");
    assert!(binds.is_empty());
    assert!(tree.resolve("/pong").is_none());
}

#[test]
fn parameterized_route_binds_segment() {
    let mut tree = RouteTree::new();
    let key = tree.insert_path("/users/:id");
    assert_eq!(key, "users/:id");
    let (k, binds) = tree.resolve("/users/42").unwrap();
    assert_eq!(k, "users/:id");
    assert_eq!(binds, vec![(":id".to_string(), "42".to_string())]);
    let (k2, binds2) = tree.resolve("/users/alice").unwrap();
    assert_eq!(k2, "users/:id");
    assert_eq!(binds2, vec![(":id".to_string(), "alice".to_string())]);
}

#[test]
fn slash_spellings_resolve_identically() {
    let mut tree = RouteTree::new();
    tree.insert_path("/a/b");
    let plain = tree.resolve("/a/b").unwrap();
    let trailing = tree.resolve("/a/b/").unwrap();
    let doubled = tree.resolve("//a//b").unwrap();
    assert_eq!(plain, trailing);
    assert_eq!(plain, doubled);
}

#[test]
fn literal_child_wins_over_wildcard() {
    let mut tree = RouteTree::new();
    tree.insert_path("/users/:id");
    tree.insert_path("/users/me");
    let (k, binds) = tree.resolve("/users/me").unwrap();
    assert_eq!(k, "users/me");
    assert!(binds.is_empty());
    let (k2, _) = tree.resolve("/users/you").unwrap();
    assert_eq!(k2, "users/:id");
}

#[test]
fn deep_mixed_route() {
    let mut tree = RouteTree::new();
    let key = tree.insert_path("/api/:version/items/:id");
    assert_eq!(key, "api/:version/items/:id");
    let (k, binds) = tree.resolve("/api/v2/items/7").unwrap();
    assert_eq!(k, "api/:version/items/:id");
    assert_eq!(
        binds,
        vec![
            (":version".to_string(), "v2".to_string()),
            (":id".to_string(), "7".to_string()),
        ],
    );
    // A shorter path resolves to a prefix key, which no route table entry
    // would carry; a longer one finds no child and fails outright.
    let (prefix_key, _) = tree.resolve("/api/v2/items").unwrap();
    assert_eq!(prefix_key, "api/:version/items");
    assert!(tree.resolve("/api/v2/items/7/extra").is_none());
}

#[test]
fn wildcard_nodes_are_shared_by_first_name() {
    let mut tree = RouteTree::new();
    let k1 = tree.insert_path("/files/:name");
    let k2 = tree.insert_path("/files/:other");
    assert_eq!(k1, "files/:name");
    assert_eq!(k2, "files/:name");
}

#[test]
fn empty_path_resolves_to_root_key() {
    let mut tree = RouteTree::new();
    tree.insert_path("/ping");
    let (k, binds) = tree.resolve("/").unwrap();
    assert_eq!(k, "");
    assert!(binds.is_empty());
}

#[test]
fn tree_listing_shows_children_indented() {
    let mut tree = RouteTree::new();
    tree.insert_path("/a/b");
    let s = tree.to_string();
    assert_eq!(s, "a:\n  b:\n");
}

#[test]
fn method_parsing_is_case_insensitive() {
    assert_eq!(Method::from_str("GET"), Ok(Method::GET));
    assert_eq!(Method::from_str("get"), Ok(Method::GET));
    assert_eq!(Method::from_str("PoSt"), Ok(Method::POST));
    assert_eq!(Method::from_str("put"), Ok(Method::PUT));
    assert_eq!(Method::from_str("DELETE"), Ok(Method::DELETE));
    assert_eq!(Method::from_str("sse"), Ok(Method::SSE));
    assert_eq!(Method::from_str("ws_upgrade?"), Ok(Method::WS));
    assert_eq!(Method::from_str("brew"), Err(()));
    assert_eq!(Method::GET.as_str(), "GET");
}
