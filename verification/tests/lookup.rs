use router::params::Params;
use router::route::new_route;
use router::router::{new_router, Router};

fn router_with(routes: &[(&str, u32)]) -> Router<u32> {
    let mut router = new_router();
    for (raw, item) in routes {
        router.add_route(&new_route(raw).unwrap(), *item).unwrap();
    }
    router
}

fn lookup(router: &mut Router<u32>, raw: &str) -> Option<(u32, Params)> {
    router
        .route(&new_route(raw).unwrap())
        .map(|(item, params)| (*item, params))
}

fn bindings(pairs: &[(&str, &str)]) -> Params {
    let mut params = Params::new();
    for (name, value) in pairs {
        params.insert((*name).to_owned(), (*value).to_owned());
    }
    params
}

#[test]
fn empty_router_finds_nothing() {
    let mut r: Router<u32> = new_router();
    assert_eq!(lookup(&mut r, "/a"), None);
    assert_eq!(lookup(&mut r, "/*"), None);
}

#[test]
fn registered_pattern_answers_for_every_matching_path() {
    let mut r = router_with(&[("/users/:id/posts/*/:slug", 7)]);
    for (user, any, slug) in [("1", "x", "hello"), ("ann", "", "a-b"), (":id", "*", ":slug")] {
        let raw = format!("/users/{}/posts/{}/{}", user, any, slug);
        assert_eq!(
            lookup(&mut r, &raw),
            Some((7, bindings(&[(":id", user), (":slug", slug)])))
        );
    }
}

#[test]
fn literal_route_binds_nothing() {
    let mut r = router_with(&[("/a/b", 1)]);
    assert_eq!(lookup(&mut r, "/a/b"), Some((1, Params::new())));
}

#[test]
fn literal_match_is_exact_and_case_sensitive() {
    let mut r = router_with(&[("/abc", 1)]);
    assert_eq!(lookup(&mut r, "/abc").map(|found| found.0), Some(1));
    assert_eq!(lookup(&mut r, "/Abc"), None);
    assert_eq!(lookup(&mut r, "/abcd"), None);
    assert_eq!(lookup(&mut r, "/ab"), None);
}

#[test]
fn path_of_another_length_is_not_found() {
    let mut r = router_with(&[("/a/:p/c", 1)]);
    assert_eq!(lookup(&mut r, "/a/x"), None);
    assert_eq!(lookup(&mut r, "/a"), None);
    assert_eq!(lookup(&mut r, "/a/x/c/d"), None);
    assert_eq!(lookup(&mut r, "/a/x/c").map(|found| found.0), Some(1));
}

#[test]
fn unrelated_path_is_not_found() {
    let mut r = router_with(&[("/abc/*/:cde", 20), ("/fgh/:param/*", 10)]);
    assert_eq!(lookup(&mut r, "/this/does/not/exist"), None);
    assert_eq!(lookup(&mut r, "/xyz/a/b"), None);
}

#[test]
fn trailing_wildcard_swallows_what_follows() {
    let mut r = router_with(&[("/fgh/:param/*", 10)]);
    assert_eq!(
        lookup(&mut r, "/fgh/set_param/this/is/aLonger/path"),
        Some((10, bindings(&[(":param", "set_param")])))
    );
    assert_eq!(
        lookup(&mut r, "/fgh/set_param/one"),
        Some((10, bindings(&[(":param", "set_param")])))
    );
}

#[test]
fn trailing_wildcard_needs_a_segment_of_its_own() {
    let mut r = router_with(&[("/fgh/:param/*", 10)]);
    assert_eq!(lookup(&mut r, "/fgh/set_param"), None);
    assert_eq!(lookup(&mut r, "/fgh"), None);
}

#[test]
fn inner_wildcard_stands_for_one_segment() {
    let mut r = router_with(&[("/a/*/c", 1)]);
    assert_eq!(lookup(&mut r, "/a/b/c"), Some((1, Params::new())));
    assert_eq!(lookup(&mut r, "/a/b/b/c"), None);
    assert_eq!(lookup(&mut r, "/a/c"), None);
}

#[test]
fn trailing_parameter_stands_for_one_segment() {
    let mut r = router_with(&[("/a/:p", 1)]);
    assert_eq!(lookup(&mut r, "/a/b"), Some((1, bindings(&[(":p", "b")]))));
    assert_eq!(lookup(&mut r, "/a/b/c"), None);
}

#[test]
fn parameter_name_keeps_its_colon() {
    let mut r = router_with(&[("/:id", 1)]);
    let (_, params) = lookup(&mut r, "/5").unwrap();
    assert_eq!(params.get(":id"), Some(&"5".to_owned()));
    assert_eq!(params.get("id"), None);
    assert_eq!(params.len(), 1);
}

#[test]
fn repeated_parameter_name_keeps_its_first_capture() {
    let mut r = router_with(&[("/:a/x/:a", 1)]);
    assert_eq!(
        lookup(&mut r, "/first/x/second"),
        Some((1, bindings(&[(":a", "first")])))
    );
}

#[test]
fn bindings_come_from_the_matching_branch_only() {
    let mut r = router_with(&[("/a/:x/end", 1), ("/b/:y/end", 2), ("/c/lit", 3)]);
    assert_eq!(
        lookup(&mut r, "/b/val/end"),
        Some((2, bindings(&[(":y", "val")])))
    );
    assert_eq!(lookup(&mut r, "/c/lit"), Some((3, Params::new())));
    assert_eq!(lookup(&mut r, "/a/val/other"), None);
}

#[test]
fn lookup_twice_finds_the_same() {
    let mut r = router_with(&[("/a/:p/*", 1), ("/b", 2)]);
    for raw in ["/a/x/y/z", "/b", "/a/x", "/nothing"] {
        let first = lookup(&mut r, raw);
        let second = lookup(&mut r, raw);
        assert_eq!(first, second);
    }
}

#[test]
fn found_value_can_be_written() {
    let mut r = router_with(&[("/a/:p", 1), ("/b", 2)]);
    {
        let (item, _) = r.route(&new_route("/a/x").unwrap()).unwrap();
        *item = 100;
    }
    assert_eq!(lookup(&mut r, "/a/y").map(|found| found.0), Some(100));
    assert_eq!(lookup(&mut r, "/b").map(|found| found.0), Some(2));
    let refused = r.add_route(&new_route("/a/:p").unwrap(), 3);
    assert!(refused.is_err());
}

#[test]
fn lookup_takes_path_segments_literally() {
    let mut r = router_with(&[("/a/b", 1)]);
    assert_eq!(lookup(&mut r, "/a/*"), None);
    assert_eq!(lookup(&mut r, "/a/:p"), None);
    let mut r = router_with(&[("/a/*", 1)]);
    assert_eq!(lookup(&mut r, "/a/*"), Some((1, Params::new())));
}
