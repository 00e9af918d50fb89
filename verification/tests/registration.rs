use router::route::new_route;
use router::router::{new_router, AddRouteError, Router, Tree};

fn add(router: &mut Router<u32>, raw: &str, item: u32) -> Result<(), AddRouteError> {
    router.add_route(&new_route(raw).unwrap(), item)
}

fn find(router: &mut Router<u32>, raw: &str) -> Option<u32> {
    router.route(&new_route(raw).unwrap()).map(|(item, _)| *item)
}

#[test]
fn new_router_is_an_empty_wildcard_root() {
    let r: Router<u32> = new_router();
    assert!(matches!(&r.tree, Tree::Wildcard(children) if children.is_empty()));
}

#[test]
fn registration_builds_one_branch() {
    let mut r: Router<u32> = new_router();
    add(&mut r, "/a/:p/*", 5).unwrap();
    let Tree::Wildcard(root) = &r.tree else {
        panic!("the root is a wildcard node")
    };
    assert_eq!(root.len(), 1);
    let Tree::Specific(name, below_a) = &root[0] else {
        panic!("a literal segment makes a specific node")
    };
    assert_eq!(name, "a");
    let Tree::Parameter(name, below_p) = &below_a[0] else {
        panic!("a segment with a colon makes a parameter node")
    };
    assert_eq!(name, ":p");
    let Tree::Wildcard(below_star) = &below_p[0] else {
        panic!("a star makes a wildcard node")
    };
    assert!(matches!(&below_star[0], Tree::Leaf(5, true)));
}

#[test]
fn leaf_is_a_catch_all_only_behind_a_wildcard() {
    let mut r: Router<u32> = new_router();
    add(&mut r, "/a", 1).unwrap();
    let Tree::Wildcard(root) = &r.tree else {
        panic!("the root is a wildcard node")
    };
    let Tree::Specific(_, below) = &root[0] else {
        panic!("a literal segment makes a specific node")
    };
    assert!(matches!(&below[0], Tree::Leaf(1, false)));
}

#[test]
fn literal_siblings_branch() {
    let mut r: Router<u32> = new_router();
    add(&mut r, "/a", 1).unwrap();
    add(&mut r, "/b", 2).unwrap();
    add(&mut r, "/c/d", 3).unwrap();
    add(&mut r, "/c/e", 4).unwrap();
    assert_eq!(find(&mut r, "/a"), Some(1));
    assert_eq!(find(&mut r, "/b"), Some(2));
    assert_eq!(find(&mut r, "/c/d"), Some(3));
    assert_eq!(find(&mut r, "/c/e"), Some(4));
    assert_eq!(find(&mut r, "/c"), None);
}

#[test]
fn same_path_twice_is_a_leaf_collision() {
    let mut r: Router<u32> = new_router();
    add(&mut r, "/a/b", 1).unwrap();
    let err = add(&mut r, "/a/b", 2).unwrap_err();
    assert!(matches!(err, AddRouteError::AddToLeafLevel));
    assert_eq!(
        err.message(),
        "tried to add a path so that a leaf would be on another longer path"
    );
}

#[test]
fn longer_path_through_a_leaf_is_a_leaf_collision() {
    let mut r: Router<u32> = new_router();
    add(&mut r, "/a/b", 1).unwrap();
    assert!(matches!(
        add(&mut r, "/a/b/c", 2),
        Err(AddRouteError::AddToLeafLevel)
    ));
}

#[test]
fn shorter_path_inside_a_longer_one_is_a_leaf_collision() {
    let mut r: Router<u32> = new_router();
    add(&mut r, "/a/b/c", 1).unwrap();
    assert!(matches!(
        add(&mut r, "/a/b", 2),
        Err(AddRouteError::AddToLeafLevel)
    ));
    assert!(matches!(
        add(&mut r, "/a", 2),
        Err(AddRouteError::AddToLeafLevel)
    ));
}

#[test]
fn parameter_paths_of_different_length_collide() {
    let mut r: Router<u32> = new_router();
    add(&mut r, "/one/:first/:second", 1).unwrap();
    assert!(matches!(
        add(&mut r, "/one/:first", 2),
        Err(AddRouteError::AddToLeafLevel)
    ));

    let mut r: Router<u32> = new_router();
    add(&mut r, "/one/:first", 2).unwrap();
    assert!(matches!(
        add(&mut r, "/one/:first/:second", 1),
        Err(AddRouteError::AddToLeafLevel)
    ));
}

#[test]
fn literal_beside_a_wildcard_is_a_type_mismatch() {
    let mut r: Router<u32> = new_router();
    add(&mut r, "/a/*/c", 1).unwrap();
    let err = add(&mut r, "/a/b/c", 2).unwrap_err();
    match &err {
        AddRouteError::MismatchTypes(first, second) => {
            assert_eq!(first, "Wildcard");
            assert_eq!(second, "Specific");
        }
        _ => panic!("a wildcard refuses a literal"),
    }
    assert_eq!(
        err.message(),
        "tried to add path so that two different types of parts collide: Wildcard and Specific"
    );
}

#[test]
fn parameter_beside_a_wildcard_is_a_type_mismatch() {
    let mut r: Router<u32> = new_router();
    add(&mut r, "/a/*/c", 1).unwrap();
    assert!(matches!(
        add(&mut r, "/a/:p/c", 2),
        Err(AddRouteError::MismatchTypes(_, _))
    ));
}

#[test]
fn wildcard_beside_a_literal_is_a_type_mismatch() {
    let mut r: Router<u32> = new_router();
    add(&mut r, "/a/b/c", 1).unwrap();
    let err = add(&mut r, "/a/*/c", 2).unwrap_err();
    match &err {
        AddRouteError::MismatchTypes(first, second) => {
            assert_eq!(first, "Specific/Parameter");
            assert_eq!(second, "Wildcard");
        }
        _ => panic!("a wildcard gets no siblings"),
    }
    assert_eq!(
        err.message(),
        "tried to add path so that two different types of parts collide: Specific/Parameter and Wildcard"
    );
}

#[test]
fn other_segment_beside_a_parameter_is_a_parameter_mismatch() {
    let mut r: Router<u32> = new_router();
    add(&mut r, "/a/:p/c", 1).unwrap();
    for raw in ["/a/b/c", "/a/:q/c", "/a/*/c"] {
        let segment = new_route(raw).unwrap().path[1].to_owned();
        let err = add(&mut r, raw, 2).unwrap_err();
        match &err {
            AddRouteError::MismatchParameter(first, second) => {
                assert_eq!(first, ":p");
                assert_eq!(second, &segment);
            }
            _ => panic!("a parameter refuses every other segment"),
        }
        assert_eq!(
            err.message(),
            format!(
                "tried to add path so that a paramter and another part collide: :p and {}",
                segment
            )
        );
    }
}

#[test]
fn parameter_beside_a_literal_is_a_parameter_mismatch() {
    let mut r: Router<u32> = new_router();
    add(&mut r, "/a/b/c", 1).unwrap();
    let err = add(&mut r, "/a/:p/c", 2).unwrap_err();
    match &err {
        AddRouteError::MismatchParameter(first, second) => {
            assert_eq!(first, ":p");
            assert_eq!(second, "other");
        }
        _ => panic!("a parameter gets no siblings"),
    }
}

#[test]
fn same_parameter_name_continues_in_the_same_node() {
    let mut r: Router<u32> = new_router();
    add(&mut r, "/a/:p/c", 1).unwrap();
    add(&mut r, "/a/:p/d", 2).unwrap();
    assert_eq!(find(&mut r, "/a/x/c"), Some(1));
    assert_eq!(find(&mut r, "/a/x/d"), Some(2));
}

#[test]
fn parameter_names_are_per_node() {
    let mut r: Router<u32> = new_router();
    add(&mut r, "/a/:x", 1).unwrap();
    add(&mut r, "/b/:y", 2).unwrap();
    assert_eq!(find(&mut r, "/a/1"), Some(1));
    assert_eq!(find(&mut r, "/b/1"), Some(2));
}

#[test]
fn first_level_follows_the_same_rules() {
    let mut r: Router<u32> = new_router();
    add(&mut r, "/a", 1).unwrap();
    assert!(matches!(
        add(&mut r, "/*", 2),
        Err(AddRouteError::MismatchTypes(_, _))
    ));
    assert!(matches!(
        add(&mut r, "/:p", 2),
        Err(AddRouteError::MismatchParameter(_, _))
    ));
    let mut r: Router<u32> = new_router();
    add(&mut r, "/*", 1).unwrap();
    assert!(matches!(
        add(&mut r, "/a", 2),
        Err(AddRouteError::MismatchTypes(_, _))
    ));
}

#[test]
fn refused_registration_leaves_the_router_as_it_was() {
    let mut r: Router<u32> = new_router();
    add(&mut r, "/a/b/c", 1).unwrap();
    add(&mut r, "/a/x/:p", 2).unwrap();
    let before = format!("{:?}", shape(&r.tree));
    assert!(add(&mut r, "/a/b", 3).is_err());
    assert!(add(&mut r, "/a/*/z", 3).is_err());
    assert!(add(&mut r, "/a/x/y", 3).is_err());
    assert!(add(&mut r, "/a/b/c/d/e/f", 3).is_err());
    assert_eq!(format!("{:?}", shape(&r.tree)), before);
    assert_eq!(find(&mut r, "/a/b/c"), Some(1));
    assert_eq!(find(&mut r, "/a/x/anything"), Some(2));
    assert_eq!(find(&mut r, "/a/b"), None);
}

fn shape(tree: &Tree<u32>) -> Vec<String> {
    match tree {
        Tree::Leaf(item, catch_all) => vec![format!("={}{}", item, catch_all)],
        Tree::Wildcard(children) => below("*", children),
        Tree::Specific(name, children) => below(name, children),
        Tree::Parameter(name, children) => below(name, children),
    }
}

fn below(label: &str, children: &[Tree<u32>]) -> Vec<String> {
    let mut lines = vec![format!("{}[{}]", label, children.len())];
    for child in children {
        for line in shape(child) {
            lines.push(format!("{}/{}", label, line));
        }
    }
    lines
}

#[test]
fn empty_segment_is_a_literal() {
    let mut r: Router<u32> = new_router();
    add(&mut r, "/a//b", 1).unwrap();
    assert_eq!(find(&mut r, "/a//b"), Some(1));
    assert_eq!(find(&mut r, "/a/x/b"), None);
}

#[test]
fn registration_keeps_the_router_well_formed() {
    let mut r: Router<u32> = new_router();
    assert!(r.is_well_formed());
    for (raw, item) in [
        ("/a/b/c", 1),
        ("/a/b/d", 2),
        ("/a/x/:p/*", 3),
        ("/b/*/c", 4),
        ("/c/:p", 5),
        ("/a/b", 6),
        ("/b/x", 7),
        ("/c/:q", 8),
    ] {
        let _ = add(&mut r, raw, item);
        assert!(r.is_well_formed());
    }
    {
        let (item, _) = r.route(&new_route("/a/x/1/2/3").unwrap()).unwrap();
        *item = 30;
    }
    assert!(r.is_well_formed());
}

#[test]
fn trees_put_together_by_hand_may_be_ill_formed() {
    let leaf = |flag: bool| Tree::Leaf(0u32, flag);
    let well = |tree: Tree<u32>| Router { tree }.is_well_formed();
    let lit = |name: &str, below: Vec<Tree<u32>>| Tree::Specific(name.to_owned(), below);

    assert!(well(Tree::Wildcard(vec![lit("a", vec![leaf(false)])])));
    assert!(well(Tree::Wildcard(vec![
        lit("a", vec![leaf(false)]),
        lit("b", vec![Tree::Wildcard(vec![leaf(true)])]),
    ])));
    // the root is not a wildcard node
    assert!(!well(lit("a", vec![leaf(false)])));
    // two specific nodes with one name
    assert!(!well(Tree::Wildcard(vec![
        lit("a", vec![leaf(false)]),
        lit("a", vec![leaf(false)]),
    ])));
    // a wildcard with a sibling
    assert!(!well(Tree::Wildcard(vec![
        Tree::Wildcard(vec![leaf(true)]),
        lit("a", vec![leaf(false)]),
    ])));
    // a leaf with a sibling
    assert!(!well(Tree::Wildcard(vec![lit(
        "a",
        vec![leaf(false), lit("b", vec![leaf(false)])]
    )])));
    // a catch-all leaf behind a literal, and a plain leaf behind a wildcard
    assert!(!well(Tree::Wildcard(vec![lit("a", vec![leaf(true)])])));
    assert!(!well(Tree::Wildcard(vec![Tree::Wildcard(vec![leaf(
        false
    )])])));
    // a node that leads nowhere
    assert!(!well(Tree::Wildcard(vec![lit("a", vec![])])));
    // names of the wrong kind
    assert!(!well(Tree::Wildcard(vec![lit("*", vec![leaf(false)])])));
    assert!(!well(Tree::Wildcard(vec![lit(":p", vec![leaf(false)])])));
    assert!(!well(Tree::Wildcard(vec![Tree::Parameter(
        "p".to_owned(),
        vec![leaf(false)]
    )])));
    assert!(well(Tree::Wildcard(vec![Tree::Parameter(
        ":p".to_owned(),
        vec![leaf(false)]
    )])));
}
