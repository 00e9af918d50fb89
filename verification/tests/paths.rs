use router::route::new_route;
use router::segment::{is_parameter_segment, is_wildcard_segment, str_eq};

#[test]
fn empty_string_is_malformed() {
    let err = new_route("").err().unwrap();
    assert_eq!(err.raw(), "");
    assert_eq!(err.message(), "This route is malformed: ");
}

#[test]
fn missing_leading_slash_is_malformed() {
    let err = new_route("no-leading-slash").err().unwrap();
    assert_eq!(err.raw(), "no-leading-slash");
    assert_eq!(err.message(), "This route is malformed: no-leading-slash");
}

#[test]
fn trailing_slash_is_malformed() {
    let err = new_route("/trailing/").err().unwrap();
    assert_eq!(err.raw(), "/trailing/");
    assert_eq!(err.message(), "This route is malformed: /trailing/");
}

#[test]
fn lone_slash_is_malformed() {
    assert!(new_route("/").is_err());
    assert!(new_route("//").is_err());
}

#[test]
fn segments_are_what_stands_between_slashes() {
    assert_eq!(new_route("/a").unwrap().path, vec!["a"]);
    assert_eq!(new_route("/a/b/c").unwrap().path, vec!["a", "b", "c"]);
    assert_eq!(
        new_route("/abc/*/:cde").unwrap().path,
        vec!["abc", "*", ":cde"]
    );
}

#[test]
fn no_leading_empty_segment() {
    let route = new_route("/x/y").unwrap();
    assert_eq!(route.path.len(), 2);
    assert_eq!(route.path[0], "x");
}

#[test]
fn doubled_slash_encloses_an_empty_segment() {
    assert_eq!(new_route("/a//b").unwrap().path, vec!["a", "", "b"]);
    assert_eq!(new_route("//a").unwrap().path, vec!["", "a"]);
}

#[test]
fn segments_keep_characters_of_any_width() {
    assert_eq!(
        new_route("/grüße/日本語/x").unwrap().path,
        vec!["grüße", "日本語", "x"]
    );
    assert!(new_route("é/x").is_err());
    assert_eq!(new_route("/é").unwrap().path, vec!["é"]);
}

#[test]
fn segments_borrow_from_the_raw_string() {
    let raw = String::from("/one/two");
    let route = new_route(&raw).unwrap();
    assert_eq!(route.path[1].as_ptr(), raw[5..].as_ptr());
}

#[test]
fn string_equality_is_by_content() {
    assert!(str_eq("", ""));
    assert!(str_eq("abc", "abc"));
    assert!(!str_eq("abc", "abd"));
    assert!(!str_eq("abc", "ab"));
    assert!(!str_eq("ab", "abc"));
    assert!(str_eq("日本", "日本"));
    assert!(!str_eq("日本", "日木"));
}

#[test]
fn wildcard_is_the_lone_star() {
    assert!(is_wildcard_segment("*"));
    assert!(!is_wildcard_segment(""));
    assert!(!is_wildcard_segment("**"));
    assert!(!is_wildcard_segment("a"));
    assert!(!is_wildcard_segment(":*"));
}

#[test]
fn parameter_begins_with_a_colon() {
    assert!(is_parameter_segment(":id"));
    assert!(is_parameter_segment(":"));
    assert!(!is_parameter_segment(""));
    assert!(!is_parameter_segment("id:"));
    assert!(!is_parameter_segment("*"));
}
