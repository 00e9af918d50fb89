use router::params::Params;

#[test]
fn new_params_bind_nothing() {
    let params = Params::new();
    assert_eq!(params.get(":id"), None);
    assert_eq!(params.len(), 0);
    assert!(params.is_empty());
}

#[test]
fn insert_binds_and_get_reads() {
    let mut params = Params::new();
    params.insert(":id".to_owned(), "42".to_owned());
    params.insert(":name".to_owned(), "ann".to_owned());
    assert_eq!(params.get(":id"), Some(&"42".to_owned()));
    assert_eq!(params.get(":name"), Some(&"ann".to_owned()));
    assert_eq!(params.get(":other"), None);
    assert_eq!(params.len(), 2);
    assert!(!params.is_empty());
}

#[test]
fn insert_replaces_an_earlier_binding() {
    let mut params = Params::new();
    params.insert(":id".to_owned(), "1".to_owned());
    params.insert(":id".to_owned(), "2".to_owned());
    assert_eq!(params.get(":id"), Some(&"2".to_owned()));
    assert_eq!(params.len(), 1);
}

#[test]
fn clear_removes_every_binding() {
    let mut params = Params::new();
    params.insert(":id".to_owned(), "1".to_owned());
    params.clear();
    assert_eq!(params.get(":id"), None);
    assert_eq!(params.len(), 0);
    assert_eq!(params, Params::new());
}

#[test]
fn equal_bindings_compare_equal() {
    let mut first = Params::new();
    first.insert(":a".to_owned(), "1".to_owned());
    first.insert(":b".to_owned(), "2".to_owned());
    let mut second = Params::new();
    second.insert(":b".to_owned(), "2".to_owned());
    second.insert(":a".to_owned(), "1".to_owned());
    assert_eq!(first, second);
    second.insert(":a".to_owned(), "3".to_owned());
    assert_ne!(first, second);
}
