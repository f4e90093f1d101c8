use zz::name::Name;

#[test]
fn push_splits_on_separator() {
    let mut n = Name(vec![]);
    n.push("a::b".to_string());
    assert_eq!(n.0, vec!["a".to_string(), "b".to_string()]);
    assert_eq!(n.len(), 2);
}

#[test]
fn absolute_name_has_empty_first_segment() {
    let n = Name::from("::proj::main");
    assert!(n.is_absolute());
    assert_eq!(n.len(), 3);
    assert_eq!(n.human_name(), "proj::main");
    assert_eq!(n.to_string(), "::proj::main");
    let r = Name::from("proj::main");
    assert!(!r.is_absolute());
    assert_eq!(r.human_name(), "proj::main");
    assert!(!Name(vec![]).is_absolute());
}

#[test]
fn split_is_leftmost_without_overlap() {
    let n = Name::from("a:::b");
    assert_eq!(n.0, vec!["a".to_string(), ":b".to_string()]);
    let e = Name::from("");
    assert_eq!(e.0, vec!["".to_string()]);
    let t = Name::from("x::");
    assert_eq!(t.0, vec!["x".to_string(), "".to_string()]);
}

#[test]
fn pop_returns_last_segment() {
    let mut n = Name::from("a::b");
    assert_eq!(n.pop(), Some("b".to_string()));
    assert_eq!(n.pop(), Some("a".to_string()));
    assert_eq!(n.pop(), None);
    assert_eq!(n, Name::default());
}

#[test]
fn names_compare_by_segments() {
    assert_eq!(Name::from("a::b"), Name(vec!["a".to_string(), "b".to_string()]));
    assert_ne!(Name::from("a::b"), Name::from("a::c"));
    assert_ne!(Name::from("a"), Name::from("a::b"));
    assert!(Name::from("a::b") < Name::from("a::c"));
    assert_eq!(Name::from("a::b").clone(), Name::from("a::b"));
}
