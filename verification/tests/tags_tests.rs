use zz::ast::{Expression, Location, Tags, Type, Typed};
use zz::name::Name;

fn at(line: usize) -> Location {
    Location { file: "a.zz".to_string(), start: 0, end: 1, line, col: 1 }
}

#[test]
fn tags_insert_and_get() {
    let mut t = Tags::new();
    assert!(!t.contains_key("mut"));
    assert!(t.get("mut").is_none());
    t.insert("mut".to_string(), "x".to_string(), at(3));
    assert!(t.contains_key("mut"));
    assert!(!t.contains_key("mu"));
    let values = t.get("mut").unwrap();
    assert_eq!(values.len(), 1);
    assert_eq!(values[0].0, "x");
    assert_eq!(values[0].1, at(3));
}

#[test]
fn tags_insert_same_value_replaces_place() {
    let mut t = Tags::new();
    t.insert("k".to_string(), "v".to_string(), at(1));
    t.insert("k".to_string(), "v".to_string(), at(2));
    t.insert("k".to_string(), "w".to_string(), at(3));
    let values = t.get("k").unwrap();
    assert_eq!(values.len(), 2);
    let v = values.iter().find(|e| e.0 == "v").unwrap();
    assert_eq!(v.1.line, 2);
    assert_eq!(t.0.len(), 1);
}

#[test]
fn tags_remove_whole_key() {
    let mut t = Tags::new();
    t.insert("k".to_string(), "v".to_string(), at(1));
    t.insert("j".to_string(), "v".to_string(), at(1));
    t.remove("k", None);
    assert!(!t.contains_key("k"));
    assert!(t.contains_key("j"));
    t.remove("absent", None);
    assert!(t.contains_key("j"));
}

#[test]
fn tags_remove_last_value_forgets_key() {
    let mut t = Tags::new();
    t.insert("k".to_string(), "v".to_string(), at(1));
    t.insert("k".to_string(), "w".to_string(), at(1));
    t.remove("k", Some("v"));
    assert!(t.contains_key("k"));
    assert_eq!(t.get("k").unwrap().len(), 1);
    t.remove("k", Some("w"));
    assert!(!t.contains_key("k"));
}

#[test]
fn tags_remove_unknown_value_keeps_key() {
    let mut t = Tags::new();
    t.insert("k".to_string(), "v".to_string(), at(1));
    t.remove("k", Some("zzz"));
    assert!(t.contains_key("k"));
    assert_eq!(t.get("k").unwrap().len(), 1);
}

#[test]
fn location_displays_file_and_line() {
    assert_eq!(at(12).to_string(), "a.zz:12");
    assert_eq!(at(0).to_string(), "a.zz:0");
    assert_eq!(at(12).line(), 12);
    assert_eq!(at(1000000).to_string(), "a.zz:1000000");
}

#[test]
fn expression_loc_is_that_of_its_form() {
    let name = Expression::Name(Typed {
        name: Name::from("x"),
        t: Type::Other,
        loc: at(4),
        ptr: vec![],
    });
    assert_eq!(name.loc().line, 4);
    let lit = Expression::Literal { loc: at(5), v: "1".to_string() };
    assert_eq!(lit.loc().line, 5);
    let pre = Expression::UnaryPre {
        loc: at(6),
        op: zz::ast::PrefixOperator::Deref,
        expr: Box::new(name.clone()),
    };
    assert_eq!(pre.loc().line, 6);
    assert_eq!(pre.clone(), pre);
}

#[test]
fn locate_counts_lines_and_columns() {
    let src = "ab\ncd\r\nef";
    let l = Location::locate("f.zz", src, 3, 5).unwrap();
    assert_eq!((l.line, l.col, l.start, l.end), (2, 1, 3, 5));
    assert_eq!(l.file, "f.zz");
    let l = Location::locate("f.zz", src, 8, 9).unwrap();
    assert_eq!((l.line, l.col), (3, 2));
    let l = Location::locate("f.zz", src, 0, 0).unwrap();
    assert_eq!((l.line, l.col), (1, 1));
    assert_eq!(Location::locate("f.zz", src, 9, 9).map(|l| l.line), Some(3));
}

#[test]
fn locate_refuses_ranges_that_are_no_spans() {
    assert_eq!(Location::locate("f", "abc", 2, 1), None);
    assert_eq!(Location::locate("f", "abc", 0, 4), None);
    assert_eq!(Location::locate("f", "é", 1, 2), None);
    assert_eq!(Location::locate("f", "é", 0, 1), None);
    assert!(Location::locate("f", "é", 0, 2).is_some());
}
