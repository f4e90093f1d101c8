use zz::ast::Location;
use zz::parser::{make_error, syntax_error};

#[test]
fn syntax_error_is_rendered_with_the_source_line() {
    let src = "fn main() {\n    retrun 0;\n}\n";
    let loc = Location::locate("src/main.zz", src, 16, 22).unwrap();
    let text = syntax_error(src, &loc, "expected a name").unwrap();
    assert_eq!(
        text,
        "syntax error\n --> src/main.zz:2:5\n  |\n2 |     retrun 0;\n  |     ^----^\n  |\n  = expected a name"
    );
    let report = make_error(src, &loc, "expected a name").unwrap();
    assert_eq!(
        report,
        " --> src/main.zz:2:5\n  |\n2 |     retrun 0;\n  |     ^----^\n  |\n  = expected a name"
    );
    assert_eq!(text, format!("syntax error\n{}", report));
    let other = syntax_error(src, &loc, "something else").unwrap();
    assert!(other.ends_with("  = something else"));
    let elsewhere = Location::locate("lib.zz", src, 0, 2).unwrap();
    assert_eq!(
        syntax_error(src, &elsewhere, "m").unwrap(),
        "syntax error\n --> lib.zz:1:1\n  |\n1 | fn main() {\n  | ^^\n  |\n  = m"
    );
}

#[test]
fn no_error_for_a_place_outside_the_text() {
    let loc = Location { file: "f".to_string(), start: 5, end: 99, line: 1, col: 1 };
    assert!(make_error("short", &loc, "m").is_none());
    assert_eq!(syntax_error("short", &loc, "m"), None);
}
