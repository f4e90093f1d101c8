use zz::name::Name;
use zz::order::{precedes, text_precedes};
use zz::text::{digit, join_from, push_decimal, split_segments};

#[test]
fn decimal_of_numbers() {
    for (n, want) in [(0u64, "0"), (7, "7"), (10, "10"), (1234567890, "1234567890"), (u64::MAX, "18446744073709551615")] {
        let mut out = "x".to_string();
        push_decimal(&mut out, n);
        assert_eq!(out, format!("x{}", want));
    }
    assert_eq!(digit(0), '0');
    assert_eq!(digit(9), '9');
}

#[test]
fn decimal_is_appended_digit_by_digit() {
    let mut s = "abé".to_string();
    push_decimal(&mut s, 407);
    push_decimal(&mut s, 0);
    assert_eq!(s, "abé4070");
}

#[test]
fn split_and_join() {
    assert_eq!(split_segments("a::b::c"), vec!["a", "b", "c"]);
    assert_eq!(split_segments("::"), vec!["", ""]);
    assert_eq!(split_segments(":"), vec![":"]);
    assert_eq!(split_segments("a::::b"), vec!["a", "", "b"]);
    assert_eq!(split_segments("é::ü"), vec!["é", "ü"]);
    let parts = vec!["a".to_string(), "b".to_string(), "c".to_string()];
    assert_eq!(join_from(&parts, 0, "::"), "a::b::c");
    assert_eq!(join_from(&parts, 1, "_"), "b_c");
    assert_eq!(join_from(&parts, 3, "_"), "");
    assert_eq!(join_from(&parts, 2, "_"), "c");
}

#[test]
fn split_then_join_gives_the_text_back() {
    for s in ["", "a", "a::b", "::a", "a::", ":::", "a:::b::", "::::"] {
        let parts = split_segments(s);
        assert_eq!(join_from(&parts, 0, "::"), s);
        assert_eq!(parts, s.split("::").map(|p| p.to_string()).collect::<Vec<String>>());
    }
}

#[test]
fn names_are_ordered_by_segments_then_characters() {
    assert!(text_precedes("", "a"));
    assert!(!text_precedes("a", ""));
    assert!(!text_precedes("a", "a"));
    assert!(text_precedes("a", "ab"));
    assert!(text_precedes("ab", "b"));
    assert!(text_precedes("Z", "a"));
    assert!(text_precedes("z", "\u{e9}"));
    let n = |s: &str| Name::from(s);
    assert!(precedes(&n("::a"), &n("::a::b")));
    assert!(precedes(&n("::a::b"), &n("::b")));
    assert!(precedes(&n("::a::z"), &n("::ab")));
    assert!(!precedes(&n("::a::b"), &n("::a::b")));
    assert!(!precedes(&n("::b"), &n("::a::b")));
    assert!(precedes(&n("::a"), &n("a")));
    let mut sorted = vec![n("::b::x"), n("::a::y"), n("::a"), n("::a::x::z"), n("::a::x")];
    sorted.sort();
    for pair in sorted.windows(2) {
        assert!(precedes(&pair[0], &pair[1]));
    }
}
