use zz::ast::{
    Array, Def, Expression, InfixOperator, Location, PostfixOperator, PrefixOperator, Statement,
    Storage, Tail, Type, Visibility,
};
use zz::lower::{
    parse_anon_type, parse_block, parse_expr, parse_function, parse_import, parse_importname,
    parse_macro, parse_named_type, parse_statement, parse_struct, parse_value,
};
use zz::name::Name;
use zz::parser::{
    infix_operator, parse, postfix_operator, prefix_operator, unescape, Node, ParseError, Rule,
};

fn at(line: usize) -> Location {
    Location { file: "t.zz".to_string(), start: line, end: line + 1, line, col: 1 }
}

fn node(rule: Rule, line: usize, text: &str, children: Vec<Node>) -> Node {
    Node { rule, loc: at(line), end: at(line + 1000), text: text.to_string(), children }
}

fn leaf(rule: Rule, line: usize, text: &str) -> Node {
    node(rule, line, text, vec![])
}

fn num(line: usize, v: &str) -> Node {
    leaf(Rule::number_literal, line, v)
}

fn expr(line: usize, children: Vec<Node>) -> Node {
    node(Rule::expr, line, "", children)
}

fn named(line: usize, parts: Vec<Node>) -> Node {
    node(Rule::named_type, line, "", parts)
}

fn simple_named(line: usize, ty: &str, name: &str) -> Node {
    named(line, vec![leaf(Rule::type_ref, line, ty), leaf(Rule::ident, line, name)])
}

fn anon(line: usize, ty: &str) -> Node {
    node(Rule::anon_type, line, "", vec![leaf(Rule::type_ref, line, ty)])
}

fn block(line: usize, statements: Vec<Node>) -> Node {
    node(Rule::block, line, "", statements)
}

fn lit(v: &str) -> Box<Expression> {
    Box::new(Expression::Literal { loc: at(0), v: v.to_string() })
}

fn placed(e: Expression) -> Expression {
    e
}

#[test]
fn operators_by_text() {
    assert_eq!(infix_operator("=="), Some(InfixOperator::Equals));
    assert_eq!(infix_operator("!="), Some(InfixOperator::Nequals));
    assert_eq!(infix_operator(">>"), Some(InfixOperator::Shiftright));
    assert_eq!(infix_operator("|"), Some(InfixOperator::Bitor));
    assert_eq!(infix_operator("||"), Some(InfixOperator::Boolor));
    assert_eq!(infix_operator("=>"), None);
    assert_eq!(prefix_operator("!"), Some(PrefixOperator::Boolnot));
    assert_eq!(prefix_operator("*"), Some(PrefixOperator::Deref));
    assert_eq!(prefix_operator("+"), None);
    assert_eq!(postfix_operator("++"), Some(PostfixOperator::Increment));
    assert_eq!(postfix_operator("--"), Some(PostfixOperator::Decrement));
    assert_eq!(postfix_operator("!"), None);
}

#[test]
fn escapes_are_read() {
    let body = b"a\\n\\t\\r\\0\\\\\\\"\\'\\x41\\xfFz".to_vec();
    assert_eq!(
        unescape(&body, 0, body.len()),
        Some(vec![b'a', 10, 9, 13, 0, b'\\', b'"', b'\'', 0x41, 0xff, b'z'])
    );
    assert_eq!(unescape(&b"abc".to_vec(), 1, 2), Some(vec![b'b']));
    assert_eq!(unescape(&b"abc".to_vec(), 2, 2), Some(vec![]));
    assert_eq!(unescape(&b"\\".to_vec(), 0, 1), None);
    assert_eq!(unescape(&b"\\q".to_vec(), 0, 2), None);
    assert_eq!(unescape(&b"\\x4".to_vec(), 0, 3), None);
    assert_eq!(unescape(&b"\\x4g".to_vec(), 0, 4), None);
    assert_eq!(unescape(&b"\\n".to_vec(), 0, 1), None);
}

#[test]
fn chain_of_operands_becomes_an_infix_operation() {
    let e = expr(
        7,
        vec![num(0, "1"), leaf(Rule::infix, 10, "+"), num(0, "2"), leaf(Rule::infix, 11, "*"), num(0, "3")],
    );
    assert_eq!(
        parse_expr(&e),
        Ok(Expression::InfixOperation {
            loc: at(7),
            lhs: lit("1"),
            rhs: vec![
                ((InfixOperator::Add, at(10)), lit("2")),
                ((InfixOperator::Multiply, at(11)), lit("3")),
            ],
        })
    );
    assert_eq!(parse_expr(&expr(7, vec![num(0, "1")])), Ok(*lit("1")));
    let nested = expr(7, vec![expr(8, vec![num(0, "5")])]);
    assert_eq!(parse_expr(&nested), Ok(*lit("5")));
}

#[test]
fn malformed_chains_are_refused() {
    assert_eq!(parse_expr(&expr(7, vec![])), Err(ParseError::Missing(at(7))));
    assert_eq!(
        parse_expr(&expr(7, vec![num(1, "1"), num(2, "2")])),
        Err(ParseError::Unexpected(Rule::number_literal, at(2)))
    );
    assert_eq!(
        parse_expr(&expr(7, vec![num(1, "1"), leaf(Rule::infix, 3, "=>"), num(2, "2")])),
        Err(ParseError::UnknownOperator(at(3)))
    );
    assert_eq!(
        parse_expr(&expr(7, vec![leaf(Rule::block, 4, "")])),
        Err(ParseError::Unexpected(Rule::block, at(4)))
    );
    assert_eq!(
        parse_expr(&leaf(Rule::block, 4, "")),
        Err(ParseError::Unexpected(Rule::block, at(4)))
    );
    assert_eq!(
        parse_expr(&expr(7, vec![num(1, "1"), leaf(Rule::infix, 3, "+")])),
        Ok(Expression::Literal { loc: at(1), v: "1".to_string() })
    );
}

#[test]
fn literals_are_decoded() {
    let s = expr(1, vec![leaf(Rule::string_literal, 2, "\"a\\n\\\"b\"")]);
    assert_eq!(
        parse_expr(&s),
        Ok(Expression::LiteralString { loc: at(2), v: vec![b'a', 10, b'"', b'b'] })
    );
    let c = expr(1, vec![leaf(Rule::char_literal, 2, "'\\''")]);
    assert_eq!(parse_expr(&c), Ok(Expression::LiteralChar { loc: at(2), v: b'\'' }));
    let c = expr(1, vec![leaf(Rule::char_literal, 2, "'x'")]);
    assert_eq!(parse_expr(&c), Ok(Expression::LiteralChar { loc: at(2), v: b'x' }));
    for bad in ["\"abc", "abc\"", "\"", "\"a\\q\""] {
        let s = expr(1, vec![leaf(Rule::string_literal, 2, bad)]);
        assert_eq!(parse_expr(&s), Err(ParseError::BadLiteral(at(2))));
    }
    for bad in ["''", "'ab'", "'a", "'é'"] {
        let c = expr(1, vec![leaf(Rule::char_literal, 2, bad)]);
        assert_eq!(parse_expr(&c), Err(ParseError::BadLiteral(at(2))));
    }
}

#[test]
fn operands_of_every_kind() {
    let name = |line: usize, n: &str| leaf(Rule::type_ref, line, n);
    let one = |n: Node| parse_expr(&expr(1, vec![n])).unwrap();
    match one(name(3, "a::b")) {
        Expression::Name(t) => {
            assert_eq!(t.name, Name::from("a::b"));
            assert_eq!(t.loc, at(3));
            assert_eq!(t.t, Type::Other);
        },
        other => panic!("{:?}", other),
    }
    let pre = node(Rule::unarypre, 4, "", vec![leaf(Rule::ident, 5, "!"), name(6, "x")]);
    assert!(matches!(one(pre), Expression::UnaryPre { op: PrefixOperator::Boolnot, .. }));
    let post = node(Rule::unarypost, 4, "", vec![name(6, "x"), leaf(Rule::ident, 5, "++")]);
    assert!(matches!(one(post), Expression::UnaryPost { op: PostfixOperator::Increment, .. }));
    let deref = node(Rule::deref, 4, "", vec![name(6, "x")]);
    assert!(matches!(one(deref), Expression::UnaryPre { op: PrefixOperator::Deref, .. }));
    let takeref = node(Rule::takeref, 4, "", vec![name(6, "x")]);
    assert!(matches!(one(takeref), Expression::UnaryPre { op: PrefixOperator::AddressOf, .. }));
    let cast = node(Rule::cast, 4, "", vec![anon(5, "u8"), expr(6, vec![num(7, "1")])]);
    match one(cast) {
        Expression::Cast { into, expr, loc } => {
            assert_eq!(into.name, Name::from("u8"));
            assert_eq!(*expr, Expression::Literal { loc: at(7), v: "1".to_string() });
            assert_eq!(loc, at(4));
        },
        other => panic!("{:?}", other),
    }
    let member = node(Rule::member_access, 4, "", vec![name(6, "x"), leaf(Rule::ident, 5, "f")]);
    match one(member) {
        Expression::MemberAccess { op, rhs, .. } => {
            assert_eq!(op, ".");
            assert_eq!(rhs, "f");
        },
        other => panic!("{:?}", other),
    }
    let arrow = node(Rule::ptr_access, 4, "", vec![name(6, "x"), leaf(Rule::ident, 5, "f")]);
    assert!(matches!(one(arrow), Expression::MemberAccess { op, .. } if op == "->"));
    let index = node(
        Rule::array_access,
        4,
        "",
        vec![name(6, "x"), node(Rule::array, 5, "", vec![expr(8, vec![num(9, "0")])])],
    );
    assert!(matches!(one(index), Expression::ArrayAccess { .. }));
    let call = node(
        Rule::call,
        4,
        "",
        vec![name(6, "f"), node(Rule::ident, 5, "", vec![expr(8, vec![num(9, "0")]), expr(8, vec![num(9, "1")])])],
    );
    match one(call) {
        Expression::Call { name, args, loc } => {
            assert_eq!(name.name, Name::from("f"));
            assert_eq!(name.loc, at(6));
            assert_eq!(args.len(), 2);
            assert_eq!(loc, at(4));
        },
        other => panic!("{:?}", other),
    }
    let bare = node(Rule::call, 4, "", vec![name(6, "f")]);
    assert!(matches!(one(bare), Expression::Call { args, .. } if args.is_empty()));
    let init = node(
        Rule::array_init,
        4,
        "",
        vec![node(Rule::termish, 5, "", vec![num(9, "1")]), node(Rule::termish, 5, "", vec![num(9, "2")])],
    );
    assert!(matches!(one(init), Expression::ArrayInit { fields, .. } if fields.len() == 2));
    let st = node(
        Rule::struct_init,
        4,
        "",
        vec![
            anon(5, "S"),
            node(Rule::struct_init_field, 6, "", vec![leaf(Rule::ident, 7, "a"), expr(8, vec![num(9, "1")])]),
        ],
    );
    match one(st) {
        Expression::StructInit { typed, fields, .. } => {
            assert_eq!(typed.name, Name::from("S"));
            assert_eq!(fields.len(), 1);
            assert_eq!(fields[0].0, "a");
        },
        other => panic!("{:?}", other),
    }
}

#[test]
fn incomplete_operands_are_refused() {
    let one = |n: Node| parse_expr(&expr(1, vec![n]));
    assert_eq!(one(node(Rule::unarypre, 4, "", vec![])), Err(ParseError::Missing(at(4))));
    assert_eq!(one(node(Rule::cast, 4, "", vec![anon(5, "u8")])), Err(ParseError::Missing(at(4))));
    assert_eq!(one(node(Rule::call, 4, "", vec![])), Err(ParseError::Missing(at(4))));
    let pre = node(Rule::unarypre, 4, "", vec![leaf(Rule::ident, 5, "+"), leaf(Rule::type_ref, 6, "x")]);
    assert_eq!(one(pre), Err(ParseError::UnknownOperator(at(5))));
    let index = node(
        Rule::array_access,
        4,
        "",
        vec![leaf(Rule::type_ref, 6, "x"), leaf(Rule::ident, 5, "0")],
    );
    assert_eq!(one(index), Err(ParseError::Unexpected(Rule::ident, at(5))));
    let st = node(Rule::struct_init, 4, "", vec![anon(5, "S"), leaf(Rule::ident, 6, "a")]);
    assert_eq!(one(st), Err(ParseError::Unexpected(Rule::ident, at(6))));
}

#[test]
fn named_types_take_pointers_and_tags() {
    let n = named(
        1,
        vec![
            leaf(Rule::type_ref, 2, "net::Buf"),
            leaf(Rule::key_mut, 3, "mut"),
            leaf(Rule::ptr, 4, "*"),
            leaf(Rule::ptr, 5, "*"),
            leaf(Rule::ident, 6, "packed"),
            leaf(Rule::ident, 7, "b"),
        ],
    );
    let t = parse_named_type(&n).unwrap();
    assert_eq!(t.name, "b");
    assert_eq!(t.typed.name, Name::from("net::Buf"));
    assert_eq!(t.typed.loc, at(1));
    assert_eq!(t.typed.ptr.len(), 2);
    assert!(t.typed.ptr[0].tags.contains_key("mut"));
    assert_eq!(t.typed.ptr[0].loc, at(4));
    assert!(!t.typed.ptr[1].tags.contains_key("mut"));
    assert!(t.tags.contains_key("packed"));
    assert!(!t.tags.contains_key("mut"));
    assert_eq!(t.tagged_at, Some(at(6)));
    let plain = parse_named_type(&simple_named(1, "u8", "x")).unwrap();
    assert_eq!(plain.tagged_at, None);
    assert!(plain.typed.ptr.is_empty());
}

#[test]
fn malformed_types_are_refused() {
    let no_name = named(1, vec![leaf(Rule::type_ref, 2, "u8"), leaf(Rule::ptr, 3, "*")]);
    assert_eq!(parse_named_type(&no_name).err(), Some(ParseError::ExpectedName(at(3))));
    let short = named(1, vec![leaf(Rule::type_ref, 2, "u8")]);
    assert_eq!(parse_named_type(&short).err(), Some(ParseError::Missing(at(1))));
    let odd = named(
        1,
        vec![leaf(Rule::type_ref, 2, "u8"), leaf(Rule::block, 3, ""), leaf(Rule::ident, 4, "x")],
    );
    assert_eq!(parse_named_type(&odd).err(), Some(ParseError::Unexpected(Rule::block, at(3))));
    assert_eq!(
        parse_named_type(&leaf(Rule::expr, 9, "")).err(),
        Some(ParseError::Unexpected(Rule::expr, at(9)))
    );
    let tagged = node(
        Rule::anon_type,
        1,
        "",
        vec![leaf(Rule::type_ref, 2, "u8"), leaf(Rule::ptr, 3, "*"), leaf(Rule::key_mut, 4, "mut")],
    );
    assert_eq!(parse_anon_type(&tagged), Err(ParseError::AnonymousTypeTags(at(4))));
    let fine = node(
        Rule::anon_type,
        1,
        "",
        vec![leaf(Rule::type_ref, 2, "u8"), leaf(Rule::key_mut, 4, "mut"), leaf(Rule::ptr, 3, "*")],
    );
    let t = parse_anon_type(&fine).unwrap();
    assert!(t.ptr[0].tags.contains_key("mut"));
    assert_eq!(parse_anon_type(&node(Rule::anon_type, 1, "", vec![])), Err(ParseError::Missing(at(1))));
}

#[test]
fn import_paths_and_picks() {
    let path = node(
        Rule::importname,
        1,
        "",
        vec![
            leaf(Rule::ident, 2, "net"),
            node(Rule::type_ref, 3, "", vec![leaf(Rule::ident, 4, "http"), leaf(Rule::ident, 5, "v1")]),
            node(
                Rule::local,
                6,
                "",
                vec![
                    node(Rule::local_i, 7, "", vec![leaf(Rule::ident, 8, "get")]),
                    node(
                        Rule::local_i,
                        9,
                        "",
                        vec![
                            node(Rule::qident, 10, "", vec![leaf(Rule::ident, 11, "post")]),
                            leaf(Rule::ident, 12, "send"),
                        ],
                    ),
                ],
            ),
        ],
    );
    let (name, picks) = parse_importname(&path).unwrap();
    assert_eq!(name, Name::from("net::http::v1"));
    assert_eq!(picks, vec![("get".to_string(), None), ("post".to_string(), Some("send".to_string()))]);
    let bad = node(Rule::importname, 1, "", vec![leaf(Rule::block, 2, "")]);
    assert_eq!(parse_importname(&bad), Err(ParseError::Unexpected(Rule::block, at(2))));
    let bad_pick = node(
        Rule::importname,
        1,
        "",
        vec![node(Rule::local, 6, "", vec![leaf(Rule::ident, 7, "x")])],
    );
    assert_eq!(parse_importname(&bad_pick), Err(ParseError::Unexpected(Rule::ident, at(7))));
    let decl = node(Rule::import, 20, "", vec![leaf(Rule::exported, 21, ""), path]);
    let im = parse_import(&decl).unwrap();
    assert_eq!(im.vis, Visibility::Export);
    assert_eq!(im.loc, at(20));
    assert_eq!(im.alias, None);
    assert_eq!(im.name, Name::from("net::http::v1"));
    assert_eq!(
        parse_import(&node(Rule::import, 20, "", vec![leaf(Rule::exported, 21, "")])),
        Err(ParseError::Missing(at(20)))
    );
    assert_eq!(
        parse_import(&node(Rule::import, 20, "", vec![leaf(Rule::ident, 21, "")])),
        Err(ParseError::Unexpected(Rule::ident, at(21)))
    );
}

#[test]
fn statements_of_every_kind() {
    let ret = node(Rule::return_stm, 1, "", vec![leaf(Rule::key_return, 2, ""), expr(3, vec![num(4, "0")])]);
    assert_eq!(
        parse_statement(&ret),
        Ok(Statement::Return { loc: at(1), expr: Some(Expression::Literal { loc: at(4), v: "0".to_string() }) })
    );
    let bare = node(Rule::return_stm, 1, "", vec![leaf(Rule::key_return, 2, "")]);
    assert_eq!(parse_statement(&bare), Ok(Statement::Return { loc: at(1), expr: None }));
    let label = node(Rule::label, 1, "", vec![leaf(Rule::ident, 2, "out")]);
    assert_eq!(parse_statement(&label), Ok(Statement::Label { loc: at(1), label: "out".to_string() }));
    let goto = node(Rule::goto_stm, 1, "", vec![leaf(Rule::ident, 2, "out")]);
    assert_eq!(parse_statement(&goto), Ok(Statement::Goto { loc: at(1), label: "out".to_string() }));
    let mark = node(Rule::mark_stm, 1, "", vec![expr(2, vec![num(3, "x")]), leaf(Rule::ident, 4, "safe")]);
    match parse_statement(&mark).unwrap() {
        Statement::Mark { loc, key, value, .. } => {
            assert_eq!(loc, at(4));
            assert_eq!(key, "safe");
            assert_eq!(value, "");
        },
        other => panic!("{:?}", other),
    }
    let cond = node(Rule::if_stm, 1, "", vec![expr(2, vec![num(3, "1")]), block(4, vec![])]);
    assert!(matches!(parse_statement(&cond).unwrap(), Statement::Cond { op, expr: Some(_), .. } if op == "if"));
    let elif = node(Rule::elseif_stm, 1, "", vec![expr(2, vec![num(3, "1")]), block(4, vec![])]);
    assert!(matches!(parse_statement(&elif).unwrap(), Statement::Cond { op, .. } if op == "else if"));
    let els = node(Rule::else_stm, 1, "", vec![block(4, vec![])]);
    assert!(matches!(parse_statement(&els).unwrap(), Statement::Cond { op, expr: None, .. } if op == "else"));
    let plain = expr(1, vec![num(2, "1")]);
    assert!(matches!(parse_statement(&plain).unwrap(), Statement::Expr { .. }));
    let inner = block(1, vec![plain]);
    match parse_statement(&inner).unwrap() {
        Statement::Block(b) => {
            assert_eq!(b.statements.len(), 1);
            assert_eq!(b.end, at(1001));
        },
        other => panic!("{:?}", other),
    }
    assert_eq!(
        parse_statement(&leaf(Rule::ident, 3, "x")),
        Err(ParseError::Unexpected(Rule::ident, at(3)))
    );
    assert_eq!(parse_block(&leaf(Rule::ident, 3, "x")), Err(ParseError::Unexpected(Rule::ident, at(3))));
}

#[test]
fn loops_have_three_clauses_and_a_body() {
    let stmt = |line: usize| expr(line, vec![num(line, "1")]);
    let semi = || leaf(Rule::semicolon, 0, ";");
    let f = node(
        Rule::for_stm,
        1,
        "",
        vec![stmt(10), stmt(11), semi(), stmt(20), semi(), stmt(30), block(40, vec![]), block(41, vec![])],
    );
    match parse_statement(&f).unwrap() {
        Statement::For { e1, e2, e3, body } => {
            assert_eq!(e1.len(), 2);
            assert_eq!(e2.len(), 1);
            assert_eq!(e3.len(), 2);
            assert!(matches!(&*e3[1], Statement::Block(_)));
            assert_eq!(body.end, at(1040));
        },
        other => panic!("{:?}", other),
    }
    let empty = node(Rule::for_stm, 1, "", vec![semi(), semi(), block(40, vec![])]);
    match parse_statement(&empty).unwrap() {
        Statement::For { e1, e2, e3, .. } => assert!(e1.is_empty() && e2.is_empty() && e3.is_empty()),
        other => panic!("{:?}", other),
    }
    let no_body = node(Rule::for_stm, 1, "", vec![semi(), block(40, vec![]), semi()]);
    assert_eq!(parse_statement(&no_body), Err(ParseError::Missing(at(1))));
    let late = node(Rule::for_stm, 1, "", vec![semi(), semi(), block(40, vec![]), semi(), stmt(50)]);
    assert_eq!(parse_statement(&late), Err(ParseError::Unexpected(Rule::expr, at(50))));
}

#[test]
fn declarations_of_variables_and_assignments() {
    let var = node(
        Rule::vardecl,
        1,
        "",
        vec![
            simple_named(2, "u8", "buf"),
            node(Rule::array, 3, "", vec![expr(4, vec![num(5, "16")])]),
            expr(6, vec![num(7, "0")]),
        ],
    );
    match parse_statement(&var).unwrap() {
        Statement::Var { name, typed, array, assign, loc, .. } => {
            assert_eq!(name, "buf");
            assert_eq!(typed.name, Name::from("u8"));
            assert_eq!(array, Some(Expression::Literal { loc: at(5), v: "16".to_string() }));
            assert_eq!(assign, Some(Expression::Literal { loc: at(7), v: "0".to_string() }));
            assert_eq!(loc, at(1));
        },
        other => panic!("{:?}", other),
    }
    let untyped = node(Rule::vardecl, 1, "", vec![expr(6, vec![num(7, "0")])]);
    assert_eq!(parse_statement(&untyped), Err(ParseError::Missing(at(1))));
    let assign = node(
        Rule::assign,
        1,
        "",
        vec![
            node(Rule::lhs, 2, "", vec![leaf(Rule::type_ref, 3, "x")]),
            leaf(Rule::assignop, 4, "+="),
            expr(5, vec![num(6, "1")]),
        ],
    );
    match parse_statement(&assign).unwrap() {
        Statement::Assign { op, lhs, rhs, .. } => {
            assert_eq!(op, "+=");
            assert!(matches!(lhs, Expression::Name(_)));
            assert_eq!(rhs, Expression::Literal { loc: at(6), v: "1".to_string() });
        },
        other => panic!("{:?}", other),
    }
    let twice = node(
        Rule::assign,
        1,
        "",
        vec![
            node(Rule::lhs, 2, "", vec![leaf(Rule::type_ref, 3, "x")]),
            node(Rule::lhs, 8, "", vec![leaf(Rule::type_ref, 3, "y")]),
        ],
    );
    assert_eq!(parse_statement(&twice), Err(ParseError::Unexpected(Rule::lhs, at(8))));
    let half = node(Rule::assign, 1, "", vec![leaf(Rule::assignop, 4, "=")]);
    assert_eq!(parse_statement(&half), Err(ParseError::Missing(at(1))));
}

fn main_function() -> Node {
    node(
        Rule::function,
        1,
        "",
        vec![
            node(Rule::exported, 2, "", vec![leaf(Rule::ident, 3, "c_main")]),
            leaf(Rule::ident, 4, "main"),
            node(Rule::ret_arg, 5, "", vec![anon(6, "int")]),
            node(Rule::fn_args, 7, "", vec![simple_named(8, "int", "argc")]),
            block(
                9,
                vec![node(
                    Rule::return_stm,
                    10,
                    "",
                    vec![leaf(Rule::key_return, 11, ""), expr(12, vec![num(13, "0")])],
                )],
            ),
        ],
    )
}

#[test]
fn function_declaration() {
    let l = parse_function(&main_function()).unwrap();
    assert_eq!(l.name, "main");
    assert_eq!(l.vis, Visibility::Export);
    assert_eq!(l.export_as, Some("c_main".to_string()));
    assert_eq!(l.loc, at(1));
    match l.def {
        Def::Function { ret, args, body, vararg } => {
            assert_eq!(ret.unwrap().typed.name, Name::from("int"));
            assert_eq!(args.len(), 1);
            assert_eq!(args[0].name, "argc");
            assert_eq!(args[0].loc, at(8));
            assert_eq!(body.statements.len(), 1);
            assert!(!vararg);
        },
        other => panic!("{:?}", other),
    }
    let no_body = node(Rule::function, 1, "", vec![leaf(Rule::ident, 4, "f")]);
    assert_eq!(parse_function(&no_body).err(), Some(ParseError::Missing(at(1))));
    let odd = node(Rule::function, 1, "", vec![leaf(Rule::semicolon, 4, ";")]);
    assert_eq!(parse_function(&odd).err(), Some(ParseError::Unexpected(Rule::semicolon, at(4))));
    let bad_export = node(
        Rule::function,
        1,
        "",
        vec![node(Rule::exported, 2, "", vec![leaf(Rule::block, 3, "")])],
    );
    assert_eq!(parse_function(&bad_export).err(), Some(ParseError::Unexpected(Rule::block, at(3))));
}

#[test]
fn macro_declaration() {
    let m = node(
        Rule::imacro,
        1,
        "",
        vec![
            leaf(Rule::key_shared, 2, ""),
            leaf(Rule::ident, 3, "twice"),
            node(Rule::macro_args, 4, "", vec![leaf(Rule::ident, 5, "a"), leaf(Rule::ident, 6, "b")]),
            block(7, vec![]),
        ],
    );
    let l = parse_macro(&m).unwrap();
    assert_eq!(l.name, "twice");
    assert_eq!(l.vis, Visibility::Shared);
    match l.def {
        Def::Macro { args, .. } => assert_eq!(args, vec!["a".to_string(), "b".to_string()]),
        other => panic!("{:?}", other),
    }
    let two_names = node(Rule::imacro, 1, "", vec![leaf(Rule::ident, 3, "a"), leaf(Rule::ident, 4, "b")]);
    assert_eq!(parse_macro(&two_names).err(), Some(ParseError::Unexpected(Rule::ident, at(4))));
    let nameless = node(Rule::imacro, 1, "", vec![block(7, vec![])]);
    assert_eq!(parse_macro(&nameless).err(), Some(ParseError::Missing(at(1))));
}

fn buf_struct() -> Node {
    node(
        Rule::struct_d,
        1,
        "",
        vec![
            leaf(Rule::key_packed, 2, ""),
            leaf(Rule::ident, 3, "Buf"),
            node(Rule::struct_f, 4, "", vec![simple_named(5, "usize", "len")]),
            node(
                Rule::struct_f,
                6,
                "",
                vec![simple_named(7, "u8", "data"), node(Rule::array, 8, "", vec![])],
            ),
        ],
    )
}

#[test]
fn struct_declaration_with_dynamic_tail() {
    let l = parse_struct(&buf_struct()).unwrap();
    assert_eq!(l.name, "Buf");
    assert_eq!(l.loc, at(3));
    assert_eq!(l.vis, Visibility::Object);
    match l.def {
        Def::Struct { fields, packed, tail, union } => {
            assert!(packed);
            assert!(!union);
            assert_eq!(tail, Tail::Dynamic);
            assert_eq!(fields.len(), 2);
            assert_eq!(fields[0].name, "len");
            assert_eq!(fields[0].array, Array::Absent);
            assert_eq!(fields[0].loc, at(4));
            assert_eq!(fields[1].array, Array::Unsized);
        },
        other => panic!("{:?}", other),
    }
    let sized = node(
        Rule::struct_d,
        1,
        "",
        vec![
            leaf(Rule::ident, 3, "S"),
            node(
                Rule::struct_f,
                6,
                "",
                vec![simple_named(7, "u8", "a"), node(Rule::array, 8, "", vec![expr(9, vec![num(10, "4")])])],
            ),
        ],
    );
    match parse_struct(&sized).unwrap().def {
        Def::Struct { fields, tail, packed, .. } => {
            assert_eq!(tail, Tail::Absent);
            assert!(!packed);
            assert!(matches!(fields[0].array, Array::Sized(_)));
        },
        other => panic!("{:?}", other),
    }
    let nameless = node(Rule::struct_d, 1, "", vec![]);
    assert_eq!(parse_struct(&nameless).err(), Some(ParseError::Missing(at(1))));
    let bad_field = node(Rule::struct_d, 1, "", vec![node(Rule::struct_f, 6, "", vec![])]);
    assert_eq!(parse_struct(&bad_field).err(), Some(ParseError::Missing(at(6))));
}

#[test]
fn static_and_constant_declarations() {
    let st = node(
        Rule::istatic,
        1,
        "",
        vec![leaf(Rule::key_thread_local, 2, ""), simple_named(3, "int", "counter"), expr(4, vec![num(5, "0")])],
    );
    let l = parse_value(&st).unwrap();
    assert_eq!(l.name, "counter");
    assert_eq!(l.vis, Visibility::Object);
    assert!(matches!(l.def, Def::Static { storage: Storage::ThreadLocal, .. }));
    let atomic = node(
        Rule::istatic,
        1,
        "",
        vec![leaf(Rule::key_atomic, 2, ""), simple_named(3, "int", "n"), expr(4, vec![num(5, "0")])],
    );
    assert!(matches!(parse_value(&atomic).unwrap().def, Def::Static { storage: Storage::Atomic, .. }));
    let shared = node(
        Rule::istatic,
        1,
        "",
        vec![leaf(Rule::key_shared, 2, ""), simple_named(3, "int", "n"), expr(4, vec![num(5, "0")])],
    );
    assert_eq!(parse_value(&shared).err(), Some(ParseError::StaticVisibility(at(2))));
    let exported = node(Rule::istatic, 1, "", vec![leaf(Rule::exported, 2, "")]);
    assert_eq!(parse_value(&exported).err(), Some(ParseError::StaticVisibility(at(2))));
    let c = node(
        Rule::constant,
        1,
        "",
        vec![leaf(Rule::exported, 2, ""), simple_named(3, "u32", "LIMIT"), expr(4, vec![num(5, "10")])],
    );
    let l = parse_value(&c).unwrap();
    assert_eq!(l.vis, Visibility::Export);
    assert_eq!(l.name, "LIMIT");
    assert!(matches!(l.def, Def::Const { .. }));
    let tagged = node(
        Rule::constant,
        1,
        "",
        vec![
            named(
                3,
                vec![leaf(Rule::type_ref, 3, "u32"), leaf(Rule::key_mut, 9, "mut"), leaf(Rule::ident, 3, "X")],
            ),
            expr(4, vec![num(5, "10")]),
        ],
    );
    assert_eq!(parse_value(&tagged).err(), Some(ParseError::TagsNotAllowed(at(9))));
    let valueless = node(Rule::constant, 1, "", vec![simple_named(3, "u32", "X")]);
    assert_eq!(parse_value(&valueless).err(), Some(ParseError::Missing(at(1))));
    let two_values = node(
        Rule::constant,
        1,
        "",
        vec![simple_named(3, "u32", "X"), expr(4, vec![num(5, "1")]), expr(6, vec![num(5, "2")])],
    );
    assert_eq!(parse_value(&two_values).err(), Some(ParseError::Unexpected(Rule::expr, at(6))));
    assert_eq!(
        parse_value(&leaf(Rule::function, 1, "")).err(),
        Some(ParseError::Unexpected(Rule::function, at(1)))
    );
}

#[test]
fn file_becomes_a_module() {
    let file = node(
        Rule::file,
        0,
        "",
        vec![
            leaf(Rule::comment, 1, "// hello"),
            node(
                Rule::import,
                2,
                "",
                vec![node(Rule::importname, 3, "", vec![leaf(Rule::ident, 4, "a"), leaf(Rule::ident, 5, "ping")])],
            ),
            node(Rule::c_header, 6, "", vec![leaf(Rule::ident, 7, "<stdio.h>")]),
            buf_struct(),
            main_function(),
            leaf(Rule::EOI, 99, ""),
        ],
    );
    let m = parse(&file, "src/main.zz", "/abs/src/main.zz", "main").unwrap();
    assert_eq!(m.name, Name::from("main"));
    assert_eq!(m.source, "src/main.zz");
    assert_eq!(m.sources, vec!["/abs/src/main.zz".to_string()]);
    assert!(m.aliases.is_empty());
    assert_eq!(m.locals.len(), 2);
    assert_eq!(m.locals[0].name, "Buf");
    assert_eq!(m.locals[1].name, "main");
    assert_eq!(m.imports.len(), 1);
    assert_eq!(m.imports[0].name, Name::from("a::ping"));
    assert_eq!(m.includes.len(), 1);
    assert_eq!(m.includes[0].expr, "<stdio.h>");
    assert_eq!(m.includes[0].loc, at(6));
    let stray = node(Rule::file, 0, "", vec![leaf(Rule::ident, 1, "x")]);
    assert_eq!(
        parse(&stray, "p", "c", "s").err(),
        Some(ParseError::Unexpected(Rule::ident, at(1)))
    );
    assert_eq!(
        parse(&leaf(Rule::block, 0, ""), "p", "c", "s").err(),
        Some(ParseError::Unexpected(Rule::block, at(0)))
    );
    let second = node(Rule::file, 0, "", vec![main_function(), node(Rule::istatic, 50, "", vec![])]);
    assert_eq!(parse(&second, "p", "c", "s").err(), Some(ParseError::Missing(at(50))));
}

#[test]
fn parse_errors_have_messages() {
    assert_eq!(ParseError::ExpectedName(at(1)).message(), "expected a name");
    assert_eq!(ParseError::TagsNotAllowed(at(1)).message(), "tags not allowed here (yet)");
    assert_eq!(
        ParseError::AnonymousTypeTags(at(1)).message(),
        "anonymous type cannot have storage tags (yet)"
    );
    assert_eq!(
        ParseError::StaticVisibility(at(1)).message(),
        "cannot change visibility of static variable"
    );
    assert_eq!(ParseError::Unexpected(Rule::block, at(3)).loc(), &at(3));
    assert_eq!(ParseError::Missing(at(4)).loc().line, 4);
    assert!(!ParseError::UnknownOperator(at(1)).message().is_empty());
    assert!(!ParseError::BadLiteral(at(1)).message().is_empty());
    let _ = placed(Expression::Literal { loc: at(0), v: String::new() });
}
