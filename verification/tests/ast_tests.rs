use zz::ast::{
    copy_tags, copy_typed, Block, Expression, InfixOperator, Location, Pointer, PostfixOperator,
    PrefixOperator, Statement, Tags, Type, Typed,
};
use zz::name::Name;

fn here(line: usize) -> Location {
    Location { file: "c.zz".to_string(), start: line, end: line + 2, line, col: 3 }
}

fn tagged() -> Tags {
    let mut tags = Tags::new();
    tags.insert("mut".to_string(), "".to_string(), here(1));
    tags.insert("len".to_string(), "n".to_string(), here(2));
    tags.insert("len".to_string(), "m".to_string(), here(3));
    tags
}

fn pointer_to(name: &str) -> Typed {
    Typed {
        name: Name::from(name),
        t: Type::Other,
        loc: here(4),
        ptr: vec![Pointer { loc: here(5), tags: tagged() }, Pointer { loc: here(6), tags: Tags::new() }],
    }
}

fn number(v: &str, line: usize) -> Expression {
    Expression::Literal { loc: here(line), v: v.to_string() }
}

fn every_expression() -> Vec<Expression> {
    let name = Expression::Name(pointer_to("::proj::m::x"));
    vec![
        name.clone(),
        Expression::MemberAccess {
            loc: here(10),
            lhs: Box::new(name.clone()),
            op: "->".to_string(),
            rhs: "field".to_string(),
        },
        Expression::ArrayAccess { loc: here(11), lhs: Box::new(name.clone()), rhs: Box::new(number("3", 11)) },
        number("0x10", 12),
        Expression::LiteralString { loc: here(13), v: vec![b'h', b'i', 0, 200] },
        Expression::LiteralChar { loc: here(14), v: b'c' },
        Expression::Call {
            loc: here(15),
            name: pointer_to("::proj::m::f"),
            args: vec![Box::new(number("1", 15)), Box::new(name.clone())],
        },
        Expression::InfixOperation {
            loc: here(16),
            lhs: Box::new(number("1", 16)),
            rhs: vec![
                ((InfixOperator::Add, here(16)), Box::new(number("2", 16))),
                ((InfixOperator::Multiply, here(17)), Box::new(name.clone())),
            ],
        },
        Expression::Cast { loc: here(18), into: pointer_to("::proj::m::T"), expr: Box::new(number("1", 18)) },
        Expression::UnaryPost { loc: here(19), op: PostfixOperator::Increment, expr: Box::new(name.clone()) },
        Expression::UnaryPre { loc: here(20), op: PrefixOperator::Boolnot, expr: Box::new(name.clone()) },
        Expression::StructInit {
            loc: here(21),
            typed: pointer_to("::proj::m::S"),
            fields: vec![("a".to_string(), Box::new(number("1", 21))), ("b".to_string(), Box::new(name.clone()))],
        },
        Expression::ArrayInit { loc: here(22), fields: vec![Box::new(number("1", 22)), Box::new(number("2", 22))] },
        Expression::MacroCall {
            loc: here(23),
            name: Name::from("::proj::m::make"),
            args: vec![Box::new(number("7", 23))],
        },
    ]
}

fn every_statement() -> Vec<Statement> {
    let e = every_expression();
    let block = || Block {
        end: here(40),
        statements: vec![
            Statement::Expr { loc: here(30), expr: e[6].clone() },
            Statement::Break { loc: here(31) },
        ],
    };
    vec![
        Statement::Mark { lhs: e[0].clone(), loc: here(50), key: "safe".to_string(), value: "yes".to_string() },
        Statement::Label { loc: here(51), label: "again".to_string() },
        Statement::Goto { loc: here(52), label: "again".to_string() },
        Statement::Assign { loc: here(53), lhs: e[1].clone(), op: "+=".to_string(), rhs: e[7].clone() },
        Statement::Expr { loc: here(54), expr: e[13].clone() },
        Statement::Continue { loc: here(55) },
        Statement::Break { loc: here(56) },
        Statement::Return { loc: here(57), expr: Some(e[8].clone()) },
        Statement::Return { loc: here(58), expr: None },
        Statement::Var {
            loc: here(59),
            typed: pointer_to("::proj::m::T"),
            tags: tagged(),
            name: "v".to_string(),
            array: Some(number("4", 59)),
            assign: Some(e[12].clone()),
        },
        Statement::For {
            e1: vec![Box::new(Statement::Expr { loc: here(60), expr: e[3].clone() })],
            e2: vec![Box::new(Statement::Expr { loc: here(61), expr: e[9].clone() })],
            e3: vec![
                Box::new(Statement::Expr { loc: here(62), expr: e[10].clone() }),
                Box::new(Statement::Continue { loc: here(63) }),
            ],
            body: block(),
        },
        Statement::Cond { op: "if".to_string(), expr: Some(e[2].clone()), body: block() },
        Statement::Block(Box::new(block())),
    ]
}

#[test]
fn copy_of_an_expression_is_the_same_tree() {
    for e in every_expression() {
        let copy = e.clone();
        assert_eq!(copy, e);
        assert_eq!(copy.loc(), e.loc());
    }
    let all = every_expression();
    assert_ne!(all[3].clone(), all[4]);
    assert_ne!(all[0].clone(), number("1", 1));
}

#[test]
fn copy_of_a_statement_is_the_same_tree() {
    for s in every_statement() {
        assert_eq!(s.clone(), s);
    }
    let all = every_statement();
    assert_ne!(all[7].clone(), all[8]);
    let block = Block { end: here(70), statements: every_statement() };
    let copy = block.clone();
    assert_eq!(copy, block);
    assert_eq!(copy.statements.len(), 13);
    assert_eq!(copy.end, here(70));
    let empty = Block { end: here(71), statements: vec![] };
    assert_eq!(empty.clone(), empty);
}

#[test]
fn copy_of_tags_and_types_keeps_every_entry_in_order() {
    let tags = tagged();
    let copy = copy_tags(&tags);
    assert_eq!(copy, tags);
    assert_eq!(copy.0.len(), 2);
    assert_eq!(copy.0[1].1.len(), 2);
    assert_eq!(copy_tags(&Tags::new()), Tags::new());
    let t = pointer_to("::proj::m::T");
    let copy = copy_typed(&t);
    assert_eq!(copy, t);
    assert_eq!(copy.ptr.len(), 2);
    assert_eq!(copy.ptr[0].tags, tagged());
}

#[test]
fn new_tags_hold_nothing() {
    let tags = Tags::new();
    assert!(tags.0.is_empty());
    assert!(!tags.contains_key("mut"));
    assert_eq!(tags.get("mut"), None);
}

#[test]
fn name_from_text_splits_on_the_separator() {
    assert_eq!(Name::from("::a::b"), Name(vec!["".to_string(), "a".to_string(), "b".to_string()]));
    assert_eq!(Name::from(&"x".to_string()), Name(vec!["x".to_string()]));
    assert_eq!(Name::from("a::b"), Name::parse("a::b"));
}
