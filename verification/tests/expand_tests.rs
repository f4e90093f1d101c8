use zz::ast::{
    AnonArg, Array, Block, Def, Expression, Field, Import, InfixOperator, Local, Location, Module,
    Statement, Tags, Tail, Type, Typed, Visibility,
};
use zz::expand::{call_sites, expand, sieve};
use zz::loader;
use zz::makro::uses_macros;
use zz::name::Name;
use zz::pipeline::{macro_artifact, Pipeline};
use zz::project::{ArtifactType, Config, Project};

fn at(line: usize) -> Location {
    Location { file: "u.zz".to_string(), start: line * 10, end: line * 10 + 5, line, col: 1 }
}

fn named(name: &str, line: usize) -> Typed {
    Typed { name: Name::from(name), t: Type::Other, loc: at(line), ptr: vec![] }
}

fn number(v: &str) -> Expression {
    Expression::Literal { loc: at(0), v: v.to_string() }
}

fn macro_call(name: &str, line: usize, args: Vec<Expression>) -> Expression {
    Expression::MacroCall {
        loc: at(line),
        name: Name::from(name),
        args: args.into_iter().map(Box::new).collect(),
    }
}

fn struct_literal(line: usize) -> Expression {
    Expression::StructInit {
        loc: at(line),
        typed: named("Point", line),
        fields: vec![("x".to_string(), Box::new(number("1"))), ("y".to_string(), Box::new(number("2")))],
    }
}

fn function(name: &str, body: Vec<Statement>) -> Local {
    Local {
        name: name.to_string(),
        export_as: None,
        vis: Visibility::Export,
        loc: at(1),
        def: Def::Function {
            ret: Some(AnonArg { typed: named("int", 1) }),
            args: vec![],
            body: Block { end: at(99), statements: body },
            vararg: false,
        },
    }
}

fn a_macro(name: &str) -> Local {
    Local {
        name: name.to_string(),
        export_as: None,
        vis: Visibility::Export,
        loc: at(2),
        def: Def::Macro {
            args: vec!["n".to_string()],
            body: Block { end: at(98), statements: vec![Statement::Return { loc: at(3), expr: None }] },
        },
    }
}

fn point() -> Local {
    Local {
        name: "Point".to_string(),
        export_as: None,
        vis: Visibility::Export,
        loc: at(4),
        def: Def::Struct {
            fields: vec![
                Field { typed: named("int", 5), name: "x".to_string(), array: Array::Absent, tags: Tags::new(), loc: at(5) },
                Field { typed: named("int", 6), name: "y".to_string(), array: Array::Absent, tags: Tags::new(), loc: at(6) },
            ],
            packed: false,
            tail: Tail::Absent,
            union: false,
        },
    }
}

fn module(name: &str, imports: Vec<Import>, locals: Vec<Local>) -> Module {
    Module {
        name: Name::from(name),
        source: format!("src/{}.zz", name),
        locals,
        imports,
        includes: vec![],
        sources: vec![],
        aliases: vec![],
    }
}

fn var(name: &str, line: usize, assign: Expression) -> Statement {
    Statement::Var {
        loc: at(line),
        typed: named("Point", line),
        tags: Tags::new(),
        name: name.to_string(),
        array: None,
        assign: Some(assign),
    }
}

fn body_of(m: &Module, local: usize) -> &Vec<Statement> {
    match &m.locals[local].def {
        Def::Function { body, .. } => &body.statements,
        _ => panic!("no function"),
    }
}

#[test]
fn sieve_lists_the_macros_in_order() {
    let m = module(
        "::proj::m",
        vec![],
        vec![a_macro("make"), function("helper", vec![]), point(), a_macro("other")],
    );
    let found: Vec<Name> = sieve(&m).iter().map(|unit| unit.name.clone()).collect();
    assert_eq!(found, vec![Name::from("::proj::m::make"), Name::from("::proj::m::other")]);
    assert!(sieve(&module("::proj::n", vec![], vec![point()])).is_empty());
}

#[test]
fn macro_is_built_as_a_module_with_an_entry_point() {
    let using = Import {
        name: Name::from("n"),
        alias: Some("x".to_string()),
        local: vec![("a".to_string(), None), ("b".to_string(), Some("c".to_string()))],
        vis: Visibility::Object,
        loc: at(7),
    };
    let mut m = module("::proj::m", vec![using.clone()], vec![point(), a_macro("make")]);
    m.sources = vec!["/abs/m.zz".to_string()];
    m.aliases = vec![(Name::from("::proj::n::a"), "a".to_string())];
    let units = sieve(&m);
    assert_eq!(units.len(), 1);
    let unit = &units[0];
    assert_eq!(unit.name, Name::from("::proj::m::make"));
    assert_eq!(unit.source, m.source);
    assert_eq!(unit.sources, m.sources);
    assert_eq!(unit.imports, vec![using]);
    assert!(unit.includes.is_empty());
    assert!(unit.aliases.is_empty());
    assert_eq!(unit.locals.len(), 1);
    let entry = &unit.locals[0];
    assert_eq!(entry.name, "main");
    assert_eq!(entry.export_as, None);
    assert_eq!(entry.vis, Visibility::Export);
    assert_eq!(entry.loc, at(2));
    match &entry.def {
        Def::Function { ret, args, body, vararg } => {
            assert!(!*vararg);
            let ret = &ret.as_ref().unwrap().typed;
            assert_eq!(ret.name, Name::from("int"));
            assert_eq!(ret.t, Type::Other);
            assert!(ret.ptr.is_empty());
            assert_eq!(args.len(), 1);
            assert_eq!(args[0].name, "n");
            assert_eq!(args[0].typed.name, Name::from("char"));
            assert_eq!(args[0].typed.ptr.len(), 1);
            assert!(args[0].tags.0.is_empty());
            assert_eq!(
                *body,
                Block { end: at(98), statements: vec![Statement::Return { loc: at(3), expr: None }] }
            );
        },
        other => panic!("unexpected {:?}", other),
    }
    assert_eq!(zz::expand::macro_module(&m, &m.locals[1]), units[0]);
}

#[test]
fn call_sites_are_listed_left_to_right() {
    let sum = Expression::InfixOperation {
        loc: at(10),
        lhs: Box::new(macro_call("one", 11, vec![])),
        rhs: vec![
            ((InfixOperator::Add, at(10)), Box::new(number("1"))),
            ((InfixOperator::Add, at(10)), Box::new(macro_call("two", 12, vec![macro_call("inner", 13, vec![])]))),
        ],
    };
    let cond = Statement::Cond {
        op: "if".to_string(),
        expr: Some(macro_call("three", 14, vec![])),
        body: Block { end: at(90), statements: vec![Statement::Expr { loc: at(15), expr: macro_call("four", 15, vec![]) }] },
    };
    let u = module(
        "::proj::u",
        vec![],
        vec![
            function("f", vec![Statement::Expr { loc: at(10), expr: sum }, cond]),
            point(),
            function("g", vec![Statement::Return { loc: at(16), expr: Some(macro_call("five", 16, vec![])) }]),
        ],
    );
    let lines: Vec<usize> = call_sites(&u).iter().map(|e| e.loc().line).collect();
    assert_eq!(lines, vec![11, 12, 14, 15, 16]);
    assert!(call_sites(&module("::proj::n", vec![], vec![point()])).is_empty());
}

#[test]
fn expansion_replaces_each_call_site_in_order() {
    let u = module(
        "::proj::u",
        vec![],
        vec![function(
            "f",
            vec![
                var("a", 20, macro_call("make", 21, vec![number("1")])),
                var("b", 22, macro_call("make", 23, vec![number("2")])),
            ],
        )],
    );
    let before = u.clone();
    let out = expand(u, vec![struct_literal(31), struct_literal(32)]);
    assert!(!uses_macros(&out));
    assert_eq!(body_of(&out, 0)[0], var("a", 20, struct_literal(31)));
    assert_eq!(body_of(&out, 0)[1], var("b", 22, struct_literal(32)));
    assert_eq!(out.name, before.name);
    assert_eq!(out.source, before.source);
    assert_eq!(out.locals.len(), before.locals.len());
    assert_eq!(out.locals[0].name, "f");
}

#[test]
fn call_sites_without_a_tree_stay() {
    let calls = || {
        vec![
            var("a", 20, macro_call("make", 21, vec![])),
            var("b", 22, macro_call("make", 23, vec![])),
            var("c", 24, macro_call("make", 25, vec![])),
        ]
    };
    let u = module("::proj::u", vec![], vec![function("f", calls())]);
    let out = expand(u.clone(), vec![struct_literal(31)]);
    assert!(uses_macros(&out));
    assert_eq!(body_of(&out, 0)[0], var("a", 20, struct_literal(31)));
    assert_eq!(body_of(&out, 0)[1], calls()[1]);
    assert_eq!(body_of(&out, 0)[2], calls()[2]);
    let lines: Vec<usize> = call_sites(&out).iter().map(|e| e.loc().line).collect();
    assert_eq!(lines, vec![23, 25]);
    assert_eq!(expand(u.clone(), vec![]), u);
    let more = expand(u, vec![number("1"), number("2"), number("3"), number("4")]);
    assert!(!uses_macros(&more));
    assert_eq!(body_of(&more, 0)[2], var("c", 24, number("3")));
}

#[test]
fn module_without_call_sites_is_unchanged() {
    let m = module("::proj::m", vec![], vec![a_macro("make"), point(), function("f", vec![])]);
    assert_eq!(expand(m.clone(), vec![struct_literal(1)]), m);
}

#[test]
fn macro_is_built_first_and_its_output_replaces_the_call() {
    let m = module("::proj::m", vec![], vec![a_macro("make"), point()]);
    let using = Import {
        name: Name::from("m"),
        alias: None,
        local: vec![("make".to_string(), None), ("Point".to_string(), None)],
        vis: Visibility::Object,
        loc: at(7),
    };
    let u = module(
        "::proj::u",
        vec![using],
        vec![function("main", vec![var("p", 20, macro_call("make", 21, vec![number("1")]))])],
    );
    let units = sieve(&m);
    assert_eq!(units.len(), 1);
    let artifact = macro_artifact(&units[0].name);
    assert_eq!(artifact.name, "proj_m_make");
    assert_eq!(artifact.main, "::proj::m::make");
    assert_eq!(artifact.typ, ArtifactType::Macro);

    let config = Config { project: Project { name: "proj".to_string() }, artifacts: vec![], dependencies: vec![] };
    let p = Pipeline::new(config, "default".to_string(), vec![loader::Module::ZZ(m), loader::Module::ZZ(u)]);
    let mut p = p.do_abs().ok().unwrap();
    assert_eq!(p.completed_abs, vec![true, false]);
    p.macros_done();
    let (p, _) = p.resolve_all().ok().unwrap();
    assert_eq!(p.pending_count(), 0);
    let sites = match &p.modules[1] {
        loader::Module::ZZ(tree) => call_sites(tree).len(),
        _ => panic!("no source module"),
    };
    assert_eq!(sites, 1);

    let p = p.expand(1, vec![struct_literal(40)]);
    assert_eq!(p.completed_abs, vec![true, false]);
    let (p, passes) = p.resolve_all().ok().unwrap();
    assert_eq!(passes, 1);
    match &p.modules[1] {
        loader::Module::ZZ(tree) => {
            assert!(!uses_macros(tree));
            assert!(call_sites(tree).is_empty());
            match &body_of(tree, 0)[0] {
                Statement::Var { assign: Some(Expression::StructInit { typed, fields, .. }), .. } => {
                    assert_eq!(typed.name, Name::from("::proj::m::Point"));
                    assert_eq!(fields.len(), 2);
                },
                other => panic!("unexpected {:?}", other),
            }
        },
        _ => panic!("no source module"),
    }
    match &p.modules[0] {
        loader::Module::ZZ(tree) => assert_eq!(tree.locals.len(), 2),
        _ => panic!("no source module"),
    }
}

#[test]
fn macro_modules_are_registered_after_the_modules_that_define_them() {
    let m = module("::proj::m", vec![], vec![a_macro("make"), point(), a_macro("other")]);
    let n = module("::proj::n", vec![], vec![point()]);
    let o = module("::proj::o", vec![], vec![a_macro("third")]);
    let header = loader::Module::C { name: Name::from("::proj::h"), path: "h.h".to_string() };
    let given = vec![
        loader::Module::ZZ(m.clone()),
        header.clone(),
        loader::Module::ZZ(n.clone()),
        loader::Module::ZZ(o.clone()),
    ];
    let (all, names) = zz::expand::with_macro_modules(given.clone());
    assert_eq!(
        names,
        vec![Name::from("::proj::m::make"), Name::from("::proj::m::other"), Name::from("::proj::o::third")]
    );
    assert_eq!(all.len(), 7);
    assert_eq!(all[..4].to_vec(), given);
    assert_eq!(all[4], loader::Module::ZZ(sieve(&m).remove(0)));
    assert_eq!(all[5], loader::Module::ZZ(sieve(&m).remove(1)));
    assert_eq!(all[6], loader::Module::ZZ(sieve(&o).remove(0)));
    let (same, none) = zz::expand::with_macro_modules(vec![header.clone(), loader::Module::ZZ(n)]);
    assert_eq!(same.len(), 2);
    assert!(none.is_empty());
    let config = Config { project: Project { name: "proj".to_string() }, artifacts: vec![], dependencies: vec![] };
    let p = Pipeline::new(config, "default".to_string(), all);
    let listed: Vec<String> = p.modules.iter().map(|x| loader::name_of(x).to_string()).collect();
    assert_eq!(
        listed,
        vec![
            "::proj::h",
            "::proj::m",
            "::proj::m::make",
            "::proj::m::other",
            "::proj::n",
            "::proj::o",
            "::proj::o::third"
        ]
    );
    let (p, _) = p.resolve_all().ok().unwrap();
    assert_eq!(p.pending_count(), 0);
}
