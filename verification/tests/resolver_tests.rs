use zz::abs::{abs, Resolution};
use zz::ast::{
    AnonArg, Array, Block, Def, Expression, Field, Import, InfixOperator, Local, Location, Module,
    NamedArg, Statement, Storage, Tags, Tail, Type, Typed, Visibility,
};
use zz::loader;
use zz::name::Name;
use zz::pipeline::Pipeline;
use zz::project::{Config, Project};
use zz::resolver::{
    check_access, exports_of, resolve, target_of, Access, Binding, Context, Exports, ResolveError,
};

fn loc(line: usize) -> Location {
    Location { file: "m.zz".to_string(), start: 0, end: 0, line, col: 1 }
}

fn ty(name: &str, line: usize) -> Typed {
    Typed { name: Name::from(name), t: Type::Other, loc: loc(line), ptr: vec![] }
}

fn block(statements: Vec<Statement>) -> Block {
    Block { end: loc(99), statements }
}

fn function(name: &str, vis: Visibility, body: Vec<Statement>) -> Local {
    Local {
        name: name.to_string(),
        export_as: None,
        vis,
        loc: loc(1),
        def: Def::Function {
            ret: Some(AnonArg { typed: ty("int", 2) }),
            args: vec![],
            body: block(body),
            vararg: false,
        },
    }
}

fn ret(expr: Expression) -> Statement {
    Statement::Return { loc: loc(3), expr: Some(expr) }
}

fn num(v: &str) -> Expression {
    Expression::Literal { loc: loc(4), v: v.to_string() }
}

fn call(name: &str, line: usize) -> Expression {
    Expression::Call { loc: loc(line), name: ty(name, line), args: vec![] }
}

fn import(name: &str, line: usize) -> Import {
    Import { name: Name::from(name), alias: None, local: vec![], vis: Visibility::Object, loc: loc(line) }
}

fn module(name: &str, imports: Vec<Import>, locals: Vec<Local>) -> Module {
    Module {
        name: Name::from(name),
        source: format!("src/{}.zz", name),
        locals,
        imports,
        includes: vec![],
        sources: vec![],
        aliases: vec![],
    }
}

fn module_a() -> Module {
    module(
        "::proj::a",
        vec![],
        vec![
            function("ping", Visibility::Export, vec![ret(num("7"))]),
            function("secret", Visibility::Object, vec![ret(num("1"))]),
            function("shared", Visibility::Shared, vec![ret(call("secret", 5))]),
        ],
    )
}

fn module_b(imports: Vec<Import>, body: Vec<Statement>) -> Module {
    module("::proj::b", imports, vec![function("main", Visibility::Export, body)])
}

fn ping_plus_one() -> Vec<Statement> {
    vec![ret(Expression::InfixOperation {
        loc: loc(6),
        lhs: Box::new(call("ping", 6)),
        rhs: vec![((InfixOperator::Add, loc(6)), Box::new(num("1")))],
    })]
}

fn everyone(b: &Module) -> Vec<Exports> {
    vec![exports_of(&module_a()), exports_of(b)]
}

fn resolved(m: Module, all: &Vec<Exports>) -> Module {
    match abs(m, all, true) {
        Ok(Resolution::Complete(m)) => m,
        other => panic!("not resolved: {:?}", other),
    }
}

fn body_of(m: &Module, local: usize) -> &Vec<Statement> {
    match &m.locals[local].def {
        Def::Function { body, .. } => &body.statements,
        _ => panic!("no function"),
    }
}

#[test]
fn cross_module_import_is_resolved_and_aliased() {
    let b = module_b(vec![import("a::ping", 10)], ping_plus_one());
    let all = everyone(&b);
    let out = resolved(b, &all);
    assert_eq!(out.aliases, vec![(Name::from("::proj::a::ping"), "ping".to_string())]);
    match &body_of(&out, 0)[0] {
        Statement::Return { expr: Some(Expression::InfixOperation { lhs, .. }), .. } => match &**lhs {
            Expression::Call { name, .. } => {
                assert_eq!(name.name, Name::from("::proj::a::ping"));
                assert!(name.name.is_absolute());
                assert_eq!(name.t, Type::Other);
            },
            other => panic!("unexpected {:?}", other),
        },
        other => panic!("unexpected {:?}", other),
    }
    match &out.locals[0].def {
        Def::Function { ret: Some(r), .. } => {
            assert_eq!(r.typed.t, Type::Int);
            assert_eq!(r.typed.name, Name::from("::ext::<builtin>::int"));
        },
        _ => panic!("no function"),
    }
    assert_eq!(out.name, Name::from("::proj::b"));
    assert_eq!(out.imports.len(), 1);
}

#[test]
fn import_of_a_private_definition_is_a_visibility_violation() {
    let b = module_b(vec![import("a::secret", 10)], vec![ret(call("secret", 6))]);
    let all = everyone(&b);
    assert_eq!(abs(b, &all, true), Err(ResolveError::VisibilityViolation(loc(10))));
}

#[test]
fn private_definition_through_a_module_import_is_a_violation_at_the_use() {
    let b = module_b(vec![import("a", 10)], vec![ret(call("a::secret", 6))]);
    let all = everyone(&b);
    assert_eq!(abs(b, &all, true), Err(ResolveError::VisibilityViolation(loc(6))));
    let ok = module_b(vec![import("a", 10)], vec![ret(call("a::shared", 6))]);
    let all = everyone(&ok);
    let out = resolved(ok, &all);
    assert_eq!(out.aliases, vec![(Name::from("::proj::a::shared"), "shared".to_string())]);
}

#[test]
fn own_private_definition_may_be_used() {
    let a = module_a();
    let all = vec![exports_of(&a)];
    let out = resolved(a, &all);
    match &body_of(&out, 2)[0] {
        Statement::Return { expr: Some(Expression::Call { name, .. }), .. } => {
            assert_eq!(name.name, Name::from("::proj::a::secret"));
        },
        other => panic!("unexpected {:?}", other),
    }
}

#[test]
fn unknown_names_are_reported_where_they_stand() {
    let b = module_b(vec![], vec![ret(call("nope", 6))]);
    let all = everyone(&b);
    assert_eq!(abs(b, &all, true), Err(ResolveError::UnknownSymbol(loc(6))));
    let b = module_b(vec![import("a::nope", 10)], vec![]);
    let all = everyone(&b);
    assert_eq!(abs(b, &all, true), Err(ResolveError::UnknownSymbol(loc(10))));
    let b = module_b(vec![import("a::ping", 10)], vec![ret(call("ping::more", 6))]);
    let all = everyone(&b);
    assert_eq!(abs(b, &all, true), Err(ResolveError::UnknownSymbol(loc(6))));
}

#[test]
fn two_meanings_of_one_identifier_are_ambiguous() {
    let c = module("::proj::c", vec![], vec![function("ping", Visibility::Export, vec![])]);
    let b = module_b(vec![import("a::ping", 10), import("c::ping", 11)], vec![]);
    let all = vec![exports_of(&module_a()), exports_of(&c), exports_of(&b)];
    assert_eq!(abs(b, &all, true), Err(ResolveError::Ambiguous(loc(11))));
    let twice = module_b(
        vec![import("a::ping", 10), import("a::ping", 11)],
        vec![ret(call("ping", 6)), ret(call("ping", 7))],
    );
    let all = everyone(&twice);
    let out = resolved(twice, &all);
    assert_eq!(out.aliases, vec![(Name::from("::proj::a::ping"), "ping".to_string())]);
    let unused = module_b(vec![import("a::ping", 10)], vec![]);
    let all = everyone(&unused);
    assert!(resolved(unused, &all).aliases.is_empty());
}

#[test]
fn aliases_are_sorted_by_name_and_numbered_where_they_collide() {
    let c = module("::proj::c", vec![], vec![function("ping", Visibility::Export, vec![])]);
    let d = module("::dep::d", vec![], vec![function("ping", Visibility::Export, vec![])]);
    let b = module_b(
        vec![import("c", 10), import("a", 11), import("::dep::d", 12)],
        vec![
            ret(call("c::ping", 6)),
            ret(call("a::shared", 7)),
            ret(call("a::ping", 8)),
            ret(call("d::ping", 9)),
            ret(call("c::ping", 10)),
            ret(call("main", 11)),
        ],
    );
    let all = vec![exports_of(&module_a()), exports_of(&c), exports_of(&d), exports_of(&b)];
    let out = resolved(b, &all);
    assert_eq!(
        out.aliases,
        vec![
            (Name::from("::dep::d::ping"), "ping".to_string()),
            (Name::from("::proj::a::ping"), "ping_1".to_string()),
            (Name::from("::proj::a::shared"), "shared".to_string()),
            (Name::from("::proj::c::ping"), "ping_2".to_string()),
        ]
    );
}

#[test]
fn picks_and_aliases_bind_identifiers() {
    let mut imp = import("a", 10);
    imp.local = vec![("ping".to_string(), Some("p".to_string())), ("shared".to_string(), None)];
    let b = module_b(vec![imp], vec![ret(call("p", 6)), ret(call("shared", 7))]);
    let all = everyone(&b);
    let out = resolved(b, &all);
    assert_eq!(
        out.aliases,
        vec![
            (Name::from("::proj::a::ping"), "ping".to_string()),
            (Name::from("::proj::a::shared"), "shared".to_string()),
        ]
    );
    let mut named = import("a", 10);
    named.alias = Some("x".to_string());
    let b = module_b(vec![named], vec![ret(call("x::ping", 6))]);
    let all = everyone(&b);
    let out = resolved(b, &all);
    match &body_of(&out, 0)[0] {
        Statement::Return { expr: Some(Expression::Call { name, .. }), .. } => {
            assert_eq!(name.name, Name::from("::proj::a::ping"));
        },
        other => panic!("unexpected {:?}", other),
    }
}

#[test]
fn variables_are_in_scope_after_their_declaration() {
    let var = |name: &str, line: usize, assign: Option<Expression>| Statement::Var {
        loc: loc(line),
        typed: ty("u8", line),
        tags: Tags::new(),
        name: name.to_string(),
        array: None,
        assign,
    };
    let name = |n: &str, line: usize| Expression::Name(ty(n, line));
    let b = module_b(
        vec![],
        vec![var("x", 5, None), Statement::Block(Box::new(block(vec![var("y", 6, Some(name("x", 6)))]))), ret(name("x", 7))],
    );
    let all = everyone(&b);
    let out = resolved(b, &all);
    match &body_of(&out, 0)[2] {
        Statement::Return { expr: Some(Expression::Name(t)), .. } => {
            assert_eq!(t.name, Name(vec!["".to_string(), "x".to_string()]));
        },
        other => panic!("unexpected {:?}", other),
    }
    match &body_of(&out, 0)[0] {
        Statement::Var { typed, .. } => assert_eq!(typed.t, Type::U8),
        other => panic!("unexpected {:?}", other),
    }
    let early = module_b(vec![], vec![ret(name("x", 4)), var("x", 5, None)]);
    let all = everyone(&early);
    assert_eq!(abs(early, &all, true), Err(ResolveError::UnknownSymbol(loc(4))));
    let escaped = module_b(
        vec![],
        vec![Statement::Block(Box::new(block(vec![var("y", 6, None)]))), ret(name("y", 8))],
    );
    let all = everyone(&escaped);
    assert_eq!(abs(escaped, &all, true), Err(ResolveError::UnknownSymbol(loc(8))));
    let own = module_b(vec![], vec![var("x", 5, Some(name("x", 5)))]);
    let all = everyone(&own);
    assert_eq!(abs(own, &all, true), Err(ResolveError::UnknownSymbol(loc(5))));
}

#[test]
fn arguments_are_in_scope_in_the_body() {
    let mut f = function("f", Visibility::Object, vec![ret(Expression::Name(ty("n", 7)))]);
    if let Def::Function { args, .. } = &mut f.def {
        args.push(NamedArg { typed: ty("usize", 2), name: "n".to_string(), tags: Tags::new(), loc: loc(2) });
    }
    let m = module("::proj::m", vec![], vec![f]);
    let all = vec![exports_of(&m)];
    let out = resolved(m, &all);
    match &out.locals[0].def {
        Def::Function { args, .. } => assert_eq!(args[0].typed.t, Type::USize),
        _ => panic!(),
    }
}

#[test]
fn storage_classes_are_for_statics_only() {
    let st = |vis: Visibility| Local {
        name: "counter".to_string(),
        export_as: None,
        vis,
        loc: loc(20),
        def: Def::Static {
            tags: Tags::new(),
            typed: ty("int", 21),
            expr: num("0"),
            storage: Storage::ThreadLocal,
        },
    };
    let ok = module("::proj::m", vec![], vec![st(Visibility::Object)]);
    let all = vec![exports_of(&ok)];
    resolved(ok, &all);
    let bad = module("::proj::m", vec![], vec![st(Visibility::Export)]);
    let all = vec![exports_of(&bad)];
    assert_eq!(abs(bad, &all, true), Err(ResolveError::IllegalStorage(loc(20))));
    let mut tags = Tags::new();
    tags.insert("thread_local".to_string(), "".to_string(), loc(30));
    let field = Field { typed: ty("int", 31), name: "f".to_string(), array: Array::Absent, tags, loc: loc(30) };
    let s = Local {
        name: "S".to_string(),
        export_as: None,
        vis: Visibility::Object,
        loc: loc(29),
        def: Def::Struct { fields: vec![field], packed: false, tail: Tail::Absent, union: false },
    };
    let m = module("::proj::m", vec![], vec![s]);
    let all = vec![exports_of(&m)];
    assert_eq!(abs(m, &all, true), Err(ResolveError::IllegalStorage(loc(30))));
}

#[test]
fn placeholders_are_left_alone() {
    let mut t = ty("whatever", 5);
    t.t = Type::Elided;
    let b = module_b(vec![], vec![ret(Expression::Name(t.clone()))]);
    let all = everyone(&b);
    let out = resolved(b, &all);
    match &body_of(&out, 0)[0] {
        Statement::Return { expr: Some(Expression::Name(got)), .. } => assert_eq!(*got, t),
        other => panic!("unexpected {:?}", other),
    }
}

#[test]
fn macro_call_sites_wait_for_the_macro_stage() {
    let mac = Expression::MacroCall { loc: loc(6), name: Name::from("ping"), args: vec![] };
    let b = module_b(vec![import("a::ping", 10)], vec![ret(mac)]);
    let all = everyone(&b);
    let same = b.clone();
    assert_eq!(abs(b, &all, false), Ok(Resolution::Pending(same.clone())));
    let out = resolved(same, &all);
    match &body_of(&out, 0)[0] {
        Statement::Return { expr: Some(Expression::MacroCall { name, .. }), .. } => {
            assert_eq!(*name, Name::from("::proj::a::ping"));
        },
        other => panic!("unexpected {:?}", other),
    }
}

#[test]
fn access_rules() {
    let all = vec![exports_of(&module_a())];
    let b = Name::from("::proj::b");
    let a = Name::from("::proj::a");
    assert_eq!(check_access(&all, &b, &Name::from("::proj::a::ping")), Access::Granted);
    assert_eq!(check_access(&all, &b, &Name::from("::proj::a::shared")), Access::Granted);
    assert_eq!(check_access(&all, &b, &Name::from("::proj::a::secret")), Access::Private);
    assert_eq!(check_access(&all, &a, &Name::from("::proj::a::secret")), Access::Granted);
    assert_eq!(check_access(&all, &b, &Name::from("::proj::a::nope")), Access::Unknown);
    assert_eq!(check_access(&all, &b, &Name::from("::proj::zzz::ping")), Access::Unknown);
    assert_eq!(check_access(&all, &b, &Name::from("::ext::<stdio.h>::printf")), Access::Granted);
    assert_eq!(check_access(&all, &b, &Name::from("::x")), Access::Unknown);
    let header = Exports { name: Name::from("::proj::h"), foreign: true, symbols: vec![] };
    assert_eq!(check_access(&vec![header], &b, &Name::from("::proj::h::anything")), Access::Granted);
}

#[test]
fn import_targets_prefer_the_own_namespace() {
    let dep = module("::a", vec![], vec![function("ping", Visibility::Export, vec![])]);
    let all = vec![exports_of(&module_a()), exports_of(&dep)];
    let b = Name::from("::proj::b");
    assert_eq!(target_of(&all, &b, &Name::from("a::ping")), Name::from("::proj::a::ping"));
    assert_eq!(target_of(&all, &b, &Name::from("a")), Name::from("::proj::a"));
    assert_eq!(target_of(&all, &b, &Name::from("::a::ping")), Name::from("::a::ping"));
    let only_dep = vec![exports_of(&dep)];
    assert_eq!(target_of(&only_dep, &b, &Name::from("a::ping")), Name::from("::a::ping"));
    assert_eq!(target_of(&only_dep, &b, &Name::from("zz::top")), Name::from("::zz::top"));
}

#[test]
fn name_lookup_order_is_scope_imports_own_builtin() {
    let all = vec![exports_of(&module_a())];
    let ctx = Context {
        all: &all,
        this: Name::from("::proj::b"),
        bindings: vec![Binding { ident: "int".to_string(), target: Name::from("::proj::a::ping"), module: false }],
        own: vec!["int".to_string(), "u8".to_string()],
    };
    let r = |vars: &[&str], n: &str| {
        resolve(&ctx, &vars.iter().map(|v| v.to_string()).collect(), &Name::from(n))
    };
    assert_eq!(r(&["int"], "int"), Ok((Name(vec!["".to_string(), "int".to_string()]), Type::Other)));
    assert_eq!(r(&[], "int"), Ok((Name::from("::proj::a::ping"), Type::Other)));
    assert_eq!(r(&[], "u8"), Ok((Name::from("::proj::b::u8"), Type::Other)));
    assert_eq!(r(&[], "u16"), Ok((Name::from("::ext::<builtin>::u16"), Type::U16)));
    assert_eq!(r(&[], "void"), Ok((Name::from("::ext::<builtin>::void"), Type::Void)));
    assert_eq!(r(&[], "nothing"), Err(Access::Unknown));
    assert_eq!(r(&[], "::proj::a::secret"), Err(Access::Private));
    assert_eq!(resolve(&ctx, &vec![], &Name(vec![])), Err(Access::Unknown));
}

fn pipeline(modules: Vec<loader::Module>) -> Pipeline {
    let config = Config { project: Project { name: "proj".to_string() }, artifacts: vec![], dependencies: vec![] };
    Pipeline::new(config, "default".to_string(), modules)
}

#[test]
fn one_pass_resolves_modules_without_macros() {
    let b = module_b(vec![import("a::ping", 10)], ping_plus_one());
    let header = loader::Module::C { name: Name::from("::proj::h"), path: "src/h.h".to_string() };
    let p = pipeline(vec![loader::Module::ZZ(b), header, loader::Module::ZZ(module_a())]);
    assert_eq!(p.pending_count(), 3);
    let (p, passes) = p.resolve_all().ok().unwrap();
    assert_eq!(passes, 1);
    assert!(passes <= p.modules.len());
    assert_eq!(p.pending_count(), 0);
    assert_eq!(p.completed_abs, vec![true, true, true]);
    let (p, again) = p.resolve_all().ok().unwrap();
    assert_eq!(again, 0);
    let names: Vec<Name> = p.modules.iter().map(|m| loader::name_of(m).clone()).collect();
    assert_eq!(names, vec![Name::from("::proj::a"), Name::from("::proj::b"), Name::from("::proj::h")]);
    match &p.modules[1] {
        loader::Module::ZZ(m) => assert_eq!(m.aliases.len(), 1),
        _ => panic!(),
    }
}

#[test]
fn modules_with_macro_calls_need_the_second_pass() {
    let mac = Expression::MacroCall { loc: loc(6), name: Name::from("ping"), args: vec![] };
    let b = module_b(vec![import("a::ping", 10)], vec![ret(mac)]);
    let p = pipeline(vec![loader::Module::ZZ(module_a()), loader::Module::ZZ(b)]);
    let mut p = p.do_abs().ok().unwrap();
    assert_eq!(p.completed_abs, vec![true, false]);
    assert_eq!(p.first_pending(), Some(Name::from("::proj::b")));
    p.macros_done();
    let (p, passes) = p.resolve_all().ok().unwrap();
    assert_eq!(passes, 1);
    assert_eq!(p.pending_count(), 0);
}

#[test]
fn pass_without_progress_is_an_unresolved_reference() {
    let mac = Expression::MacroCall { loc: loc(6), name: Name::from("ping"), args: vec![] };
    let b = module_b(vec![import("a::ping", 10)], vec![ret(mac)]);
    let p = pipeline(vec![loader::Module::ZZ(module_a()), loader::Module::ZZ(b)]);
    match p.resolve_all() {
        Err(e) => assert_eq!(e, ResolveError::UnresolvedReference(Name::from("::proj::b"))),
        Ok(_) => panic!("resolved"),
    }
}

#[test]
fn first_fault_stops_the_pass() {
    let bad = module_b(vec![import("a::secret", 10)], vec![]);
    let p = pipeline(vec![loader::Module::ZZ(module_a()), loader::Module::ZZ(bad)]);
    match p.resolve_all() {
        Err(e) => assert_eq!(e, ResolveError::VisibilityViolation(loc(10))),
        Ok(_) => panic!("resolved"),
    }
}
