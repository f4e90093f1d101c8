use zz::ast::{
    AnonArg, Array, Block, Def, Expression, Field, Local, Location, Module, NamedArg, Pointer,
    Statement, Tags, Tail, Type, Typed, Visibility,
};
use zz::flatten::{flatten, node_table, FlattenError, TypeComplete};
use zz::loader;
use zz::name::Name;
use zz::uses::collect_def;

fn loc(line: usize) -> Location {
    Location { file: "m.zz".to_string(), start: 0, end: 0, line, col: 1 }
}

fn ty(name: &str, pointers: usize) -> Typed {
    let ptr = (0..pointers).map(|_| Pointer { loc: loc(1), tags: Tags::new() }).collect();
    Typed { name: Name::from(name), t: Type::Other, loc: loc(1), ptr }
}

fn int_type() -> Typed {
    Typed { name: Name::from("::ext::<builtin>::int"), t: Type::Int, loc: loc(1), ptr: vec![] }
}

fn st(name: &str, fields: Vec<(&str, Typed)>) -> Local {
    Local {
        name: name.to_string(),
        export_as: None,
        vis: Visibility::Export,
        loc: loc(1),
        def: Def::Struct {
            fields: fields
                .into_iter()
                .map(|(n, typed)| Field {
                    typed,
                    name: n.to_string(),
                    array: Array::Absent,
                    tags: Tags::new(),
                    loc: loc(1),
                })
                .collect(),
            packed: false,
            tail: Tail::Absent,
            union: false,
        },
    }
}

fn func(name: &str, args: Vec<Typed>, body: Vec<Statement>) -> Local {
    Local {
        name: name.to_string(),
        export_as: None,
        vis: Visibility::Export,
        loc: loc(1),
        def: Def::Function {
            ret: Some(AnonArg { typed: int_type() }),
            args: args
                .into_iter()
                .map(|typed| NamedArg { typed, name: "a".to_string(), tags: Tags::new(), loc: loc(1) })
                .collect(),
            body: Block { end: loc(9), statements: body },
            vararg: false,
        },
    }
}

fn module(name: &str, locals: Vec<Local>) -> loader::Module {
    loader::Module::ZZ(Module {
        name: Name::from(name),
        source: "s".to_string(),
        locals,
        imports: vec![],
        includes: vec![],
        sources: vec![format!("src/{}.zz", name.rsplit("::").next().unwrap_or(""))],
        aliases: vec![(Name::from("::proj::a::T"), "T".to_string())],
    })
}

fn sample() -> Vec<loader::Module> {
    vec![
        module(
            "::proj::b",
            vec![
                func("f", vec![ty("::proj::b::S", 0)], vec![]),
                st("S", vec![("t", ty("::proj::a::T", 0)), ("p", ty("::proj::b::P", 1))]),
                st("P", vec![("s", ty("::proj::b::S", 1))]),
            ],
        ),
        loader::Module::C { name: Name::from("::proj::h"), path: "h.h".to_string() },
        module(
            "::proj::a",
            vec![st("Unused", vec![]), st("T", vec![("n", int_type())])],
        ),
    ]
}

#[test]
fn table_lists_every_definition_in_order() {
    let (spots, names) = node_table(&sample());
    assert_eq!(spots, vec![(0, 0), (0, 1), (0, 2), (2, 0), (2, 1)]);
    assert_eq!(names[1], Name::from("::proj::b::S"));
    assert_eq!(names[4], Name::from("::proj::a::T"));
}

#[test]
fn references_are_collected_with_their_kind() {
    let modules = sample();
    let s = match &modules[0] {
        loader::Module::ZZ(m) => &m.locals[1],
        _ => panic!(),
    };
    let uses = collect_def(&s.def);
    assert_eq!(uses.len(), 2);
    assert_eq!((*uses[0].0).clone(), Name::from("::proj::a::T"));
    assert!(uses[0].1);
    assert!(!uses[1].1);
    let body = vec![
        Statement::Var {
            loc: loc(1),
            typed: ty("::proj::a::T", 0),
            tags: Tags::new(),
            name: "v".to_string(),
            array: None,
            assign: Some(Expression::Call { loc: loc(1), name: ty("::proj::a::g", 0), args: vec![] }),
        },
    ];
    let f = func("f", vec![ty("::proj::b::S", 1)], body);
    let uses = collect_def(&f.def);
    let flat: Vec<(String, bool)> = uses.iter().map(|u| (u.0.to_string(), u.1)).collect();
    assert_eq!(
        flat,
        vec![
            ("::proj::b::S".to_string(), false),
            ("::proj::a::T".to_string(), true),
            ("::proj::a::g".to_string(), false),
        ]
    );
}

#[test]
fn by_value_types_come_before_what_holds_them() {
    let modules = sample();
    let flat = flatten(0, &modules).unwrap();
    assert_eq!(flat.name, Name::from("::proj::b"));
    assert_eq!(flat.sources, vec!["src/b.zz".to_string(), "src/a.zz".to_string()]);
    assert_eq!(*flat.aliases, vec![(Name::from("::proj::a::T"), "T".to_string())]);
    let listed: Vec<(String, TypeComplete, usize)> =
        flat.d.iter().map(|e| (e.name.clone(), e.complete, e.node)).collect();
    assert_eq!(
        listed,
        vec![
            ("::proj::a::T".to_string(), TypeComplete::Incomplete, 4),
            ("::proj::b::P".to_string(), TypeComplete::Incomplete, 2),
            ("::proj::b::S".to_string(), TypeComplete::Incomplete, 1),
            ("::proj::b::f".to_string(), TypeComplete::Incomplete, 0),
            ("::proj::a::T".to_string(), TypeComplete::Complete, 4),
            ("::proj::b::P".to_string(), TypeComplete::Complete, 2),
            ("::proj::b::S".to_string(), TypeComplete::Complete, 1),
            ("::proj::b::f".to_string(), TypeComplete::Complete, 0),
        ]
    );
    assert_eq!(flat.d[6].local.name, "S");
    let pos = |name: &str| {
        flat.d
            .iter()
            .position(|e| e.name == name && e.complete == TypeComplete::Complete)
            .unwrap()
    };
    assert!(pos("::proj::a::T") < pos("::proj::b::S"));
    assert!(pos("::proj::b::S") < pos("::proj::b::f"));
}

#[test]
fn module_without_references_is_flattened_alone() {
    let modules = sample();
    let flat = flatten(2, &modules).unwrap();
    let names: Vec<&str> = flat.d.iter().map(|e| e.name.as_str()).collect();
    assert_eq!(names, vec!["::proj::a::T", "::proj::a::Unused", "::proj::a::T", "::proj::a::Unused"]);
    assert_eq!(flat.sources, vec!["src/a.zz".to_string()]);
}

#[test]
fn by_value_circle_is_a_cycle_error() {
    let modules = vec![module(
        "::proj::c",
        vec![
            st("A", vec![("b", ty("::proj::c::B", 0))]),
            st("B", vec![("a", ty("::proj::c::A", 0))]),
        ],
    )];
    match flatten(0, &modules) {
        Err(FlattenError::Cycle(name)) => assert!(name == "::proj::c::A" || name == "::proj::c::B"),
        Ok(_) => panic!("flattened"),
    }
    let own = vec![module("::proj::c", vec![st("A", vec![("a", ty("::proj::c::A", 0))])])];
    assert_eq!(flatten(0, &own).err(), Some(FlattenError::Cycle("::proj::c::A".to_string())));
}

#[test]
fn pointer_circle_is_broken_by_forward_declarations() {
    let modules = vec![module(
        "::proj::c",
        vec![
            st("A", vec![("b", ty("::proj::c::B", 1))]),
            st("B", vec![("a", ty("::proj::c::A", 1))]),
        ],
    )];
    let flat = flatten(0, &modules).unwrap();
    let listed: Vec<(usize, TypeComplete)> = flat.d.iter().map(|e| (e.node, e.complete)).collect();
    assert_eq!(
        listed,
        vec![
            (0, TypeComplete::Incomplete),
            (1, TypeComplete::Incomplete),
            (0, TypeComplete::Complete),
            (1, TypeComplete::Complete),
        ]
    );
}

#[test]
fn flattening_twice_gives_the_same_list() {
    let modules = sample();
    let one = flatten(0, &modules).unwrap();
    let again = sample();
    let other = flatten(0, &again).unwrap();
    let listed = |m: &zz::flatten::Module| -> Vec<(String, TypeComplete, usize)> {
        m.d.iter().map(|e| (e.name.clone(), e.complete, e.node)).collect()
    };
    assert_eq!(listed(&one), listed(&other));
}

#[test]
fn flattened_module_is_closed_when_every_definition_it_names_is_there() {
    let modules = sample();
    let flat = flatten(0, &modules).unwrap();
    assert!(zz::closed::is_closed(&flat, &vec![]));
    let alone = flatten(2, &modules).unwrap();
    assert!(zz::closed::is_closed(&alone, &vec![]));
    let missing = vec![module("::proj::b", vec![st("S", vec![("t", ty("::proj::gone::T", 0))])])];
    let flat = flatten(0, &missing).unwrap();
    assert!(!zz::closed::is_closed(&flat, &vec![]));
    assert!(zz::closed::is_closed(&flat, &vec![Name::from("::proj::gone")]));
    assert!(!zz::closed::is_closed(&flat, &vec![Name::from("::proj::other")]));
    let foreign = vec![module("::proj::b", vec![st("S", vec![("t", ty("::ext::<stdio.h>::FILE", 1))])])];
    let flat = flatten(0, &foreign).unwrap();
    assert!(zz::closed::is_closed(&flat, &vec![]));
}
