use zz::abs::{abs, Resolution};
use zz::ast::{Location, Module};
use zz::emitter::{builtin, entry_source, expr_source, outname, stmt_source, typed_source, Emitter};
use zz::emitter_rs::EmitError;
use zz::flatten::{flatten, TypeComplete};
use zz::loader;
use zz::lower::{parse_expr, parse_statement};
use zz::name::Name;
use zz::parser::{parse, Node, Rule};
use zz::resolver::exports_of;

fn at(line: usize) -> Location {
    Location { file: "t.zz".to_string(), start: line, end: line + 1, line, col: 1 }
}

fn node(rule: Rule, line: usize, text: &str, children: Vec<Node>) -> Node {
    Node { rule, loc: at(line), end: at(line + 1000), text: text.to_string(), children }
}

fn leaf(rule: Rule, line: usize, text: &str) -> Node {
    node(rule, line, text, vec![])
}

fn expr(children: Vec<Node>) -> Node {
    node(Rule::expr, 1, "", children)
}

fn num(v: &str) -> Node {
    leaf(Rule::number_literal, 1, v)
}

fn name(n: &str) -> Node {
    leaf(Rule::type_ref, 1, n)
}

fn named(ty: &str, ident: &str) -> Node {
    node(Rule::named_type, 1, "", vec![name(ty), leaf(Rule::ident, 1, ident)])
}

fn anon(ty: &str) -> Node {
    node(Rule::anon_type, 1, "", vec![name(ty)])
}

fn ret(e: Node) -> Node {
    node(Rule::return_stm, 1, "", vec![leaf(Rule::key_return, 1, ""), expr(vec![e])])
}

fn function(ident: &str, exported: bool, ret_ty: Option<&str>, args: Vec<Node>, body: Vec<Node>) -> Node {
    let mut parts = vec![];
    if exported {
        parts.push(leaf(Rule::exported, 1, ""));
    }
    parts.push(leaf(Rule::ident, 1, ident));
    if let Some(t) = ret_ty {
        parts.push(node(Rule::ret_arg, 1, "", vec![anon(t)]));
    }
    parts.push(node(Rule::fn_args, 1, "", args));
    parts.push(node(Rule::block, 1, "", body));
    node(Rule::function, 1, "", parts)
}

fn load(project: &str, stem: &str, decls: Vec<Node>) -> Module {
    let file = node(Rule::file, 0, "", decls);
    let path = format!("src/{}.zz", stem);
    let tree = parse(&file, &path, &format!("/abs/{}", path), stem).unwrap();
    match loader::register(&Name::from(format!("::{}", project).as_str()), &vec![], tree) {
        loader::Module::ZZ(m) => m,
        _ => panic!(),
    }
}

fn resolve_all(modules: Vec<Module>) -> Vec<loader::Module> {
    let all: Vec<_> = modules.iter().map(exports_of).collect();
    modules
        .into_iter()
        .map(|m| match abs(m, &all, true) {
            Ok(Resolution::Complete(m)) => loader::Module::ZZ(m),
            other => panic!("{:?}", other),
        })
        .collect()
}

fn emit(modules: &Vec<loader::Module>, index: usize, header: bool) -> String {
    let flat = flatten(index, modules).unwrap();
    Emitter::new("target", "default", flat, header).emit().unwrap().0
}

const PRELUDE: &str = "#include <stddef.h>\n#include <stdint.h>\n#include <stdbool.h>\n";

#[test]
fn empty_project_declares_and_defines_main() {
    let main = load("proj", "main", vec![function("main", false, Some("int"), vec![], vec![ret(num("0"))])]);
    assert_eq!(main.locals[0].vis, zz::ast::Visibility::Object);
    let modules = resolve_all(vec![main]);
    assert_eq!(
        emit(&modules, 0, true),
        format!("#ifndef ZZ_proj_main_H\n#define ZZ_proj_main_H\n{}extern int main(void);\n#endif\n", PRELUDE)
    );
    assert_eq!(emit(&modules, 0, false), format!("{}int main(void) {{\n    return 0;\n}}\n", PRELUDE));
}

#[test]
fn exported_main_is_written_the_same_and_other_private_functions_stay_private() {
    let main = load("proj", "main", vec![function("main", true, Some("int"), vec![], vec![ret(num("0"))])]);
    let modules = resolve_all(vec![main]);
    assert_eq!(
        emit(&modules, 0, true),
        format!("#ifndef ZZ_proj_main_H\n#define ZZ_proj_main_H\n{}extern int main(void);\n#endif\n", PRELUDE)
    );
    assert_eq!(emit(&modules, 0, false), format!("{}int main(void) {{\n    return 0;\n}}\n", PRELUDE));
    let other = load("proj", "m", vec![function("mainly", false, Some("int"), vec![], vec![ret(num("0"))])]);
    let modules = resolve_all(vec![other]);
    assert_eq!(
        emit(&modules, 0, true),
        format!("#ifndef ZZ_proj_m_H\n#define ZZ_proj_m_H\n{}#endif\n", PRELUDE)
    );
    assert_eq!(
        emit(&modules, 0, false),
        format!("{}static int proj_m_mainly(void) {{\n    return 0;\n}}\n", PRELUDE)
    );
}

#[test]
fn struct_with_dynamic_tail_gets_a_size_query() {
    let buf = node(
        Rule::struct_d,
        1,
        "",
        vec![
            leaf(Rule::exported, 1, ""),
            leaf(Rule::ident, 1, "Buf"),
            node(Rule::struct_f, 1, "", vec![named("usize", "len")]),
            node(Rule::struct_f, 1, "", vec![named("u8", "data"), node(Rule::array, 1, "", vec![])]),
        ],
    );
    let m = load("proj", "m", vec![buf]);
    let modules = resolve_all(vec![m]);
    let forward = "struct proj_m_Buf;\ntypedef struct proj_m_Buf proj_m_Buf;\n";
    let layout = "struct proj_m_Buf {\n    size_t len;\n    uint8_t data[];\n};\n";
    assert_eq!(
        emit(&modules, 0, false),
        format!(
            "{}{}{}size_t sizeof_proj_m_Buf(size_t tail) {{\n    return offsetof(proj_m_Buf,data)+tail*sizeof(uint8_t);\n}}\n",
            PRELUDE, forward, layout
        )
    );
    assert_eq!(
        emit(&modules, 0, true),
        format!(
            "#ifndef ZZ_proj_m_H\n#define ZZ_proj_m_H\n{}{}{}size_t sizeof_proj_m_Buf(size_t tail);\n#endif\n",
            PRELUDE, forward, layout
        )
    );
    let flat = flatten(0, &modules).unwrap();
    let text = zz::emitter_rs::Emitter::new("target", flat).emit().unwrap();
    assert!(text.contains("    pub fn sizeof_Buf(tail: libc::size_t) -> libc::size_t;\n"));
    assert!(text.contains("        let size = unsafe{super::sizeof_Buf(tail)};\n"));
    assert!(text.contains("            let size = super::sizeof_Buf(self.tail);\n"));
}

fn ping_modules() -> Vec<loader::Module> {
    let a = load("proj", "a", vec![function("ping", true, Some("int"), vec![], vec![ret(num("7"))])]);
    let call = node(Rule::call, 1, "", vec![name("ping")]);
    let sum = expr(vec![call, leaf(Rule::infix, 1, "+"), num("1")]);
    let import = node(
        Rule::import,
        9,
        "",
        vec![node(Rule::importname, 1, "", vec![leaf(Rule::ident, 1, "a"), leaf(Rule::ident, 1, "ping")])],
    );
    let b = load("proj", "b", vec![import, function("main", true, Some("int"), vec![], vec![ret(sum)])]);
    resolve_all(vec![a, b])
}

#[test]
fn cross_module_call_goes_through_the_alias() {
    let modules = ping_modules();
    match &modules[1] {
        loader::Module::ZZ(b) => {
            assert_eq!(b.aliases, vec![(Name::from("::proj::a::ping"), "ping".to_string())])
        },
        _ => panic!(),
    }
    assert_eq!(
        emit(&modules, 1, false),
        format!(
            "{}#define ping proj_a_ping\nextern int proj_a_ping(void);\nint main(void) {{\n    return (ping() + 1);\n}}\n",
            PRELUDE
        )
    );
    assert_eq!(
        emit(&modules, 0, false),
        format!("{}int proj_a_ping(void) {{\n    return 7;\n}}\n", PRELUDE)
    );
    let flat = flatten(1, &modules).unwrap();
    let (_, cf) = Emitter::new("target", "default", flat, false).emit().unwrap();
    assert_eq!(cf.name, Name::from("::proj::b"));
    assert_eq!(cf.filepath, "target/default/zz/proj_b.c");
    assert_eq!(cf.deps, vec![Name::from("::proj::a")]);
    assert_eq!(cf.symbols, vec![Name::from("::proj::a::ping"), Name::from("::proj::b::main")]);
    assert_eq!(cf.sources, vec!["/abs/src/a.zz".to_string(), "/abs/src/b.zz".to_string()]);
}

#[test]
fn rebuild_reuses_descriptors_until_a_source_they_rest_on_is_touched() {
    let modules = ping_modules();
    let descriptor = |index: usize| {
        let flat = flatten(index, &modules).unwrap();
        let (_, cf) = Emitter::new("target", "default", flat, false).emit().unwrap();
        let bytes = zz::buildcache::to_buildcache(&cf).unwrap();
        zz::buildcache::from_buildcache(&bytes).unwrap()
    };
    let (a, b) = (descriptor(0), descriptor(1));
    assert_eq!(a.sources, vec!["/abs/src/a.zz".to_string()]);
    assert_eq!(b.sources, vec!["/abs/src/a.zz".to_string(), "/abs/src/b.zz".to_string()]);
    let judge = |cf: &zz::pipeline::CFile, a_time: u64, b_time: u64| {
        let times: Vec<Option<u64>> = cf
            .sources
            .iter()
            .map(|s| if s.ends_with("a.zz") { Some(a_time) } else { Some(b_time) })
            .collect();
        zz::buildcache::judge_cache(Some(cf.clone()), &times, Some(100), Some(101))
    };
    assert_eq!(judge(&a, 10, 11), zz::buildcache::CacheVerdict::Reuse(a.clone()));
    assert_eq!(judge(&b, 10, 11), zz::buildcache::CacheVerdict::Reuse(b.clone()));
    assert_eq!(judge(&a, 200, 11), zz::buildcache::CacheVerdict::Discard);
    assert_eq!(judge(&b, 200, 11), zz::buildcache::CacheVerdict::Discard);
    assert_eq!(judge(&a, 10, 200), zz::buildcache::CacheVerdict::Reuse(a.clone()));
    assert_eq!(judge(&b, 10, 200), zz::buildcache::CacheVerdict::Discard);
}

#[test]
fn private_definitions_stay_out_of_the_header() {
    let secret = function("secret", false, Some("int"), vec![], vec![ret(num("1"))]);
    let shared = node(
        Rule::function,
        1,
        "",
        vec![
            leaf(Rule::key_shared, 1, ""),
            leaf(Rule::ident, 1, "twice"),
            node(Rule::ret_arg, 1, "", vec![anon("int")]),
            node(Rule::fn_args, 1, "", vec![named("int", "x")]),
            node(Rule::block, 1, "", vec![ret(expr(vec![name("x"), leaf(Rule::infix, 1, "*"), num("2")]))]),
        ],
    );
    let m = load("proj", "m", vec![secret, shared]);
    let modules = resolve_all(vec![m]);
    let header = emit(&modules, 0, true);
    assert!(!header.contains("secret"));
    assert!(header.contains("extern int proj_m_twice(int x);\n"));
    let body = emit(&modules, 0, false);
    assert!(body.contains("static int proj_m_secret(void) {\n    return 1;\n}\n"));
    assert!(body.contains("static inline int proj_m_twice(int x) {\n    return (x * 2);\n}\n"));
}

#[test]
fn paths_of_emitted_files() {
    let n = Name::from("::proj::net::http");
    assert_eq!(outname("target", "default", &n, false), "target/default/zz/proj_net_http.c");
    assert_eq!(outname("target", "release", &n, true), "target/release/include/proj_net_http.h");
    assert_eq!(outname("", "v", &Name(vec![]), true), "v/include/.h");
}

fn aliases() -> Vec<(Name, String)> {
    vec![(Name::from("::proj::a::T"), "T".to_string())]
}

fn c_of(e: Node) -> Result<String, EmitError> {
    let parsed = parse_expr(&expr(vec![e])).unwrap();
    expr_source(&aliases(), &parsed)
}

#[test]
fn expressions_in_c() {
    assert_eq!(c_of(num("42")), Ok("42".to_string()));
    assert_eq!(c_of(name("::x")), Ok("x".to_string()));
    assert_eq!(c_of(name("::proj::a::T")), Ok("T".to_string()));
    assert_eq!(c_of(name("::proj::a::f")), Ok("proj_a_f".to_string()));
    assert_eq!(c_of(name("::ext::<stdio.h>::printf")), Ok("printf".to_string()));
    assert_eq!(c_of(leaf(Rule::string_literal, 1, "\"a\\n\\x01\"")), Ok("\"a\"\"\\xa\"\"\"\"\\x1\"\"\"".to_string()));
    assert_eq!(c_of(leaf(Rule::char_literal, 1, "'\\0'")), Ok("'\\x0'".to_string()));
    let call = node(
        Rule::call,
        1,
        "",
        vec![name("::ext::<h>::f"), node(Rule::ident, 1, "", vec![expr(vec![num("1")]), expr(vec![num("2")])])],
    );
    assert_eq!(c_of(call), Ok("f(1, 2)".to_string()));
    let pre = node(Rule::unarypre, 1, "", vec![leaf(Rule::ident, 1, "!"), name("::x")]);
    assert_eq!(c_of(pre), Ok("(!x)".to_string()));
    let post = node(Rule::unarypost, 1, "", vec![name("::x"), leaf(Rule::ident, 1, "++")]);
    assert_eq!(c_of(post), Ok("(x++)".to_string()));
    let member = node(Rule::ptr_access, 1, "", vec![name("::x"), leaf(Rule::ident, 1, "f")]);
    assert_eq!(c_of(member), Ok("x->f".to_string()));
    let index = node(
        Rule::array_access,
        1,
        "",
        vec![name("::x"), node(Rule::array, 1, "", vec![expr(vec![num("0")])])],
    );
    assert_eq!(c_of(index), Ok("x[0]".to_string()));
    let st = node(
        Rule::struct_init,
        1,
        "",
        vec![
            anon("::proj::a::T"),
            node(Rule::struct_init_field, 1, "", vec![leaf(Rule::ident, 1, "a"), expr(vec![num("1")])]),
            node(Rule::struct_init_field, 1, "", vec![leaf(Rule::ident, 1, "b"), expr(vec![num("2")])]),
        ],
    );
    assert_eq!(c_of(st), Ok("(T){.a = 1, .b = 2}".to_string()));
    let init = node(
        Rule::array_init,
        1,
        "",
        vec![node(Rule::termish, 1, "", vec![num("1")]), node(Rule::termish, 1, "", vec![num("2")])],
    );
    assert_eq!(c_of(init), Ok("{1, 2}".to_string()));
    assert_eq!(c_of(name("relative::name")), Ok("relative_name".to_string()));
    let root = zz::ast::Expression::Name(zz::ast::Typed {
        name: Name(vec!["".to_string()]),
        t: zz::ast::Type::Other,
        loc: at(5),
        ptr: vec![],
    });
    assert_eq!(expr_source(&aliases(), &root), Err(EmitError::Malformed(at(5))));
}

#[test]
fn pointer_layers_in_c() {
    let typed = |parts: Vec<Node>| {
        let mut children = vec![name("::proj::a::T")];
        children.extend(parts);
        let t = zz::lower::parse_anon_type(&node(Rule::anon_type, 1, "", children)).unwrap();
        typed_source(&aliases(), &t)
    };
    assert_eq!(typed(vec![]), Ok("T".to_string()));
    assert_eq!(typed(vec![leaf(Rule::ptr, 1, "*")]), Ok("T const *".to_string()));
    assert_eq!(
        typed(vec![leaf(Rule::key_mut, 1, "mut"), leaf(Rule::ptr, 1, "*")]),
        Ok("T *".to_string())
    );
    assert_eq!(
        typed(vec![
            leaf(Rule::key_mut, 1, "mut"),
            leaf(Rule::ptr, 1, "*"),
            leaf(Rule::ident, 1, "restrict"),
            leaf(Rule::ident, 1, "volatile"),
            leaf(Rule::ptr, 1, "*"),
        ]),
        Ok("T const * restrict volatile *".to_string())
    );
}

fn c_stmt(s: Node) -> Result<String, EmitError> {
    stmt_source(&aliases(), &parse_statement(&s).unwrap())
}

#[test]
fn statements_in_c() {
    let e = |n: Node| expr(vec![n]);
    assert_eq!(c_stmt(ret(num("0"))), Ok("    return 0;\n".to_string()));
    let bare = node(Rule::return_stm, 1, "", vec![leaf(Rule::key_return, 1, "")]);
    assert_eq!(c_stmt(bare), Ok("    return;\n".to_string()));
    let label = node(Rule::label, 1, "", vec![leaf(Rule::ident, 1, "out")]);
    assert_eq!(c_stmt(label), Ok("out:;\n".to_string()));
    let goto = node(Rule::goto_stm, 1, "", vec![leaf(Rule::ident, 1, "out")]);
    assert_eq!(c_stmt(goto), Ok("    goto out;\n".to_string()));
    let mark = node(Rule::mark_stm, 1, "", vec![e(name("::x")), leaf(Rule::ident, 1, "safe")]);
    assert_eq!(c_stmt(mark), Ok(String::new()));
    let assign = node(
        Rule::assign,
        1,
        "",
        vec![node(Rule::lhs, 1, "", vec![name("::x")]), leaf(Rule::assignop, 1, "+="), e(num("1"))],
    );
    assert_eq!(c_stmt(assign), Ok("    x += 1;\n".to_string()));
    let var = node(
        Rule::vardecl,
        1,
        "",
        vec![
            node(Rule::named_type, 1, "", vec![name("::proj::a::T"), leaf(Rule::ident, 1, "buf")]),
            node(Rule::array, 1, "", vec![e(num("4"))]),
            e(num("0")),
        ],
    );
    assert_eq!(c_stmt(var), Ok("    T buf[4] = 0;\n".to_string()));
    let cond = node(Rule::if_stm, 1, "", vec![e(name("::x")), node(Rule::block, 1, "", vec![ret(num("1"))])]);
    assert_eq!(c_stmt(cond), Ok("    if (x) {\n    return 1;\n    }\n".to_string()));
    let els = node(Rule::else_stm, 1, "", vec![node(Rule::block, 1, "", vec![])]);
    assert_eq!(c_stmt(els), Ok("    else {\n    }\n".to_string()));
    let semi = || leaf(Rule::semicolon, 1, ";");
    let step = node(
        Rule::assign,
        1,
        "",
        vec![node(Rule::lhs, 1, "", vec![name("::i")]), leaf(Rule::assignop, 1, "+="), e(num("1"))],
    );
    let lt = expr(vec![name("::i"), leaf(Rule::infix, 1, "<"), num("10")]);
    let f = node(
        Rule::for_stm,
        1,
        "",
        vec![
            node(Rule::assign, 1, "", vec![node(Rule::lhs, 1, "", vec![name("::i")]), leaf(Rule::assignop, 1, "="), e(num("0"))]),
            semi(),
            lt,
            semi(),
            step,
            node(Rule::block, 1, "", vec![]),
        ],
    );
    assert_eq!(c_stmt(f), Ok("    for (i = 0; (i < 10); i += 1) {\n    }\n".to_string()));
    let nested = node(
        Rule::for_stm,
        1,
        "",
        vec![node(Rule::label, 1, "", vec![leaf(Rule::ident, 1, "l")]), semi(), semi(), node(Rule::block, 1, "", vec![])],
    );
    assert_eq!(c_stmt(nested), Err(EmitError::Malformed(at(1))));
}

#[test]
fn definitions_in_c() {
    let local = |decl: Node| {
        let file = node(Rule::file, 0, "", vec![decl]);
        parse(&file, "p", "c", "m").unwrap().locals.remove(0)
    };
    let entry = |header: bool, own: bool, l: &zz::ast::Local, complete: TypeComplete| {
        entry_source(header, own, &aliases(), "::proj::m::X", l, complete)
    };
    let c = local(node(
        Rule::constant,
        1,
        "",
        vec![leaf(Rule::exported, 1, ""), named("::proj::a::T", "X"), expr(vec![num("10")])],
    ));
    assert_eq!(entry(true, true, &c, TypeComplete::Complete), Ok("#define proj_m_X ((T)10)\n".to_string()));
    assert_eq!(entry(true, true, &c, TypeComplete::Incomplete), Ok(String::new()));
    let st = local(node(
        Rule::istatic,
        1,
        "",
        vec![leaf(Rule::key_thread_local, 1, ""), named("::proj::a::T", "X"), expr(vec![num("0")])],
    ));
    assert_eq!(entry(true, true, &st, TypeComplete::Complete), Ok(String::new()));
    assert_eq!(
        entry(false, true, &st, TypeComplete::Complete),
        Ok("static _Thread_local T proj_m_X = 0;\n".to_string())
    );
    let mac = local(node(
        Rule::imacro,
        1,
        "",
        vec![leaf(Rule::exported, 1, ""), leaf(Rule::ident, 1, "X"), node(Rule::block, 1, "", vec![])],
    ));
    assert_eq!(entry(false, true, &mac, TypeComplete::Complete), Ok(String::new()));
    let packed = local(node(
        Rule::struct_d,
        1,
        "",
        vec![
            leaf(Rule::key_packed, 1, ""),
            leaf(Rule::exported, 1, ""),
            leaf(Rule::ident, 1, "X"),
            node(Rule::struct_f, 1, "", vec![named("::proj::a::T", "a"), node(Rule::array, 1, "", vec![expr(vec![num("4")])])]),
        ],
    ));
    assert_eq!(
        entry(false, true, &packed, TypeComplete::Complete),
        Ok("struct proj_m_X {\n    T a[4];\n} __attribute__((__packed__));\nsize_t sizeof_proj_m_X(void) {\n    return sizeof(proj_m_X);\n}\n".to_string())
    );
    let f = local(function("X", true, None, vec![named("::proj::a::T", "a"), named("::proj::a::T", "b")], vec![]));
    assert_eq!(
        entry(false, false, &f, TypeComplete::Complete),
        Ok("extern void proj_m_X(T a, T b);\n".to_string())
    );
    assert_eq!(
        entry(false, true, &f, TypeComplete::Complete),
        Ok("void proj_m_X(T a, T b) {\n}\n".to_string())
    );
}

#[test]
fn symbol_table_unit() {
    let (text, cf) = builtin(
        "target",
        "default",
        "app",
        &vec![Name::from("::proj::a::ping"), Name::from("::proj::b::main")],
    );
    assert_eq!(
        text,
        "const char * const __zz_symbol_names[] = {\n    \"proj::a::ping\",\n    \"proj::b::main\",\n    0\n};\n"
    );
    assert_eq!(cf.filepath, "target/default/zz/app_builtin.c");
    assert_eq!(cf.name, Name::from("::app::builtin"));
    assert!(cf.deps.is_empty());
}

#[test]
fn registered_modules_live_under_their_project() {
    let file = node(Rule::file, 0, "", vec![]);
    let tree = parse(&file, "src/net/http.zz", "/abs/src/net/http.zz", "http").unwrap();
    let m = loader::register(&Name::from("::proj"), &vec!["net".to_string()], tree);
    match m {
        loader::Module::ZZ(m) => {
            assert_eq!(m.name, Name::from("::proj::net::http"));
            assert_eq!(m.source, "src/net/http.zz");
        },
        _ => panic!(),
    }
}

#[test]
fn private_definitions_of_another_module_are_written_in_neither_file() {
    let secret = function("secret", false, Some("int"), vec![], vec![ret(num("1"))]);
    let call = node(Rule::call, 1, "", vec![name("secret")]);
    let open = function("open", true, Some("int"), vec![], vec![ret(expr(vec![call]))]);
    let a = load("proj", "a", vec![secret, open]);
    let call_open = node(Rule::call, 1, "", vec![name("open")]);
    let import = node(
        Rule::import,
        9,
        "",
        vec![node(Rule::importname, 1, "", vec![leaf(Rule::ident, 1, "a"), leaf(Rule::ident, 1, "open")])],
    );
    let b = load("proj", "b", vec![import, function("main", false, Some("int"), vec![], vec![ret(expr(vec![call_open]))])]);
    let modules = resolve_all(vec![a, b]);
    let flat = flatten(1, &modules).unwrap();
    assert!(flat.d.iter().any(|e| e.name == "::proj::a::secret"));
    for header in [true, false] {
        let text = emit(&modules, 1, header);
        assert!(!text.contains("secret"), "{}", text);
    }
    assert!(emit(&modules, 1, false).contains("extern int proj_a_open(void);\n"));
    let (_, cf) = Emitter::new("target", "default", flat, false).emit().unwrap();
    assert_eq!(cf.symbols, vec![Name::from("::proj::a::open"), Name::from("::proj::b::main")]);
    assert!(cf.cflags.is_empty());
    assert!(cf.lflags.is_empty());
    let own = emit(&modules, 0, false);
    assert!(own.contains("static int proj_a_secret(void) {\n    return 1;\n}\n"));
    let l = match &modules[0] {
        loader::Module::ZZ(m) => m.locals[0].clone(),
        _ => panic!(),
    };
    for header in [true, false] {
        for complete in [TypeComplete::Complete, TypeComplete::Incomplete] {
            assert_eq!(
                entry_source(header, false, &vec![], "::proj::a::secret", &l, complete),
                Ok(String::new())
            );
        }
    }
}

#[test]
fn shared_function_of_another_module_is_written_whole() {
    let shared = node(
        Rule::function,
        1,
        "",
        vec![
            leaf(Rule::key_shared, 1, ""),
            leaf(Rule::ident, 1, "twice"),
            node(Rule::ret_arg, 1, "", vec![anon("int")]),
            node(Rule::fn_args, 1, "", vec![named("int", "x")]),
            node(Rule::block, 1, "", vec![ret(expr(vec![name("x"), leaf(Rule::infix, 1, "*"), num("2")]))]),
        ],
    );
    let m = load("proj", "m", vec![shared]);
    let l = m.locals[0].clone();
    let modules = resolve_all(vec![m]);
    let l = match &modules[0] {
        loader::Module::ZZ(m) => m.locals[0].clone(),
        _ => l,
    };
    let whole = "static inline int proj_m_twice(int x) {\n    return (x * 2);\n}\n";
    assert_eq!(
        entry_source(false, false, &vec![], "::proj::m::twice", &l, TypeComplete::Complete),
        Ok(whole.to_string())
    );
    assert_eq!(
        entry_source(false, true, &vec![], "::proj::m::twice", &l, TypeComplete::Complete),
        Ok(whole.to_string())
    );
    assert_eq!(
        entry_source(true, false, &vec![], "::proj::m::twice", &l, TypeComplete::Complete),
        Ok("extern int proj_m_twice(int x);\n".to_string())
    );
}
