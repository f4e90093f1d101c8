use zz::ast::{
    AnonArg, Array, Block, Def, Expression, Field, InfixOperator, Local, Location, NamedArg,
    Pointer, PostfixOperator, PrefixOperator, Storage, Tags, Tail, Type, Typed, Visibility,
};
use zz::emitter_rs::{
    emit_expr, emit_pointer, function_args, make_module, outname, to_local_name,
    to_local_typed_name, write_escaped_literal, EmitError, Emitter,
};
use zz::flatten::{Flat, Module, TypeComplete};
use zz::name::Name;

fn loc(line: usize) -> Location {
    Location { file: "m.zz".to_string(), start: 0, end: 0, line, col: 1 }
}

fn prim(t: Type) -> Typed {
    Typed { name: Name::from("::ext::<builtin>::x"), t, loc: loc(1), ptr: vec![] }
}

fn user(name: &str) -> Typed {
    Typed { name: Name::from(name), t: Type::Other, loc: loc(2), ptr: vec![] }
}

fn ptr(mutable: bool) -> Pointer {
    let mut tags = Tags::new();
    if mutable {
        tags.insert("mut".to_string(), "".to_string(), loc(1));
    }
    Pointer { loc: loc(1), tags }
}

fn field(name: &str, typed: Typed, array: Array) -> Field {
    Field { typed, name: name.to_string(), array, tags: Tags::new(), loc: loc(7) }
}

fn local(name: &str, def: Def) -> Local {
    Local { name: name.to_string(), export_as: None, vis: Visibility::Export, loc: loc(3), def }
}

fn module<'a>(name: &str, d: Vec<Flat<'a>>) -> Module<'a> {
    Module {
        name: Name::from(name),
        sources: vec![],
        d,
        aliases: Box::leak(Box::new(vec![])),
        typevariants: vec![],
    }
}

fn emitter<'a>() -> Emitter<'a> {
    Emitter::new("target", module("::proj::m", vec![]))
}

fn buf() -> Local {
    local(
        "::proj::m::Buf",
        Def::Struct {
            fields: vec![
                field("len", prim(Type::USize), Array::Absent),
                field("data", prim(Type::U8), Array::Unsized),
            ],
            packed: false,
            tail: Tail::Dynamic,
            union: false,
        },
    )
}

fn num(v: &str) -> Expression {
    Expression::Literal { loc: loc(1), v: v.to_string() }
}

#[test]
fn escapes_of_string_and_character_literals() {
    let cases: Vec<(u8, bool, &str)> = vec![
        (b'"', true, "\\\""),
        (b'"', false, "\""),
        (b'\'', false, "\\'"),
        (b'\'', true, "'"),
        (b'\\', true, "\\\\"),
        (b'\t', true, "\"\"\\x9\"\""),
        (b'\r', false, "\\xd"),
        (b'\n', true, "\"\"\\xa\"\""),
        (b'\n', false, "\\xa"),
        (0x7f, false, "\\x7f"),
        (b'a', true, "a"),
        (b' ', true, " "),
        (b'~', false, "~"),
        (0, true, "\"\"\\x0\"\""),
        (0, false, "\\x0"),
        (0x1f, false, "\\x1f"),
        (0x7f, false, "\\x7f"),
        (0x80, true, "\"\"\\x80\"\""),
        (0xff, false, "\\xff"),
        (0x0a + 1, false, "\\xb"),
    ];
    for (c, isstr, want) in cases {
        let mut out = String::new();
        write_escaped_literal(&mut out, c, isstr);
        assert_eq!(out, want, "byte {} in_string {}", c, isstr);
    }
}

#[test]
fn pointer_layers_are_written_outermost_first() {
    let mut out = "x".to_string();
    emit_pointer(&mut out, &vec![ptr(true), ptr(false)]);
    assert_eq!(out, "x*mut *const ");
    let mut none = String::new();
    emit_pointer(&mut none, &vec![]);
    assert_eq!(none, "");
}

#[test]
fn primitive_kinds_have_rust_spellings() {
    let cases = vec![
        (Type::U8, "u8"),
        (Type::U16, "u16"),
        (Type::U32, "u32"),
        (Type::U64, "u64"),
        (Type::U128, "u128"),
        (Type::I8, "i8"),
        (Type::I16, "i16"),
        (Type::I32, "i32"),
        (Type::I64, "i64"),
        (Type::I128, "i128"),
        (Type::Int, "std::os::raw::c_int"),
        (Type::UInt, "std::os::raw::c_uint"),
        (Type::ISize, "isize"),
        (Type::USize, "usize"),
        (Type::Bool, "bool"),
        (Type::F32, "f32"),
        (Type::F64, "f64"),
        (Type::Char, "u8"),
        (Type::Void, "std::ffi::c_void"),
    ];
    for (t, want) in cases {
        assert_eq!(to_local_typed_name(&prim(t)), Ok(Some(want.to_string())));
    }
}

#[test]
fn user_types_are_spelled_by_module_and_name() {
    assert_eq!(
        to_local_typed_name(&user("::proj::net::http::Request")),
        Ok(Some("super::proj_net_http::Request".to_string()))
    );
    assert_eq!(to_local_typed_name(&user("::ext::<stdio.h>::char")), Ok(Some("u8".to_string())));
    assert_eq!(to_local_typed_name(&user("::ext::<stdio.h>::FILE")), Ok(None));
    let mut one = user("::ext::<stdio.h>::FILE");
    one.ptr = vec![ptr(false)];
    assert_eq!(to_local_typed_name(&one), Ok(Some("u8".to_string())));
    let mut two = user("::proj::m::T");
    two.ptr = vec![ptr(false), ptr(false)];
    assert_eq!(to_local_typed_name(&two), Ok(Some("super::proj_m::T".to_string())));
}

#[test]
fn placeholders_and_short_names_are_internal_errors() {
    for t in [Type::ILiteral, Type::ULiteral, Type::Elided, Type::New, Type::Typeid] {
        assert_eq!(to_local_typed_name(&prim(t)), Err(EmitError::Untyped(loc(1))));
    }
    assert_eq!(to_local_typed_name(&user("x")), Err(EmitError::Malformed(loc(2))));
    assert_eq!(to_local_typed_name(&user("::ext::h")), Err(EmitError::Malformed(loc(2))));
}

#[test]
fn local_names_use_aliases_then_ext_then_path() {
    let aliases = vec![(Name::from("::proj::a::ping"), "ping".to_string())];
    assert_eq!(to_local_name(&aliases, &Name::from("::proj::a::ping")), Some("ping".to_string()));
    assert_eq!(
        to_local_name(&aliases, &Name::from("::proj::a::pong")),
        Some("proj_a_pong".to_string())
    );
    assert_eq!(
        to_local_name(&aliases, &Name::from("::ext::<stdio.h>::printf")),
        Some("printf".to_string())
    );
    assert_eq!(to_local_name(&aliases, &Name::from("a::b")), Some("a_b".to_string()));
    assert_eq!(to_local_name(&aliases, &Name(vec!["".to_string()])), None);
    assert_eq!(to_local_name(&aliases, &Name(vec![])), Some("".to_string()));
}

#[test]
fn expressions_are_written_with_their_operators() {
    let x = Expression::Name(prim(Type::Int));
    assert_eq!(emit_expr(&x), Ok("    std::os::raw::c_int".to_string()));
    assert_eq!(
        emit_expr(&Expression::Name(user("::ext::<a.h>::T"))),
        Ok("    ()".to_string())
    );
    assert_eq!(emit_expr(&num("42")), Ok("    42".to_string()));
    let chain = Expression::InfixOperation {
        loc: loc(1),
        lhs: Box::new(num("1")),
        rhs: vec![
            ((InfixOperator::Add, loc(1)), Box::new(num("2"))),
            ((InfixOperator::Shiftleft, loc(1)), Box::new(num("3"))),
        ],
    };
    assert_eq!(emit_expr(&chain), Ok("(    1 +    2 <<    3  )".to_string()));
    let pre = Expression::UnaryPre {
        loc: loc(1),
        op: PrefixOperator::Bitnot,
        expr: Box::new(num("1")),
    };
    assert_eq!(emit_expr(&pre), Ok("( ~    1)".to_string()));
    let post = Expression::UnaryPost {
        loc: loc(1),
        op: PostfixOperator::Decrement,
        expr: Box::new(num("1")),
    };
    assert_eq!(emit_expr(&post), Ok("(    1 --)".to_string()));
    let member = Expression::MemberAccess {
        loc: loc(1),
        lhs: Box::new(num("a")),
        op: "->".to_string(),
        rhs: "b".to_string(),
    };
    assert_eq!(emit_expr(&member), Ok("    a ->b".to_string()));
    let index = Expression::ArrayAccess {
        loc: loc(1),
        lhs: Box::new(num("a")),
        rhs: Box::new(num("0")),
    };
    assert_eq!(emit_expr(&index), Ok("    a [     0]".to_string()));
    let call = Expression::Call {
        loc: loc(1),
        name: prim(Type::Void),
        args: vec![Box::new(num("1")), Box::new(num("2"))],
    };
    assert_eq!(emit_expr(&call), Ok("    std::ffi::c_void(    1,    2    )".to_string()));
}

#[test]
fn literals_are_escaped_in_expressions() {
    let s = Expression::LiteralString { loc: loc(1), v: b"a\"\n\x01".to_vec() };
    assert_eq!(emit_expr(&s), Ok("    \"a\\\"\"\"\\xa\"\"\"\"\\x1\"\"\"".to_string()));
    let c = Expression::LiteralChar { loc: loc(1), v: b'\'' };
    assert_eq!(emit_expr(&c), Ok("    '\\''".to_string()));
}

#[test]
fn initialisers_and_casts_leave_no_text() {
    let cast = Expression::Cast { loc: loc(1), into: prim(Type::Int), expr: Box::new(num("1")) };
    assert_eq!(emit_expr(&cast), Ok(String::new()));
    let init = Expression::ArrayInit { loc: loc(1), fields: vec![Box::new(num("1"))] };
    assert_eq!(emit_expr(&init), Ok(String::new()));
    let st = Expression::StructInit { loc: loc(1), typed: user("::p::m::S"), fields: vec![] };
    assert_eq!(emit_expr(&st), Ok(String::new()));
}

#[test]
fn unexpanded_macro_call_is_an_error() {
    let call = Expression::MacroCall { loc: loc(9), name: Name::from("::p::m::mac"), args: vec![] };
    assert_eq!(emit_expr(&call), Err(EmitError::MacroCall(loc(9))));
    let nested = Expression::Call {
        loc: loc(1),
        name: prim(Type::Int),
        args: vec![Box::new(num("1")), Box::new(call)],
    };
    assert_eq!(emit_expr(&nested), Err(EmitError::MacroCall(loc(9))));
}

#[test]
fn argument_lists_skip_what_cannot_be_named() {
    let arg = |name: &str, typed: Typed| NamedArg {
        typed,
        name: name.to_string(),
        tags: Tags::new(),
        loc: loc(1),
    };
    let mut p = prim(Type::U8);
    p.ptr = vec![ptr(true)];
    let args = vec![
        arg("skip", user("::ext::<a.h>::T")),
        arg("a", prim(Type::Int)),
        arg("b", p),
    ];
    assert_eq!(function_args(&args), Ok(" Za: std::os::raw::c_int,  Zb: *mut u8".to_string()));
    assert_eq!(function_args(&vec![]), Ok(String::new()));
    let bad = vec![arg("x", prim(Type::Elided))];
    assert_eq!(function_args(&bad), Err(EmitError::Untyped(loc(1))));
}

#[test]
fn binding_file_path_is_below_the_target_directory() {
    let m = module("::proj::net::http", vec![]);
    assert_eq!(outname("target", &m), "target/rust/proj_net_http.rs");
    assert_eq!(outname("target/", &m), "target/rust/proj_net_http.rs");
    assert_eq!(outname("", &m), "rust/proj_net_http.rs");
    let em = Emitter::new("/abs/t", module("::proj::m", vec![]));
    assert_eq!(em.p, "/abs/t/rust/proj_m.rs");
    assert_eq!(em.out, "");
}

#[test]
fn static_leaves_no_text() {
    let mut em = emitter();
    let l = local(
        "::proj::m::counter",
        Def::Static {
            tags: Tags::new(),
            typed: prim(Type::Int),
            expr: num("0"),
            storage: Storage::ThreadLocal,
        },
    );
    em.emit_static(&l);
    assert_eq!(em.out, "");
    assert_eq!(em.cur_loc, Some(loc(3)));
}

#[test]
fn constant_is_written_with_type_and_value() {
    let mut em = emitter();
    let l = local("::proj::m::LIMIT", Def::Const { typed: prim(Type::U32), expr: num("10") });
    assert_eq!(em.emit_const(&l), Ok(()));
    assert_eq!(em.out, "pub const LIMIT : u32 = 10;\n");
    let c = local(
        "::proj::m::SEP",
        Def::Const {
            typed: prim(Type::Char),
            expr: Expression::LiteralChar { loc: loc(1), v: b'A' },
        },
    );
    assert_eq!(em.emit_const(&c), Ok(()));
    assert_eq!(em.out, "pub const LIMIT : u32 = 10;\npub const SEP : u8 = 'A';\n");
}

#[test]
fn constant_without_spelling_or_literal_is_suppressed() {
    let mut em = emitter();
    let l = local("::proj::m::X", Def::Const { typed: user("::ext::<a.h>::T"), expr: num("1") });
    assert_eq!(em.emit_const(&l), Ok(()));
    let e = local(
        "::proj::m::Y",
        Def::Const { typed: prim(Type::Int), expr: Expression::Name(prim(Type::Int)) },
    );
    assert_eq!(em.emit_const(&e), Ok(()));
    assert_eq!(
        em.out,
        "// X: left out, it cannot be represented here\n// Y: left out, it cannot be represented here\n"
    );
    let bad = local("::proj::m::Z", Def::Const { typed: prim(Type::Elided), expr: num("1") });
    assert_eq!(em.emit_const(&bad), Err(EmitError::Untyped(loc(1))));
    assert_eq!(
        em.out,
        "// X: left out, it cannot be represented here\n// Y: left out, it cannot be represented here\n"
    );
}

#[test]
fn enum_variants_carry_the_symbol_prefix() {
    let mut em = emitter();
    let l = local(
        "::proj::m::Color",
        Def::Enum { names: vec![("Red".to_string(), None), ("Blue".to_string(), Some(7))] },
    );
    assert_eq!(em.emit_enum(&l), Ok(()));
    assert_eq!(
        em.out,
        "#[derive(Copy,Clone, PartialEq)]\n#[repr(C)]\npub enum Color {\n    proj_m_Color_Red,\n    proj_m_Color_Blue = 7,\n\n}\n\n"
    );
}

#[test]
fn size_query_of_a_dynamic_tail_takes_the_count() {
    let mut em = emitter();
    assert_eq!(em.emit_struct_len(&buf(), None), Ok(()));
    assert_eq!(
        em.out,
        "    #[link_name = \"sizeof_proj_m_Buf\"]\n    pub fn sizeof_Buf(tail: libc::size_t) -> libc::size_t;\n"
    );
    let mut bound = emitter();
    assert_eq!(bound.emit_struct_len(&buf(), Some(4)), Ok(()));
    assert_eq!(
        bound.out,
        "    #[link_name = \"sizeof_proj_m_Buf\"]\n    pub fn sizeof_Buf() -> libc::size_t;\n"
    );
}

#[test]
fn struct_layout_comments_out_the_unbound_tail() {
    let mut em = emitter();
    assert_eq!(em.emit_struct_stack(&buf(), None), Ok(()));
    assert_eq!(
        em.out,
        "\n#[derive(Copy,Clone)]\n#[repr(C)]\npub struct Buf {\n    pub len :usize ,\n    // data ,\n}\n"
    );
    let mut bound = emitter();
    assert_eq!(bound.emit_struct_stack(&buf(), Some(16)), Ok(()));
    assert_eq!(
        bound.out,
        "\n#[derive(Copy,Clone)]\n#[repr(C)]\npub struct Buf {\n    pub len :usize ,\n    pub data : [u8;16] ,\n}\n"
    );
}

#[test]
fn struct_layout_with_sized_array_and_union() {
    let l = local(
        "::proj::m::U",
        Def::Struct {
            fields: vec![field("a", prim(Type::U8), Array::Sized(num("4")))],
            packed: false,
            tail: Tail::Absent,
            union: true,
        },
    );
    let mut em = emitter();
    assert_eq!(em.emit_struct_stack(&l, None), Ok(()));
    assert_eq!(
        em.out,
        "\n#[derive(Copy,Clone)]\n#[repr(C)]\npub union U {\n    pub a : [u8;    4] ,\n}\n"
    );
    let mut heap = emitter();
    assert_eq!(heap.emit_struct_heap(&l, None), Ok(()));
    assert_eq!(heap.out, "// U: left out, it cannot be represented here\n");
}

#[test]
fn struct_with_unnameable_leading_field_is_suppressed() {
    let l = local(
        "::proj::m::S",
        Def::Struct {
            fields: vec![
                field("f", user("::ext::<a.h>::FILE"), Array::Absent),
                field("n", prim(Type::Int), Array::Absent),
            ],
            packed: false,
            tail: Tail::Absent,
            union: false,
        },
    );
    let mut em = emitter();
    assert_eq!(em.emit_struct_stack(&l, None), Ok(()));
    assert_eq!(em.out, "// S: left out, it cannot be represented here\n");
    assert_eq!(em.emit_struct_heap(&l, None), Ok(()));
    assert_eq!(
        em.out,
        "// S: left out, it cannot be represented here\n// S: left out, it cannot be represented here\n"
    );
    let mut em = emitter();
    let last = local(
        "::proj::m::S",
        Def::Struct {
            fields: vec![
                field("n", prim(Type::Int), Array::Absent),
                field("f", user("::ext::<a.h>::FILE"), Array::Absent),
            ],
            packed: false,
            tail: Tail::Absent,
            union: false,
        },
    );
    assert_eq!(em.emit_struct_stack(&last, None), Ok(()));
    assert_eq!(
        em.out,
        "\n#[derive(Copy,Clone)]\n#[repr(C)]\npub struct S {\n    pub n :std::os::raw::c_int ,\n    // f\n}\n"
    );
}

#[test]
fn tail_that_is_not_last_is_an_error() {
    let l = local(
        "::proj::m::S",
        Def::Struct {
            fields: vec![
                field("data", prim(Type::U8), Array::Unsized),
                field("n", prim(Type::Int), Array::Absent),
            ],
            packed: false,
            tail: Tail::Dynamic,
            union: false,
        },
    );
    let mut em = emitter();
    assert_eq!(em.emit_struct_stack(&l, None), Err(EmitError::TailNotLast(loc(7))));
    assert_eq!(em.out, "");
}

#[test]
fn heap_wrapper_queries_the_size_with_the_tail() {
    let mut em = emitter();
    assert_eq!(em.emit_struct_heap(&buf(), None), Ok(()));
    assert!(em.out.starts_with("\npub struct Buf {\n    pub inner:  Box<super::Buf>,\n"));
    assert!(em.out.contains("            let size = super::sizeof_Buf(self.tail);\n"));
    assert!(em.out.contains("    pub fn new(tail:  usize) -> Self {\n        let size = unsafe{super::sizeof_Buf(tail)};\n"));
    assert!(em.out.contains("let s = Box::new(vec![0u8; size]);"));
    assert!(em.out.contains("std::ptr::copy_nonoverlapping(self.as_ptr(), s.as_mut_ptr(), size);"));
    assert!(em.out.contains("    pub fn as_mut_ptr(&mut self) -> *mut u8 {\n"));
    assert!(em.out.contains("    pub fn as_ptr(&self) -> *const u8 {\n"));
    assert!(em.out.contains("impl std::ops::Deref for Buf {\n    type Target = super::Buf;\n"));
    assert!(em.out.ends_with("            Self { inner: Box::from_raw(ss), tail } \n        }\n    }\n}\n"));
    assert_eq!(em.out.len(), 1307);
    let want = "\npub struct Buf {\n    pub inner:  Box<super::Buf>,\n    pub tail:   usize,\n}\n\nimpl std::ops::Deref for Buf {\n    type Target = super::Buf;\n\n    fn deref(&self) -> &super::Buf {\n        self.inner.deref()\n    }\n}\n\nimpl std::clone::Clone for Buf {\n    fn clone(&self) -> Self {\n        unsafe {\n            let size = super::sizeof_Buf(self.tail);\n\n            let mut s = Box::new(vec![0u8; size]);\n            std::ptr::copy_nonoverlapping(self.as_ptr(), s.as_mut_ptr(), size);\n\n            let ss : *mut super::Buf = std::mem::transmute(Box::leak(s).as_mut_ptr());\n\n            Self { inner: Box::from_raw(ss), tail: self.tail }\n        }\n    }\n}\n\nimpl Buf {\n    pub fn _tail(&mut self) -> usize {\n        self.tail\n    }\n    pub fn as_mut_ptr(&mut self) -> *mut u8 {\n        unsafe { std::mem::transmute(self.inner.as_mut() as *mut super::Buf) }\n    }\n    pub fn as_ptr(&self) -> *const u8 {\n        unsafe { std::mem::transmute(self.inner.as_ref() as *const super::Buf) }\n    }\n}\n\nimpl Buf {\n    pub fn new(tail:  usize) -> Self {\n        let size = unsafe{super::sizeof_Buf(tail)};\n        unsafe {\n            let s = Box::new(vec![0u8; size]);\n            let ss : *mut super::Buf = std::mem::transmute(Box::leak(s).as_mut_ptr());\n            Self { inner: Box::from_raw(ss), tail } \n        }\n    }\n}\n";
    assert_eq!(em.out, want);
}

#[test]
fn heap_wrapper_of_a_fixed_struct_takes_no_count() {
    let l = local(
        "::proj::m::P",
        Def::Struct {
            fields: vec![field("x", prim(Type::I32), Array::Absent)],
            packed: false,
            tail: Tail::Absent,
            union: false,
        },
    );
    let mut em = emitter();
    assert_eq!(em.emit_struct_heap(&l, None), Ok(()));
    assert!(em.out.contains("            let size = super::sizeof_P();\n"));
    assert!(em.out.contains("    pub fn new() -> Self {\n        let tail = 0;\n        let size = unsafe{super::sizeof_P()};\n"));
}

#[test]
fn closure_is_a_context_and_a_function_pointer() {
    let arg = NamedArg { typed: prim(Type::Int), name: "n".to_string(), tags: Tags::new(), loc: loc(1) };
    let l = local(
        "::proj::m::Callback",
        Def::Closure { ret: Some(AnonArg { typed: prim(Type::Bool) }), args: vec![arg], attr: Tags::new() },
    );
    let mut em = emitter();
    assert_eq!(em.emit_closure(&l), Ok(()));
    assert_eq!(
        em.out,
        "#[derive(Copy,Clone)]\n#[repr(C)]\npub struct Callback {\n    pub ctx: *mut std::ffi::c_void,\n    pub f: extern fn ( Zn: std::os::raw::c_int, ctx: *mut std::ffi::c_void) -> bool,\n}\n"
    );
    let plain = local("::proj::m::Done", Def::Closure { ret: None, args: vec![], attr: Tags::new() });
    let mut em2 = emitter();
    assert_eq!(em2.emit_closure(&plain), Ok(()));
    assert_eq!(
        em2.out,
        "#[derive(Copy,Clone)]\n#[repr(C)]\npub struct Done {\n    pub ctx: *mut std::ffi::c_void,\n    pub f: extern fn (ctx: *mut std::ffi::c_void),\n}\n"
    );
}

#[test]
fn function_declaration_is_linked_to_its_symbol() {
    let mut p = prim(Type::U8);
    p.ptr = vec![ptr(false)];
    let arg = NamedArg { typed: p.clone(), name: "s".to_string(), tags: Tags::new(), loc: loc(1) };
    let l = local(
        "::proj::m::len",
        Def::Function {
            ret: Some(AnonArg { typed: prim(Type::USize) }),
            args: vec![arg],
            body: Block { end: loc(9), statements: vec![] },
            vararg: false,
        },
    );
    let mut em = emitter();
    assert_eq!(em.emit_decl(&l), Ok(()));
    assert_eq!(
        em.out,
        "    #[link_name = \"proj_m_len\"]\n    pub fn r#len( Zs: *const u8)  -> usize;\n"
    );
    let unnamed = local(
        "::proj::m::f",
        Def::Function {
            ret: Some(AnonArg { typed: user("::ext::<a.h>::T") }),
            args: vec![],
            body: Block { end: loc(9), statements: vec![] },
            vararg: false,
        },
    );
    let mut em2 = emitter();
    assert_eq!(em2.emit_decl(&unnamed), Ok(()));
    assert_eq!(em2.out, "    // f: left out, it cannot be represented here\n");
}

#[test]
fn whole_file_of_a_module_with_a_dynamic_tail() {
    let b = buf();
    let main = local(
        "::proj::m::main",
        Def::Function {
            ret: Some(AnonArg { typed: prim(Type::Int) }),
            args: vec![],
            body: Block { end: loc(9), statements: vec![] },
            vararg: false,
        },
    );
    let foreign = local("::proj::other::T", Def::Enum { names: vec![] });
    let entry = |name: &str, l: &'static Local, complete: TypeComplete, node: usize| Flat {
        name: name.to_string(),
        local: l,
        complete,
        node,
    };
    let b: &'static Local = Box::leak(Box::new(b));
    let main: &'static Local = Box::leak(Box::new(main));
    let foreign: &'static Local = Box::leak(Box::new(foreign));
    let m = module(
        "::proj::m",
        vec![
            entry("::proj::m::Buf", b, TypeComplete::Incomplete, 0),
            entry("::proj::other::T", foreign, TypeComplete::Complete, 2),
            entry("::proj::m::Buf", b, TypeComplete::Complete, 0),
            entry("::proj::m::main", main, TypeComplete::Complete, 1),
        ],
    );
    let text = Emitter::new("target", m).emit().unwrap();
    let want = [
        "#![allow(non_camel_case_types)]\n#![allow(dead_code)]\n",
        "extern crate libc;\n",
        "\n#[derive(Copy,Clone)]\n#[repr(C)]\npub struct Buf {\n    pub len :usize ,\n    // data ,\n}\n",
        "\npub mod heap {\n",
    ]
    .concat();
    assert!(text.starts_with(&want));
    assert!(text.ends_with(
        "}\nextern {\n    #[link_name = \"sizeof_proj_m_Buf\"]\n    pub fn sizeof_Buf(tail: libc::size_t) -> libc::size_t;\n\n\n}\n"
    ));
    assert!(!text.contains("pub enum T"));
    assert!(!text.contains("r#main"));
}

#[test]
fn whole_file_of_an_empty_module() {
    let text = Emitter::new("t", module("::p::m", vec![])).emit().unwrap();
    assert_eq!(
        text,
        "#![allow(non_camel_case_types)]\n#![allow(dead_code)]\nextern crate libc;\n\npub mod heap {\n}\nextern {\n}\n"
    );
}

#[test]
fn registered_variants_are_written_after_their_struct() {
    let b: &'static Local = Box::leak(Box::new(buf()));
    let mut m = module(
        "::proj::m",
        vec![Flat { name: "::proj::m::Buf".to_string(), local: b, complete: TypeComplete::Complete, node: 0 }],
    );
    m.typevariants = vec![(Name::from("::proj::m::Buf"), vec![(8, loc(1)), (64, loc(2))])];
    let text = Emitter::new("t", m).emit().unwrap();
    assert!(text.contains("pub struct Buf_8 {\n    pub len :usize ,\n    pub data : [u8;8] ,\n}\n"));
    assert!(text.contains("pub struct Buf_64 {\n    pub len :usize ,\n    pub data : [u8;64] ,\n}\n"));
    assert!(text.contains("    #[link_name = \"sizeof_proj_m_Buf_8\"]\n    pub fn sizeof_Buf_8() -> libc::size_t;\n"));
    assert!(text.contains("            let size = super::sizeof_Buf_64();\n"));
    let first = text.find("pub struct Buf {").unwrap();
    let second = text.find("pub struct Buf_8 {").unwrap();
    let third = text.find("pub struct Buf_64 {").unwrap();
    assert!(first < second && second < third);
}

#[test]
fn emit_error_stops_the_file() {
    let bad: &'static Local = Box::leak(Box::new(local(
        "::proj::m::X",
        Def::Const { typed: prim(Type::Typeid), expr: num("1") },
    )));
    let m = module(
        "::proj::m",
        vec![Flat { name: "::proj::m::X".to_string(), local: bad, complete: TypeComplete::Complete, node: 0 }],
    );
    assert_eq!(Emitter::new("t", m).emit(), Err(EmitError::Untyped(loc(1))));
}

#[test]
fn companion_crate_files() {
    let files = make_module(
        "demo",
        &vec!["../../zz/proj_m.c".to_string(), "../../c/x.c".to_string()],
        &vec!["../../include".to_string()],
        &vec!["proj_m".to_string()],
    );
    assert_eq!(
        files.build_rs,
        "fn main() {\n    cc::Build::new()\n      .file(\"../../zz/proj_m.c\")\n      .file(\"../../c/x.c\")\n      .include(\"../../include\")\n    .compile(\"demo\");\n}\n"
    );
    assert_eq!(
        files.cargo_toml,
        "[package]\n    name = \"demo\"\n    version = \"0.0.1\"\n[dependencies]\nlibc = \"0.2\"\n[build-dependencies]\ncc = \"1\"\n"
    );
    assert_eq!(files.lib_rs, "#[path = \"../../proj_m.rs\"]\npub mod proj_m;\n\n");
    let empty = make_module("e", &vec![], &vec![], &vec![]);
    assert_eq!(empty.build_rs, "fn main() {\n    cc::Build::new()\n    .compile(\"e\");\n}\n");
    assert_eq!(empty.lib_rs, "");
}

#[test]
fn bridge_modules_are_the_sources_in_a_directory_called_zz() {
    let stem = |p: &str| zz::emitter_rs::bridge_stem(p);
    assert_eq!(stem("target/default/zz/proj_main.c"), Some("proj_main".to_string()));
    assert_eq!(stem("zz/a.b.c"), Some("a.b".to_string()));
    assert_eq!(stem("/zz/noext"), Some("noext".to_string()));
    assert_eq!(stem("x/zz/.hidden"), Some(".hidden".to_string()));
    assert_eq!(stem("x/zz/"), Some("".to_string()));
    assert_eq!(stem("target/default/c/helper.c"), None);
    assert_eq!(stem("zz.c"), None);
    assert_eq!(stem("src/zzz/a.c"), None);
    assert_eq!(stem("zz/sub/a.c"), None);
    assert_eq!(stem(""), None);
    let sources = vec![
        "target/default/zz/proj_a.c".to_string(),
        "src/native.c".to_string(),
        "target/default/zz/proj_b.c".to_string(),
        "target/default/zz/app_builtin.c".to_string(),
    ];
    assert_eq!(zz::emitter_rs::bridge_stems(&sources), vec!["proj_a", "proj_b", "app_builtin"]);
    assert!(zz::emitter_rs::bridge_stems(&vec![]).is_empty());
}
