//! The C emitter: for one flattened module, the text of its header or of its
//! implementation file.

use vstd::prelude::*;
use vstd::string::*;
use crate::ast::{
    is_placeholder, AnonArg, Array, Block, Def, Expression, Field, InfixOperator, Local, Location,
    NamedArg, Pointer, PostfixOperator, PrefixOperator, Statement, Storage, Tail, Type, Typed,
    Visibility,
};
use crate::emitter_rs::{
    concat_ok, escaped_bytes_text, escaped_text, infix_text, local_name_text, postfix_text,
    prefix_text, text_of, to_local_name, write_escaped_literal, EmitError,
};
use crate::emitter_rs::{is_main, join_path, path_join, short_name};
use crate::flatten::{Flat, Module, TypeComplete};
use crate::name::{views, Name};
use crate::pipeline::CFile;
use crate::text::{
    copy_strings, decimal, join, join_from, push_decimal, split_path, split_segments, strs,
};

verus! {

/// The C spelling of a primitive kind.
pub open spec fn c_primitive(t: Type) -> Option<Seq<char>> {
    match t {
        Type::U8 => Some("uint8_t"@),
        Type::U16 => Some("uint16_t"@),
        Type::U32 => Some("uint32_t"@),
        Type::U64 => Some("uint64_t"@),
        Type::U128 => Some("unsigned __int128"@),
        Type::I8 => Some("int8_t"@),
        Type::I16 => Some("int16_t"@),
        Type::I32 => Some("int32_t"@),
        Type::I64 => Some("int64_t"@),
        Type::I128 => Some("__int128"@),
        Type::Int => Some("int"@),
        Type::UInt => Some("unsigned int"@),
        Type::ISize => Some("intptr_t"@),
        Type::USize => Some("size_t"@),
        Type::Bool => Some("bool"@),
        Type::F32 => Some("float"@),
        Type::F64 => Some("double"@),
        Type::Char => Some("char"@),
        Type::Void => Some("void"@),
        _ => None,
    }
}

/// The C identifier of a name, or the error for a name that has none.
pub open spec fn c_name(aliases: Seq<(Name, String)>, n: Seq<Seq<char>>, loc: Location) -> Result<
    Seq<char>,
    EmitError,
> {
    match local_name_text(aliases, n) {
        Some(s) => Ok(s),
        None => Err(EmitError::Malformed(loc)),
    }
}

/// How the type that a reference names is written, without its pointers.
pub open spec fn c_base(aliases: Seq<(Name, String)>, typed: Typed) -> Result<Seq<char>, EmitError> {
    if is_placeholder(typed.t) {
        Err(EmitError::Untyped(typed.loc))
    } else if typed.t != Type::Other {
        Ok(c_primitive(typed.t)->0)
    } else {
        c_name(aliases, typed.name@, typed.loc)
    }
}

/// One pointer layer: `const` before the star unless the layer is tagged
/// `mut`, and `restrict` and `volatile` after it where the layer is tagged so.
pub open spec fn c_layer(p: Pointer) -> Seq<char> {
    (if p.tags@.contains_key("mut"@) {
        " *"@
    } else {
        " const *"@
    }) + (if p.tags@.contains_key("restrict"@) {
        " restrict"@
    } else {
        Seq::empty()
    }) + (if p.tags@.contains_key("volatile"@) {
        " volatile"@
    } else {
        Seq::empty()
    })
}

/// The pointer layers from `from` on, written as C reads them: the innermost
/// first.
pub open spec fn c_layers(ptr: Seq<Pointer>, from: int) -> Seq<char>
    decreases ptr.len() - from,
{
    if from < 0 || from >= ptr.len() {
        Seq::empty()
    } else {
        c_layers(ptr, from + 1) + c_layer(ptr[from])
    }
}

/// How a type reference is written in C.
pub open spec fn c_typed(aliases: Seq<(Name, String)>, typed: Typed) -> Result<Seq<char>, EmitError> {
    concat_ok(c_base(aliases, typed), Ok(c_layers(typed.ptr@, 0)))
}

fn primitive(t: Type) -> (s: &'static str)
    requires
        c_primitive(t) is Some,
    ensures
        s@ == c_primitive(t)->0,
{
    match t {
        Type::U8 => "uint8_t",
        Type::U16 => "uint16_t",
        Type::U32 => "uint32_t",
        Type::U64 => "uint64_t",
        Type::U128 => "unsigned __int128",
        Type::I8 => "int8_t",
        Type::I16 => "int16_t",
        Type::I32 => "int32_t",
        Type::I64 => "int64_t",
        Type::I128 => "__int128",
        Type::Int => "int",
        Type::UInt => "unsigned int",
        Type::ISize => "intptr_t",
        Type::USize => "size_t",
        Type::Bool => "bool",
        Type::F32 => "float",
        Type::F64 => "double",
        Type::Char => "char",
        _ => "void",
    }
}

/// The C identifier of a name; see [`c_name`].
pub fn name_source(aliases: &Vec<(Name, String)>, n: &Name, loc: &Location) -> (r: Result<
    String,
    EmitError,
>)
    ensures
        text_of(r) == c_name(aliases@, n@, *loc),
{
    match to_local_name(aliases, n) {
        Some(s) => Ok(s),
        None => Err(EmitError::Malformed(loc.clone())),
    }
}

fn layer_source(p: &Pointer) -> (out: String)
    ensures
        out@ == c_layer(*p),
{
    let mut out = if p.tags.contains_key("mut") {
        String::from_str(" *")
    } else {
        String::from_str(" const *")
    };
    let r = if p.tags.contains_key("restrict") {
        " restrict"
    } else {
        ""
    };
    proof {
        reveal_strlit("");
        assert(""@ =~= Seq::<char>::empty());
    }
    out.append(r);
    let v = if p.tags.contains_key("volatile") {
        " volatile"
    } else {
        ""
    };
    out.append(v);
    out
}

/// How a type reference is written in C; see [`c_typed`].
pub fn typed_source(aliases: &Vec<(Name, String)>, typed: &Typed) -> (r: Result<String, EmitError>)
    ensures
        text_of(r) == c_typed(aliases@, *typed),
{
    let mut out = match typed.t {
        Type::ILiteral | Type::ULiteral | Type::Elided | Type::New | Type::Typeid => {
            return Err(EmitError::Untyped(typed.loc.clone()));
        },
        Type::Other => match name_source(aliases, &typed.name, &typed.loc) {
            Err(e) => {
                return Err(e);
            },
            Ok(s) => s,
        },
        t => String::from_str(primitive(t)),
    };
    let mut layers = String::new();
    let mut i: usize = typed.ptr.len();
    while i > 0
        invariant
            i <= typed.ptr.len(),
            layers@ == c_layers(typed.ptr@, i as int),
        decreases i,
    {
        i = i - 1;
        layers.append(layer_source(&typed.ptr[i]).as_str());
    }
    out.append(layers.as_str());
    Ok(out)
}

/// The text of an expression in C. A macro call-site that is still there is
/// an error.
pub open spec fn c_expr(aliases: Seq<(Name, String)>, e: Expression) -> Result<Seq<char>, EmitError>
    decreases e, 0nat,
{
    match e {
        Expression::Name(t) => c_name(aliases, t.name@, t.loc),
        Expression::MemberAccess { lhs, op, rhs, .. } => concat_ok(
            c_expr(aliases, *lhs),
            Ok(op@ + rhs@),
        ),
        Expression::ArrayAccess { lhs, rhs, .. } => concat_ok(
            concat_ok(concat_ok(c_expr(aliases, *lhs), Ok("["@)), c_expr(aliases, *rhs)),
            Ok("]"@),
        ),
        Expression::Literal { v, .. } => Ok(v@),
        Expression::LiteralString { v, .. } => Ok("\""@ + escaped_bytes_text(v@) + "\""@),
        Expression::LiteralChar { v, .. } => Ok("'"@ + escaped_text(v, false) + "'"@),
        Expression::Call { name, args, .. } => concat_ok(
            concat_ok(
                concat_ok(c_name(aliases, name.name@, name.loc), Ok("("@)),
                c_list(aliases, args@, args@.len()),
            ),
            Ok(")"@),
        ),
        Expression::InfixOperation { lhs, rhs, .. } => concat_ok(
            concat_ok(
                concat_ok(Ok("("@), c_expr(aliases, *lhs)),
                c_chain(aliases, rhs@, rhs@.len()),
            ),
            Ok(")"@),
        ),
        Expression::Cast { into, expr, .. } => concat_ok(
            concat_ok(
                concat_ok(concat_ok(Ok("(("@), c_typed(aliases, into)), Ok(")"@)),
                c_expr(aliases, *expr),
            ),
            Ok(")"@),
        ),
        Expression::UnaryPost { op, expr, .. } => concat_ok(
            concat_ok(Ok("("@), c_expr(aliases, *expr)),
            Ok(postfix_text(op) + ")"@),
        ),
        Expression::UnaryPre { op, expr, .. } => concat_ok(
            concat_ok(Ok("("@ + prefix_text(op)), c_expr(aliases, *expr)),
            Ok(")"@),
        ),
        Expression::StructInit { typed, fields, .. } => concat_ok(
            concat_ok(
                concat_ok(concat_ok(Ok("("@), c_typed(aliases, typed)), Ok("){"@)),
                c_inits(aliases, fields@, fields@.len()),
            ),
            Ok("}"@),
        ),
        Expression::ArrayInit { fields, .. } => concat_ok(
            concat_ok(Ok("{"@), c_list(aliases, fields@, fields@.len())),
            Ok("}"@),
        ),
        Expression::MacroCall { loc, .. } => Err(EmitError::MacroCall(loc)),
    }
}

/// The separator before the item at `n - 1` of a list.
pub open spec fn comma(n: nat) -> Seq<char> {
    if n <= 1 {
        Seq::empty()
    } else {
        ", "@
    }
}

/// The first `n` expressions of a list, separated by commas.
pub open spec fn c_list(aliases: Seq<(Name, String)>, items: Seq<Box<Expression>>, n: nat) -> Result<
    Seq<char>,
    EmitError,
>
    decreases items, n,
{
    if n == 0 || n > items.len() {
        Ok(Seq::empty())
    } else {
        concat_ok(
            concat_ok(c_list(aliases, items, (n - 1) as nat), Ok(comma(n))),
            c_expr(aliases, *items[n - 1]),
        )
    }
}

/// The first `n` links of an operator chain.
pub open spec fn c_chain(
    aliases: Seq<(Name, String)>,
    chain: Seq<((InfixOperator, Location), Box<Expression>)>,
    n: nat,
) -> Result<Seq<char>, EmitError>
    decreases chain, n,
{
    if n == 0 || n > chain.len() {
        Ok(Seq::empty())
    } else {
        concat_ok(
            concat_ok(
                c_chain(aliases, chain, (n - 1) as nat),
                Ok(" "@ + infix_text(chain[n - 1].0.0) + " "@),
            ),
            c_expr(aliases, *chain[n - 1].1),
        )
    }
}

/// The first `n` field initialisers, each as `.name = value`.
pub open spec fn c_inits(
    aliases: Seq<(Name, String)>,
    fields: Seq<(String, Box<Expression>)>,
    n: nat,
) -> Result<Seq<char>, EmitError>
    decreases fields, n,
{
    if n == 0 || n > fields.len() {
        Ok(Seq::empty())
    } else {
        concat_ok(
            concat_ok(
                c_inits(aliases, fields, (n - 1) as nat),
                Ok(comma(n) + "."@ + fields[n - 1].0@ + " = "@),
            ),
            c_expr(aliases, *fields[n - 1].1),
        )
    }
}

proof fn lemma_list_error(aliases: Seq<(Name, String)>, items: Seq<Box<Expression>>, k: nat, n: nat)
    requires
        k <= n <= items.len(),
    ensures
        c_list(aliases, items, k) is Err ==> c_list(aliases, items, n) == c_list(aliases, items, k),
    decreases n,
{
    if k < n {
        lemma_list_error(aliases, items, k, (n - 1) as nat);
    }
}

proof fn lemma_chain_error(
    aliases: Seq<(Name, String)>,
    chain: Seq<((InfixOperator, Location), Box<Expression>)>,
    k: nat,
    n: nat,
)
    requires
        k <= n <= chain.len(),
    ensures
        c_chain(aliases, chain, k) is Err ==> c_chain(aliases, chain, n) == c_chain(
            aliases,
            chain,
            k,
        ),
    decreases n,
{
    if k < n {
        lemma_chain_error(aliases, chain, k, (n - 1) as nat);
    }
}

proof fn lemma_inits_error(
    aliases: Seq<(Name, String)>,
    fields: Seq<(String, Box<Expression>)>,
    k: nat,
    n: nat,
)
    requires
        k <= n <= fields.len(),
    ensures
        c_inits(aliases, fields, k) is Err ==> c_inits(aliases, fields, n) == c_inits(
            aliases,
            fields,
            k,
        ),
    decreases n,
{
    if k < n {
        lemma_inits_error(aliases, fields, k, (n - 1) as nat);
    }
}

fn separator(i: usize) -> (s: &'static str)
    ensures
        s@ == comma((i + 1) as nat),
{
    proof {
        reveal_strlit("");
        assert(""@ =~= Seq::<char>::empty());
    }
    if i == 0 {
        ""
    } else {
        ", "
    }
}

fn list_source(aliases: &Vec<(Name, String)>, items: &Vec<Box<Expression>>) -> (r: Result<
    String,
    EmitError,
>)
    ensures
        text_of(r) == c_list(aliases@, items@, items@.len()),
    decreases items, 1nat,
{
    let mut out = String::new();
    let mut i: usize = 0;
    while i < items.len()
        invariant
            i <= items.len(),
            c_list(aliases@, items@, i as nat) == Ok::<Seq<char>, EmitError>(out@),
        decreases items.len() - i,
    {
        proof {
            lemma_list_error(aliases@, items@, (i + 1) as nat, items@.len());
        }
        out.append(separator(i));
        match expr_source(aliases, &*items[i]) {
            Err(e) => {
                return Err(e);
            },
            Ok(s) => {
                out.append(s.as_str());
            },
        }
        i = i + 1;
    }
    Ok(out)
}

fn chain_source(
    aliases: &Vec<(Name, String)>,
    chain: &Vec<((InfixOperator, Location), Box<Expression>)>,
) -> (r: Result<String, EmitError>)
    ensures
        text_of(r) == c_chain(aliases@, chain@, chain@.len()),
    decreases chain, 1nat,
{
    let mut out = String::new();
    let mut i: usize = 0;
    while i < chain.len()
        invariant
            i <= chain.len(),
            c_chain(aliases@, chain@, i as nat) == Ok::<Seq<char>, EmitError>(out@),
        decreases chain.len() - i,
    {
        proof {
            lemma_chain_error(aliases@, chain@, (i + 1) as nat, chain@.len());
        }
        let mut link = String::from_str(" ");
        link.append(crate::emitter_rs::infix_str(chain[i].0.0));
        link.append(" ");
        out.append(link.as_str());
        match expr_source(aliases, &*chain[i].1) {
            Err(e) => {
                return Err(e);
            },
            Ok(s) => {
                out.append(s.as_str());
            },
        }
        i = i + 1;
    }
    Ok(out)
}

fn inits_source(aliases: &Vec<(Name, String)>, fields: &Vec<(String, Box<Expression>)>) -> (r: Result<
    String,
    EmitError,
>)
    ensures
        text_of(r) == c_inits(aliases@, fields@, fields@.len()),
    decreases fields, 1nat,
{
    let mut out = String::new();
    let mut i: usize = 0;
    while i < fields.len()
        invariant
            i <= fields.len(),
            c_inits(aliases@, fields@, i as nat) == Ok::<Seq<char>, EmitError>(out@),
        decreases fields.len() - i,
    {
        proof {
            lemma_inits_error(aliases@, fields@, (i + 1) as nat, fields@.len());
        }
        let mut head = String::from_str(separator(i));
        head.append(".");
        head.append(fields[i].0.as_str());
        head.append(" = ");
        out.append(head.as_str());
        match expr_source(aliases, &*fields[i].1) {
            Err(e) => {
                return Err(e);
            },
            Ok(s) => {
                out.append(s.as_str());
            },
        }
        i = i + 1;
    }
    Ok(out)
}

fn escaped_source(v: &Vec<u8>) -> (out: String)
    ensures
        out@ == escaped_bytes_text(v@),
{
    let mut out = String::new();
    let mut i: usize = 0;
    proof {
        assert(v@.subrange(0, 0) =~= Seq::<u8>::empty());
    }
    while i < v.len()
        invariant
            i <= v.len(),
            out@ == escaped_bytes_text(v@.subrange(0, i as int)),
        decreases v.len() - i,
    {
        proof {
            let head = v@.subrange(0, i + 1);
            assert(head.drop_last() == v@.subrange(0, i as int));
            assert(head.last() == v@[i as int]);
        }
        write_escaped_literal(&mut out, v[i], true);
        i = i + 1;
    }
    proof {
        assert(v@.subrange(0, i as int) == v@);
    }
    out
}

/// The text of an expression in C; see [`c_expr`].
pub fn expr_source(aliases: &Vec<(Name, String)>, e: &Expression) -> (r: Result<String, EmitError>)
    ensures
        text_of(r) == c_expr(aliases@, *e),
    decreases e, 0nat,
{
    match e {
        Expression::Name(t) => name_source(aliases, &t.name, &t.loc),
        Expression::MemberAccess { lhs, op, rhs, .. } => {
            let mut out = match expr_source(aliases, &**lhs) {
                Err(e) => {
                    return Err(e);
                },
                Ok(s) => s,
            };
            let mut tail = op.clone();
            tail.append(rhs.as_str());
            out.append(tail.as_str());
            Ok(out)
        },
        Expression::ArrayAccess { lhs, rhs, .. } => {
            let mut out = match expr_source(aliases, &**lhs) {
                Err(e) => {
                    return Err(e);
                },
                Ok(s) => s,
            };
            out.append("[");
            match expr_source(aliases, &**rhs) {
                Err(e) => {
                    return Err(e);
                },
                Ok(s) => {
                    out.append(s.as_str());
                },
            }
            out.append("]");
            Ok(out)
        },
        Expression::Literal { v, .. } => Ok(v.clone()),
        Expression::LiteralString { v, .. } => {
            let mut out = String::from_str("\"");
            out.append(escaped_source(v).as_str());
            out.append("\"");
            Ok(out)
        },
        Expression::LiteralChar { v, .. } => {
            let mut out = String::from_str("'");
            write_escaped_literal(&mut out, *v, false);
            out.append("'");
            Ok(out)
        },
        Expression::Call { name, args, .. } => {
            let mut out = match name_source(aliases, &name.name, &name.loc) {
                Err(e) => {
                    return Err(e);
                },
                Ok(s) => s,
            };
            out.append("(");
            match list_source(aliases, args) {
                Err(e) => {
                    return Err(e);
                },
                Ok(s) => {
                    out.append(s.as_str());
                },
            }
            out.append(")");
            Ok(out)
        },
        Expression::InfixOperation { lhs, rhs, .. } => {
            let mut out = String::from_str("(");
            match expr_source(aliases, &**lhs) {
                Err(e) => {
                    return Err(e);
                },
                Ok(s) => {
                    out.append(s.as_str());
                },
            }
            match chain_source(aliases, rhs) {
                Err(e) => {
                    return Err(e);
                },
                Ok(s) => {
                    out.append(s.as_str());
                },
            }
            out.append(")");
            Ok(out)
        },
        Expression::Cast { into, expr, .. } => {
            let mut out = String::from_str("((");
            match typed_source(aliases, into) {
                Err(e) => {
                    return Err(e);
                },
                Ok(s) => {
                    out.append(s.as_str());
                },
            }
            out.append(")");
            match expr_source(aliases, &**expr) {
                Err(e) => {
                    return Err(e);
                },
                Ok(s) => {
                    out.append(s.as_str());
                },
            }
            out.append(")");
            Ok(out)
        },
        Expression::UnaryPost { op, expr, .. } => {
            let mut out = String::from_str("(");
            match expr_source(aliases, &**expr) {
                Err(e) => {
                    return Err(e);
                },
                Ok(s) => {
                    out.append(s.as_str());
                },
            }
            let mut tail = String::from_str(crate::emitter_rs::postfix_str(*op));
            tail.append(")");
            out.append(tail.as_str());
            Ok(out)
        },
        Expression::UnaryPre { op, expr, .. } => {
            let mut out = String::from_str("(");
            out.append(crate::emitter_rs::prefix_str(*op));
            match expr_source(aliases, &**expr) {
                Err(e) => {
                    return Err(e);
                },
                Ok(s) => {
                    out.append(s.as_str());
                },
            }
            out.append(")");
            Ok(out)
        },
        Expression::StructInit { typed, fields, .. } => {
            let mut out = String::from_str("(");
            match typed_source(aliases, typed) {
                Err(e) => {
                    return Err(e);
                },
                Ok(s) => {
                    out.append(s.as_str());
                },
            }
            out.append("){");
            match inits_source(aliases, fields) {
                Err(e) => {
                    return Err(e);
                },
                Ok(s) => {
                    out.append(s.as_str());
                },
            }
            out.append("}");
            Ok(out)
        },
        Expression::ArrayInit { fields, .. } => {
            let mut out = String::from_str("{");
            match list_source(aliases, fields) {
                Err(e) => {
                    return Err(e);
                },
                Ok(s) => {
                    out.append(s.as_str());
                },
            }
            out.append("}");
            Ok(out)
        },
        Expression::MacroCall { loc, .. } => Err(EmitError::MacroCall(loc.clone())),
    }
}

/// An optional part of a statement: `before`, then the expression, then
/// `after`; nothing where there is no expression.
pub open spec fn c_optional(
    aliases: Seq<(Name, String)>,
    before: Seq<char>,
    e: Option<Expression>,
    after: Seq<char>,
) -> Result<Seq<char>, EmitError> {
    match e {
        Some(x) => concat_ok(concat_ok(Ok(before), c_expr(aliases, x)), Ok(after)),
        None => Ok(Seq::empty()),
    }
}

/// Whether a statement is simple: one that a loop header can hold.
pub open spec fn is_simple(s: Statement) -> bool {
    s is Assign || s is Expr || s is Continue || s is Break || s is Return || s is Goto || s is Var
}

/// The text of a simple statement, without indentation and semicolon.
pub open spec fn c_core(aliases: Seq<(Name, String)>, s: Statement) -> Result<Seq<char>, EmitError>
    recommends
        is_simple(s),
{
    match s {
        Statement::Assign { lhs, op, rhs, .. } => concat_ok(
            concat_ok(c_expr(aliases, lhs), Ok(" "@ + op@ + " "@)),
            c_expr(aliases, rhs),
        ),
        Statement::Expr { expr, .. } => c_expr(aliases, expr),
        Statement::Continue { .. } => Ok("continue"@),
        Statement::Break { .. } => Ok("break"@),
        Statement::Return { expr, .. } => concat_ok(
            Ok("return"@),
            c_optional(aliases, " "@, expr, Seq::empty()),
        ),
        Statement::Goto { label, .. } => Ok("goto "@ + label@),
        Statement::Var { typed, name, array, assign, .. } => concat_ok(
            concat_ok(
                concat_ok(c_typed(aliases, typed), Ok(" "@ + name@)),
                c_optional(aliases, "["@, array, "]"@),
            ),
            c_optional(aliases, " = "@, assign, Seq::empty()),
        ),
        _ => Ok(Seq::empty()),
    }
}

/// The place that stands for a statement in an error.
pub open spec fn stmt_place(s: Statement) -> Location {
    match s {
        Statement::Mark { loc, .. } => loc,
        Statement::Label { loc, .. } => loc,
        Statement::Goto { loc, .. } => loc,
        Statement::Assign { loc, .. } => loc,
        Statement::Expr { loc, .. } => loc,
        Statement::Continue { loc } => loc,
        Statement::Break { loc } => loc,
        Statement::Return { loc, .. } => loc,
        Statement::Var { loc, .. } => loc,
        Statement::For { body, .. } => body.end,
        Statement::Cond { body, .. } => body.end,
        Statement::Block(b) => b.end,
    }
}

/// The first `n` statements of one clause of a loop header, separated by
/// commas. A statement that is not simple cannot stand there.
pub open spec fn c_clause(aliases: Seq<(Name, String)>, items: Seq<Box<Statement>>, n: nat) -> Result<
    Seq<char>,
    EmitError,
>
    decreases n,
{
    if n == 0 || n > items.len() {
        Ok(Seq::empty())
    } else {
        concat_ok(
            concat_ok(c_clause(aliases, items, (n - 1) as nat), Ok(comma(n))),
            if is_simple(*items[n - 1]) {
                c_core(aliases, *items[n - 1])
            } else {
                Err(EmitError::Malformed(stmt_place(*items[n - 1])))
            },
        )
    }
}

/// The text of a statement in C, on lines of its own.
pub open spec fn c_stmt(aliases: Seq<(Name, String)>, s: Statement) -> Result<Seq<char>, EmitError>
    decreases s, 0nat,
{
    match s {
        Statement::Mark { .. } => Ok(Seq::empty()),
        Statement::Label { label, .. } => Ok(label@ + ":;\n"@),
        Statement::For { e1, e2, e3, body } => concat_ok(
            concat_ok(
                concat_ok(
                    concat_ok(
                        concat_ok(
                            concat_ok(
                                concat_ok(Ok("    for ("@), c_clause(aliases, e1@, e1@.len())),
                                Ok("; "@),
                            ),
                            c_clause(aliases, e2@, e2@.len()),
                        ),
                        Ok("; "@),
                    ),
                    c_clause(aliases, e3@, e3@.len()),
                ),
                Ok(") "@),
            ),
            c_block(aliases, body),
        ),
        Statement::Cond { op, expr, body } => concat_ok(
            concat_ok(
                concat_ok(Ok("    "@ + op@), c_optional(aliases, " ("@, expr, ")"@)),
                Ok(" "@),
            ),
            c_block(aliases, body),
        ),
        Statement::Block(b) => concat_ok(Ok("    "@), c_block(aliases, *b)),
        _ => concat_ok(concat_ok(Ok("    "@), c_core(aliases, s)), Ok(";\n"@)),
    }
}

/// A block inside a function: its statements between braces.
pub open spec fn c_block(aliases: Seq<(Name, String)>, b: Block) -> Result<Seq<char>, EmitError>
    decreases b, 0nat,
{
    concat_ok(
        concat_ok(Ok("{\n"@), c_stmts(aliases, b.statements@, b.statements@.len())),
        Ok("    }\n"@),
    )
}

pub open spec fn c_stmts(aliases: Seq<(Name, String)>, stmts: Seq<Statement>, n: nat) -> Result<
    Seq<char>,
    EmitError,
>
    decreases stmts, n,
{
    if n == 0 || n > stmts.len() {
        Ok(Seq::empty())
    } else {
        concat_ok(c_stmts(aliases, stmts, (n - 1) as nat), c_stmt(aliases, stmts[n - 1]))
    }
}

proof fn lemma_clause_error(aliases: Seq<(Name, String)>, items: Seq<Box<Statement>>, k: nat, n: nat)
    requires
        k <= n <= items.len(),
    ensures
        c_clause(aliases, items, k) is Err ==> c_clause(aliases, items, n) == c_clause(
            aliases,
            items,
            k,
        ),
    decreases n,
{
    if k < n {
        lemma_clause_error(aliases, items, k, (n - 1) as nat);
    }
}

proof fn lemma_stmts_error(aliases: Seq<(Name, String)>, stmts: Seq<Statement>, k: nat, n: nat)
    requires
        k <= n <= stmts.len(),
    ensures
        c_stmts(aliases, stmts, k) is Err ==> c_stmts(aliases, stmts, n) == c_stmts(
            aliases,
            stmts,
            k,
        ),
    decreases n,
{
    if k < n {
        lemma_stmts_error(aliases, stmts, k, (n - 1) as nat);
    }
}

fn optional_source(aliases: &Vec<(Name, String)>, before: &str, e: &Option<Expression>, after: &str) -> (r:
    Result<String, EmitError>)
    ensures
        text_of(r) == c_optional(aliases@, before@, *e, after@),
{
    match e {
        None => Ok(String::new()),
        Some(x) => {
            let mut out = String::from_str(before);
            match expr_source(aliases, x) {
                Err(e) => {
                    return Err(e);
                },
                Ok(s) => {
                    out.append(s.as_str());
                },
            }
            out.append(after);
            Ok(out)
        },
    }
}

fn simple(s: &Statement) -> (b: bool)
    ensures
        b == is_simple(*s),
{
    match s {
        Statement::Assign { .. } => true,
        Statement::Expr { .. } => true,
        Statement::Continue { .. } => true,
        Statement::Break { .. } => true,
        Statement::Return { .. } => true,
        Statement::Goto { .. } => true,
        Statement::Var { .. } => true,
        _ => false,
    }
}

fn place_of(s: &Statement) -> (l: Location)
    ensures
        l == stmt_place(*s),
{
    match s {
        Statement::Mark { loc, .. } => loc.clone(),
        Statement::Label { loc, .. } => loc.clone(),
        Statement::Goto { loc, .. } => loc.clone(),
        Statement::Assign { loc, .. } => loc.clone(),
        Statement::Expr { loc, .. } => loc.clone(),
        Statement::Continue { loc } => loc.clone(),
        Statement::Break { loc } => loc.clone(),
        Statement::Return { loc, .. } => loc.clone(),
        Statement::Var { loc, .. } => loc.clone(),
        Statement::For { body, .. } => body.end.clone(),
        Statement::Cond { body, .. } => body.end.clone(),
        Statement::Block(b) => b.end.clone(),
    }
}

fn core_source(aliases: &Vec<(Name, String)>, s: &Statement) -> (r: Result<String, EmitError>)
    ensures
        text_of(r) == c_core(aliases@, *s),
{
    proof {
        reveal_strlit("");
        assert(""@ =~= Seq::<char>::empty());
    }
    match s {
        Statement::Assign { lhs, op, rhs, .. } => {
            let mut out = match expr_source(aliases, lhs) {
                Err(e) => {
                    return Err(e);
                },
                Ok(s) => s,
            };
            let mut mid = String::from_str(" ");
            mid.append(op.as_str());
            mid.append(" ");
            out.append(mid.as_str());
            match expr_source(aliases, rhs) {
                Err(e) => Err(e),
                Ok(s) => {
                    out.append(s.as_str());
                    Ok(out)
                },
            }
        },
        Statement::Expr { expr, .. } => expr_source(aliases, expr),
        Statement::Continue { .. } => Ok(String::from_str("continue")),
        Statement::Break { .. } => Ok(String::from_str("break")),
        Statement::Return { expr, .. } => {
            let mut out = String::from_str("return");
            match optional_source(aliases, " ", expr, "") {
                Err(e) => Err(e),
                Ok(s) => {
                    out.append(s.as_str());
                    Ok(out)
                },
            }
        },
        Statement::Goto { label, .. } => {
            let mut out = String::from_str("goto ");
            out.append(label.as_str());
            Ok(out)
        },
        Statement::Var { typed, name, array, assign, .. } => {
            let mut out = match typed_source(aliases, typed) {
                Err(e) => {
                    return Err(e);
                },
                Ok(s) => s,
            };
            let mut n = String::from_str(" ");
            n.append(name.as_str());
            out.append(n.as_str());
            match optional_source(aliases, "[", array, "]") {
                Err(e) => {
                    return Err(e);
                },
                Ok(s) => {
                    out.append(s.as_str());
                },
            }
            match optional_source(aliases, " = ", assign, "") {
                Err(e) => Err(e),
                Ok(s) => {
                    out.append(s.as_str());
                    Ok(out)
                },
            }
        },
        _ => Ok(String::new()),
    }
}

fn clause_source(aliases: &Vec<(Name, String)>, items: &Vec<Box<Statement>>) -> (r: Result<
    String,
    EmitError,
>)
    ensures
        text_of(r) == c_clause(aliases@, items@, items@.len()),
{
    let mut out = String::new();
    let mut i: usize = 0;
    while i < items.len()
        invariant
            i <= items.len(),
            c_clause(aliases@, items@, i as nat) == Ok::<Seq<char>, EmitError>(out@),
        decreases items.len() - i,
    {
        proof {
            lemma_clause_error(aliases@, items@, (i + 1) as nat, items@.len());
        }
        out.append(separator(i));
        if !simple(&*items[i]) {
            return Err(EmitError::Malformed(place_of(&*items[i])));
        }
        match core_source(aliases, &*items[i]) {
            Err(e) => {
                return Err(e);
            },
            Ok(s) => {
                out.append(s.as_str());
            },
        }
        i = i + 1;
    }
    Ok(out)
}

fn stmts_source(aliases: &Vec<(Name, String)>, stmts: &Vec<Statement>) -> (r: Result<
    String,
    EmitError,
>)
    ensures
        text_of(r) == c_stmts(aliases@, stmts@, stmts@.len()),
    decreases stmts, 1nat,
{
    let mut out = String::new();
    let mut i: usize = 0;
    while i < stmts.len()
        invariant
            i <= stmts.len(),
            c_stmts(aliases@, stmts@, i as nat) == Ok::<Seq<char>, EmitError>(out@),
        decreases stmts.len() - i,
    {
        proof {
            lemma_stmts_error(aliases@, stmts@, (i + 1) as nat, stmts@.len());
        }
        match stmt_source(aliases, &stmts[i]) {
            Err(e) => {
                return Err(e);
            },
            Ok(s) => {
                out.append(s.as_str());
            },
        }
        i = i + 1;
    }
    Ok(out)
}

fn block_source(aliases: &Vec<(Name, String)>, b: &Block) -> (r: Result<String, EmitError>)
    ensures
        text_of(r) == c_block(aliases@, *b),
    decreases b, 0nat,
{
    let mut out = String::from_str("{\n");
    match stmts_source(aliases, &b.statements) {
        Err(e) => Err(e),
        Ok(s) => {
            out.append(s.as_str());
            out.append("    }\n");
            Ok(out)
        },
    }
}

/// The text of a statement in C; see [`c_stmt`].
pub fn stmt_source(aliases: &Vec<(Name, String)>, s: &Statement) -> (r: Result<String, EmitError>)
    ensures
        text_of(r) == c_stmt(aliases@, *s),
    decreases s, 0nat,
{
    match s {
        Statement::Mark { .. } => Ok(String::new()),
        Statement::Label { label, .. } => {
            let mut out = label.clone();
            out.append(":;\n");
            Ok(out)
        },
        Statement::For { e1, e2, e3, body } => {
            let mut out = String::from_str("    for (");
            match clause_source(aliases, e1) {
                Err(e) => {
                    return Err(e);
                },
                Ok(s) => {
                    out.append(s.as_str());
                },
            }
            out.append("; ");
            match clause_source(aliases, e2) {
                Err(e) => {
                    return Err(e);
                },
                Ok(s) => {
                    out.append(s.as_str());
                },
            }
            out.append("; ");
            match clause_source(aliases, e3) {
                Err(e) => {
                    return Err(e);
                },
                Ok(s) => {
                    out.append(s.as_str());
                },
            }
            out.append(") ");
            match block_source(aliases, body) {
                Err(e) => Err(e),
                Ok(s) => {
                    out.append(s.as_str());
                    Ok(out)
                },
            }
        },
        Statement::Cond { op, expr, body } => {
            let mut out = String::from_str("    ");
            out.append(op.as_str());
            match optional_source(aliases, " (", expr, ")") {
                Err(e) => {
                    return Err(e);
                },
                Ok(s) => {
                    out.append(s.as_str());
                },
            }
            out.append(" ");
            match block_source(aliases, body) {
                Err(e) => Err(e),
                Ok(s) => {
                    out.append(s.as_str());
                    Ok(out)
                },
            }
        },
        Statement::Block(b) => {
            let mut out = String::from_str("    ");
            match block_source(aliases, &**b) {
                Err(e) => Err(e),
                Ok(s) => {
                    out.append(s.as_str());
                    Ok(out)
                },
            }
        },
        _ => {
            let mut out = String::from_str("    ");
            match core_source(aliases, s) {
                Err(e) => Err(e),
                Ok(t) => {
                    out.append(t.as_str());
                    out.append(";\n");
                    Ok(out)
                },
            }
        },
    }
}

/// The C symbol of a definition: the name it is exported as, where it has
/// one; `main` for a function called `main`; else the C identifier of its
/// absolute name, whatever alias a module may know it by.
pub open spec fn c_symbol(name: Seq<char>, l: Local) -> Result<Seq<char>, EmitError> {
    match l.export_as {
        Some(a) => Ok(a@),
        None => if l.def is Function && is_main(name) {
            Ok("main"@)
        } else {
            c_name(Seq::empty(), split_path(name), l.loc)
        },
    }
}

/// The C symbol of a definition; see [`c_symbol`].
pub fn symbol_source(name: &str, l: &Local) -> (r: Result<String, EmitError>)
    ensures
        text_of(r) == c_symbol(name@, *l),
{
    let aliases: Vec<(Name, String)> = Vec::new();
    match &l.export_as {
        Some(a) => Ok(a.clone()),
        None => {
            let main = match &l.def {
                Def::Function { .. } => crate::emitter_rs::ends_with_main(name),
                _ => false,
            };
            if main {
                Ok(String::from_str("main"))
            } else {
                name_source(&aliases, &Name::parse(name), &l.loc)
            }
        },
    }
}

/// One field of a struct in C. An array without a size must be the last
/// field.
pub open spec fn c_field(aliases: Seq<(Name, String)>, f: Field, is_last: bool) -> Result<
    Seq<char>,
    EmitError,
> {
    concat_ok(
        concat_ok(concat_ok(Ok("    "@), c_typed(aliases, f.typed)), Ok(" "@ + f.name@)),
        match f.array {
            Array::Sized(e) => concat_ok(concat_ok(Ok("["@), c_expr(aliases, e)), Ok("];\n"@)),
            Array::Unsized => if is_last {
                Ok("[];\n"@)
            } else {
                Err(EmitError::TailNotLast(f.loc))
            },
            Array::Absent => Ok(";\n"@),
        },
    )
}

pub open spec fn c_fields(aliases: Seq<(Name, String)>, fields: Seq<Field>, n: nat) -> Result<
    Seq<char>,
    EmitError,
>
    decreases n,
{
    if n == 0 || n > fields.len() {
        Ok(Seq::empty())
    } else {
        concat_ok(
            c_fields(aliases, fields, (n - 1) as nat),
            c_field(aliases, fields[n - 1], n == fields.len()),
        )
    }
}

proof fn lemma_fields_error(aliases: Seq<(Name, String)>, fields: Seq<Field>, k: nat, n: nat)
    requires
        k <= n <= fields.len(),
    ensures
        c_fields(aliases, fields, k) is Err ==> c_fields(aliases, fields, n) == c_fields(
            aliases,
            fields,
            k,
        ),
    decreases n,
{
    if k < n {
        lemma_fields_error(aliases, fields, k, (n - 1) as nat);
    }
}

/// The keyword of a struct or union.
pub open spec fn c_kind(is_union: bool) -> Seq<char> {
    if is_union {
        "union "@
    } else {
        "struct "@
    }
}

/// The forward declaration of a struct or union: the tag, and the tag as a
/// type name.
pub open spec fn c_forward(symbol: Seq<char>, is_union: bool) -> Seq<char> {
    c_kind(is_union) + symbol + ";\ntypedef "@ + c_kind(is_union) + symbol + " "@ + symbol + ";\n"@
}

/// The layout of a struct or union.
pub open spec fn c_struct(
    aliases: Seq<(Name, String)>,
    symbol: Seq<char>,
    fields: Seq<Field>,
    packed: bool,
    is_union: bool,
) -> Result<Seq<char>, EmitError> {
    concat_ok(
        concat_ok(Ok(c_kind(is_union) + symbol + " {\n"@), c_fields(aliases, fields, fields.len())),
        Ok(
            (if packed {
                "} __attribute__((__packed__));\n"@
            } else {
                "};\n"@
            }),
        ),
    )
}

/// The head of a struct's size query: without an argument for a struct of
/// fixed size, with the number of tail elements for one with a dynamic tail.
pub open spec fn c_sizeof_head(symbol: Seq<char>, tail: Tail) -> Seq<char> {
    "size_t sizeof_"@ + symbol + (if tail == Tail::Dynamic {
        "(size_t tail)"@
    } else {
        "(void)"@
    })
}

/// The size query of a struct: the size of the type, or, for a dynamic tail,
/// the offset of the tail field plus the tail elements times the size of one.
pub open spec fn c_sizeof(aliases: Seq<(Name, String)>, symbol: Seq<char>, fields: Seq<Field>, tail: Tail) -> Result<
    Seq<char>,
    EmitError,
> {
    if tail == Tail::Dynamic {
        if fields.len() == 0 {
            Ok(Seq::empty())
        } else {
            concat_ok(
                concat_ok(
                    Ok(
                        c_sizeof_head(symbol, tail) + " {\n    return offsetof("@ + symbol + ","@
                            + fields.last().name@ + ")+tail*sizeof("@,
                    ),
                    c_typed(aliases, fields.last().typed),
                ),
                Ok(");\n}\n"@),
            )
        }
    } else {
        Ok(c_sizeof_head(symbol, tail) + " {\n    return sizeof("@ + symbol + ");\n}\n"@)
    }
}

/// One label of an enum: the enum's symbol, `_`, the label, and the explicit
/// value where one was given.
pub open spec fn c_label(symbol: Seq<char>, label: (String, Option<u64>)) -> Seq<char> {
    "    "@ + symbol + "_"@ + label.0@ + (match label.1 {
        Some(v) => " = "@ + decimal(v as nat),
        None => Seq::empty(),
    }) + ",\n"@
}

pub open spec fn c_labels(symbol: Seq<char>, names: Seq<(String, Option<u64>)>, n: nat) -> Seq<char>
    decreases n,
{
    if n == 0 || n > names.len() {
        Seq::empty()
    } else {
        c_labels(symbol, names, (n - 1) as nat) + c_label(symbol, names[n - 1])
    }
}

/// An enum in C.
pub open spec fn c_enum(symbol: Seq<char>, names: Seq<(String, Option<u64>)>) -> Seq<char> {
    "typedef enum {\n"@ + c_labels(symbol, names, names.len()) + "} "@ + symbol + ";\n"@
}

/// One argument: its type and its name.
pub open spec fn c_arg(aliases: Seq<(Name, String)>, arg: NamedArg) -> Result<Seq<char>, EmitError> {
    concat_ok(c_typed(aliases, arg.typed), Ok(" "@ + arg.name@))
}

pub open spec fn c_args(aliases: Seq<(Name, String)>, args: Seq<NamedArg>, n: nat) -> Result<
    Seq<char>,
    EmitError,
>
    decreases n,
{
    if n == 0 || n > args.len() {
        Ok(Seq::empty())
    } else {
        concat_ok(
            concat_ok(c_args(aliases, args, (n - 1) as nat), Ok(comma(n))),
            c_arg(aliases, args[n - 1]),
        )
    }
}

proof fn lemma_args_error(aliases: Seq<(Name, String)>, args: Seq<NamedArg>, k: nat, n: nat)
    requires
        k <= n <= args.len(),
    ensures
        c_args(aliases, args, k) is Err ==> c_args(aliases, args, n) == c_args(aliases, args, k),
    decreases n,
{
    if k < n {
        lemma_args_error(aliases, args, k, (n - 1) as nat);
    }
}

/// The return type of a function: `void` where it returns nothing.
pub open spec fn c_ret(aliases: Seq<(Name, String)>, ret: Option<AnonArg>) -> Result<
    Seq<char>,
    EmitError,
> {
    match ret {
        Some(a) => c_typed(aliases, a.typed),
        None => Ok("void"@),
    }
}

/// The head of a function: return type, symbol, and the arguments, `void`
/// where there are none, with `...` after them for a variadic function.
pub open spec fn c_head(
    aliases: Seq<(Name, String)>,
    symbol: Seq<char>,
    ret: Option<AnonArg>,
    args: Seq<NamedArg>,
    vararg: bool,
) -> Result<Seq<char>, EmitError> {
    concat_ok(
        concat_ok(
            concat_ok(c_ret(aliases, ret), Ok(" "@ + symbol + "("@)),
            if args.len() == 0 {
                Ok("void"@)
            } else {
                c_args(aliases, args, args.len())
            },
        ),
        Ok(
            (if vararg {
                ", ...)"@
            } else {
                ")"@
            }),
        ),
    )
}

/// The visibility that a definition has in the emitted files: a function
/// called `main` is the program's entry point and is exported whatever keyword
/// it was written with; any other definition keeps its own.
pub open spec fn c_visibility(name: Seq<char>, l: Local) -> Visibility {
    if l.def is Function && is_main(name) {
        Visibility::Export
    } else {
        l.vis
    }
}

/// What stands before the definition of a function of this visibility.
pub open spec fn c_linkage(vis: Visibility) -> Seq<char> {
    match vis {
        Visibility::Object => "static "@,
        Visibility::Shared => "static inline "@,
        Visibility::Export => Seq::empty(),
    }
}

/// A closure type: a context pointer and a function pointer that takes the
/// arguments and then the context.
pub open spec fn c_closure(
    aliases: Seq<(Name, String)>,
    symbol: Seq<char>,
    ret: Option<AnonArg>,
    args: Seq<NamedArg>,
) -> Result<Seq<char>, EmitError> {
    concat_ok(
        concat_ok(
            concat_ok(
                concat_ok(Ok("typedef struct {\n    void* ctx;\n    "@), c_ret(aliases, ret)),
                Ok(" (*f)("@),
            ),
            c_args(aliases, args, args.len()),
        ),
        Ok(comma((args.len() + 1) as nat) + "void* ctx);\n} "@ + symbol + ";\n"@),
    )
}

/// What stands before a static variable of this storage class.
pub open spec fn c_storage(storage: Storage) -> Seq<char> {
    match storage {
        Storage::Static => "static "@,
        Storage::ThreadLocal => "static _Thread_local "@,
        Storage::Atomic => "static _Atomic "@,
    }
}

/// Whether a definition is left out of a file altogether. Macros are, and
/// forward declarations of anything but structs and unions. A definition that
/// is private, by [`c_visibility`], is left out of every file of another
/// module, and as a whole out of its own module's header. A header holds no
/// static variables.
pub open spec fn c_left_out(header: bool, own: bool, name: Seq<char>, l: Local, complete: TypeComplete) -> bool {
    l.def is Macro || (complete == TypeComplete::Incomplete && !(l.def is Struct)) || (c_visibility(
        name,
        l,
    ) == Visibility::Object && (!own || (header && complete == TypeComplete::Complete))) || (header
        && l.def is Static)
}

/// What a definition contributes to a header (`header`) or to an
/// implementation file; nothing where it is left out, see [`c_left_out`].
///
/// A forward declaration is written for structs and unions only. A header
/// holds what is not private to the object file, so the prototype of `main`
/// always: layouts with the prototypes of their size queries, enums,
/// constants, closures and the prototypes of functions. An implementation
/// file holds layouts with their size queries, enums, constants, closures,
/// statics, and functions: with their bodies where they are the module's own
/// (`own`) or shared, which every file that uses them has to hold whole; as
/// prototypes where they are exported by another module.
pub open spec fn c_entry(
    header: bool,
    own: bool,
    aliases: Seq<(Name, String)>,
    name: Seq<char>,
    l: Local,
    complete: TypeComplete,
) -> Result<Seq<char>, EmitError> {
    if c_left_out(header, own, name, l, complete) {
        Ok(Seq::empty())
    } else {
        match c_symbol(name, l) {
            Err(e) => Err(e),
            Ok(symbol) => if complete == TypeComplete::Incomplete {
                Ok(c_forward(symbol, l.def->union))
            } else {
                match l.def {
                    Def::Struct { fields, packed, tail, union } => concat_ok(
                        c_struct(aliases, symbol, fields@, packed, union),
                        if header {
                            Ok(c_sizeof_head(symbol, tail) + ";\n"@)
                        } else {
                            c_sizeof(aliases, symbol, fields@, tail)
                        },
                    ),
                    Def::Enum { names } => Ok(c_enum(symbol, names@)),
                    Def::Const { typed, expr } => concat_ok(
                        concat_ok(
                            concat_ok(
                                concat_ok(Ok("#define "@ + symbol + " (("@), c_typed(aliases, typed)),
                                Ok(")"@),
                            ),
                            c_expr(aliases, expr),
                        ),
                        Ok(")\n"@),
                    ),
                    Def::Closure { ret, args, .. } => c_closure(aliases, symbol, ret, args@),
                    Def::Static { typed, expr, storage, .. } => concat_ok(
                        concat_ok(
                            concat_ok(
                                concat_ok(Ok(c_storage(storage)), c_typed(aliases, typed)),
                                Ok(" "@ + symbol + " = "@),
                            ),
                            c_expr(aliases, expr),
                        ),
                        Ok(";\n"@),
                    ),
                    Def::Function { ret, args, body, vararg } => if header || (!own && c_visibility(
                        name,
                        l,
                    ) != Visibility::Shared) {
                        concat_ok(
                            concat_ok(Ok("extern "@), c_head(aliases, symbol, ret, args@, vararg)),
                            Ok(";\n"@),
                        )
                    } else {
                        concat_ok(
                            concat_ok(
                                concat_ok(
                                    concat_ok(
                                        Ok(c_linkage(c_visibility(name, l))),
                                        c_head(aliases, symbol, ret, args@, vararg),
                                    ),
                                    Ok(" {\n"@),
                                ),
                                c_stmts(aliases, body.statements@, body.statements@.len()),
                            ),
                            Ok("}\n"@),
                        )
                    },
                    Def::Macro { .. } => Ok(Seq::empty()),
                }
            },
        }
    }
}

/// The implementation file gives a struct with a dynamic tail, unless it is
/// private to another module, its layout and then a size query that takes the number of tail elements and returns the
/// offset of the tail field plus that number times the size of one element.
pub proof fn lemma_size_query_of_a_dynamic_tail(
    own: bool,
    aliases: Seq<(Name, String)>,
    name: Seq<char>,
    l: Local,
)
    requires
        own || l.vis != Visibility::Object,
        l.def is Struct,
        l.def->tail == Tail::Dynamic,
        l.def->fields@.len() > 0,
        c_symbol(name, l) is Ok,
        c_struct(aliases, c_symbol(name, l)->Ok_0, l.def->fields@, l.def->packed, l.def->union) is Ok,
        c_typed(aliases, l.def->fields@.last().typed) is Ok,
    ensures
        c_entry(false, own, aliases, name, l, TypeComplete::Complete) == Ok::<Seq<char>, EmitError>(
            c_struct(
                aliases,
                c_symbol(name, l)->Ok_0,
                l.def->fields@,
                l.def->packed,
                l.def->union,
            )->Ok_0 + ("size_t sizeof_"@ + c_symbol(name, l)->Ok_0 + "(size_t tail)"@
                + " {\n    return offsetof("@ + c_symbol(name, l)->Ok_0 + ","@
                + l.def->fields@.last().name@ + ")+tail*sizeof("@ + c_typed(
                aliases,
                l.def->fields@.last().typed,
            )->Ok_0 + ");\n}\n"@),
        ),
{
}

/// A header holds the whole of no definition that is private to its module:
/// such a definition, unless it is the program's entry point, contributes
/// nothing to a header.
pub proof fn lemma_private_stays_out_of_headers(
    own: bool,
    aliases: Seq<(Name, String)>,
    name: Seq<char>,
    l: Local,
)
    requires
        l.vis == Visibility::Object,
        !(l.def is Function && is_main(name)),
    ensures
        c_entry(true, own, aliases, name, l, TypeComplete::Complete) == Ok::<Seq<char>, EmitError>(
            Seq::empty(),
        ),
{
}

/// Whether an entry is a definition of the module itself.
pub open spec fn is_own(m: Module, f: Flat) -> bool {
    split_path(f.name@).drop_last() == m.name@
}

/// Whether entry `k` of a flattened module is a definition that is private to
/// another module: it is not the module's own, has `Object` visibility, and is
/// no function called `main`.
pub open spec fn private_elsewhere(m: Module, k: int) -> bool {
    0 <= k < m.d@.len() && !is_own(m, m.d@[k]) && m.d@[k].local.vis == Visibility::Object && !(
    m.d@[k].local.def is Function && is_main(m.d@[k].name@))
}

/// What the first `n` entries of a flattened module contribute to a file.
pub open spec fn c_entries(header: bool, m: Module, n: nat) -> Result<Seq<char>, EmitError>
    decreases n,
{
    if n == 0 || n > m.d@.len() {
        Ok(Seq::empty())
    } else {
        concat_ok(
            c_entries(header, m, (n - 1) as nat),
            c_entry(
                header,
                is_own(m, m.d@[n - 1]),
                m.aliases@,
                m.d@[n - 1].name@,
                *m.d@[n - 1].local,
                m.d@[n - 1].complete,
            ),
        )
    }
}

proof fn lemma_entries_error(header: bool, m: Module, k: nat, n: nat)
    requires
        k <= n <= m.d@.len(),
    ensures
        c_entries(header, m, k) is Err ==> c_entries(header, m, n) == c_entries(header, m, k),
    decreases n,
{
    if k < n {
        lemma_entries_error(header, m, k, (n - 1) as nat);
    }
}

/// What a module's files hold of the entries, where the entries for which
/// `skip` holds are passed over.
pub open spec fn c_entries_but(header: bool, m: Module, skip: spec_fn(int) -> bool, n: nat) -> Result<
    Seq<char>,
    EmitError,
>
    decreases n,
{
    if n == 0 || n > m.d@.len() {
        Ok(Seq::empty())
    } else if skip(n - 1) {
        c_entries_but(header, m, skip, (n - 1) as nat)
    } else {
        concat_ok(
            c_entries_but(header, m, skip, (n - 1) as nat),
            c_entry(
                header,
                is_own(m, m.d@[n - 1]),
                m.aliases@,
                m.d@[n - 1].name@,
                *m.d@[n - 1].local,
                m.d@[n - 1].complete,
            ),
        )
    }
}

/// Neither file of a module holds anything of a definition that is private to
/// another module: in the header and in the implementation file alike, such
/// an entry contributes nothing, as a whole or as a forward declaration, and
/// what the file holds of its entries is what it holds of the others alone.
pub proof fn lemma_private_to_another_module_is_written_nowhere(header: bool, m: Module, n: nat)
    requires
        n <= m.d@.len(),
    ensures
        forall|k: int|
            private_elsewhere(m, k) ==> c_entry(
                header,
                is_own(m, m.d@[k]),
                m.aliases@,
                m.d@[k].name@,
                *m.d@[k].local,
                (#[trigger] m.d@[k]).complete,
            ) == Ok::<Seq<char>, EmitError>(Seq::empty()),
        c_entries(header, m, n) == c_entries_but(header, m, |k: int| private_elsewhere(m, k), n),
    decreases n,
{
    if n > 0 {
        lemma_private_to_another_module_is_written_nowhere(header, m, (n - 1) as nat);
        let before = c_entries(header, m, (n - 1) as nat);
        if private_elsewhere(m, n - 1) {
            assert(m.d@[n - 1].complete == m.d@[n - 1].complete);
            if before is Ok {
                assert(before->Ok_0 + Seq::<char>::empty() =~= before->Ok_0);
            }
        }
    }
}

/// The segments of a module's name after the root, joined by `_`.
pub open spec fn module_symbol(name: Seq<Seq<char>>) -> Seq<char> {
    if name.len() >= 1 {
        join(name.subrange(1, name.len() as int), "_"@)
    } else {
        Seq::empty()
    }
}

/// The line that makes one alias stand for the C identifier of the name it
/// is an alias of; nothing for the bare root, which has no identifier.
pub open spec fn c_alias(alias: (Name, String)) -> Seq<char> {
    match local_name_text(Seq::empty(), alias.0@) {
        Some(s) => "#define "@ + alias.1@ + " "@ + s + "\n"@,
        None => Seq::empty(),
    }
}

/// The lines for the first `n` aliases of a module.
pub open spec fn c_aliases(aliases: Seq<(Name, String)>, n: nat) -> Seq<char>
    decreases n,
{
    if n == 0 || n > aliases.len() {
        Seq::empty()
    } else {
        c_aliases(aliases, (n - 1) as nat) + c_alias(aliases[n - 1])
    }
}

/// The standard headers that every emitted file needs.
pub open spec fn c_prelude() -> Seq<char> {
    "#include <stddef.h>\n#include <stdint.h>\n#include <stdbool.h>\n"@
}

/// The whole text of a header, inside its guard, or of an implementation
/// file: the standard headers, the aliases, and the definitions.
pub open spec fn c_file(header: bool, m: Module) -> Result<Seq<char>, EmitError> {
    if header {
        concat_ok(
            concat_ok(
                Ok(
                    "#ifndef ZZ_"@ + module_symbol(m.name@) + "_H\n#define ZZ_"@ + module_symbol(
                        m.name@,
                    ) + "_H\n"@ + c_prelude() + c_aliases(m.aliases@, m.aliases@.len()),
                ),
                c_entries(header, m, m.d@.len()),
            ),
            Ok("#endif\n"@),
        )
    } else {
        concat_ok(
            Ok(c_prelude() + c_aliases(m.aliases@, m.aliases@.len())),
            c_entries(header, m, m.d@.len()),
        )
    }
}

proof fn lemma_same_entries(
    modules: Seq<crate::loader::Module>,
    module: usize,
    one: Module,
    other: Module,
    header: bool,
    n: nat,
)
    requires
        crate::flatten::flattened(modules, module, one),
        crate::flatten::flattened(modules, module, other),
        n <= one.d@.len(),
    ensures
        c_entries(header, one, n) == c_entries(header, other, n),
    decreases n,
{
    crate::flatten::lemma_one_flattening(modules, module, one, other);
    if n > 0 {
        lemma_same_entries(modules, module, one, other, header, (n - 1) as nat);
        assert(one.d@[n - 1].name@ == other.d@[n - 1].name@);
        assert(*one.d@[n - 1].local == *other.d@[n - 1].local);
        assert(one.d@[n - 1].complete == other.d@[n - 1].complete);
    }
}

/// A module has one header and one implementation file only: whatever two
/// flattenings of the module at one position of one module set are handed to
/// the emitter, the texts are the same, character by character. Nothing in
/// them depends on the order in which a table is walked or work is handed
/// out.
pub proof fn lemma_one_text(
    modules: Seq<crate::loader::Module>,
    module: usize,
    one: Module,
    other: Module,
    header: bool,
)
    requires
        crate::flatten::flattened(modules, module, one),
        crate::flatten::flattened(modules, module, other),
    ensures
        c_file(header, one) == c_file(header, other),
{
    crate::flatten::lemma_one_flattening(modules, module, one, other);
    lemma_same_entries(modules, module, one, other, header, one.d@.len());
}

fn field_source(aliases: &Vec<(Name, String)>, f: &Field, is_last: bool) -> (r: Result<
    String,
    EmitError,
>)
    ensures
        text_of(r) == c_field(aliases@, *f, is_last),
{
    let mut out = String::from_str("    ");
    match typed_source(aliases, &f.typed) {
        Err(e) => {
            return Err(e);
        },
        Ok(s) => {
            out.append(s.as_str());
        },
    }
    let mut n = String::from_str(" ");
    n.append(f.name.as_str());
    out.append(n.as_str());
    match &f.array {
        Array::Sized(e) => {
            let mut a = String::from_str("[");
            match expr_source(aliases, e) {
                Err(e) => {
                    return Err(e);
                },
                Ok(s) => {
                    a.append(s.as_str());
                },
            }
            a.append("];\n");
            out.append(a.as_str());
        },
        Array::Unsized => {
            if !is_last {
                return Err(EmitError::TailNotLast(f.loc.clone()));
            }
            out.append("[];\n");
        },
        Array::Absent => {
            out.append(";\n");
        },
    }
    Ok(out)
}

fn kind_str(is_union: bool) -> (s: &'static str)
    ensures
        s@ == c_kind(is_union),
{
    if is_union {
        "union "
    } else {
        "struct "
    }
}

fn forward_source(symbol: &str, is_union: bool) -> (out: String)
    ensures
        out@ == c_forward(symbol@, is_union),
{
    let mut out = String::from_str(kind_str(is_union));
    out.append(symbol);
    out.append(";\ntypedef ");
    out.append(kind_str(is_union));
    out.append(symbol);
    out.append(" ");
    out.append(symbol);
    out.append(";\n");
    out
}

fn struct_source(
    aliases: &Vec<(Name, String)>,
    symbol: &str,
    fields: &Vec<Field>,
    packed: bool,
    is_union: bool,
) -> (r: Result<String, EmitError>)
    ensures
        text_of(r) == c_struct(aliases@, symbol@, fields@, packed, is_union),
{
    let mut body = String::new();
    let mut i: usize = 0;
    while i < fields.len()
        invariant
            i <= fields.len(),
            c_fields(aliases@, fields@, i as nat) == Ok::<Seq<char>, EmitError>(body@),
        decreases fields.len() - i,
    {
        proof {
            lemma_fields_error(aliases@, fields@, (i + 1) as nat, fields@.len());
        }
        match field_source(aliases, &fields[i], i + 1 == fields.len()) {
            Err(e) => {
                return Err(e);
            },
            Ok(s) => {
                body.append(s.as_str());
            },
        }
        i = i + 1;
    }
    let mut out = String::from_str(kind_str(is_union));
    out.append(symbol);
    out.append(" {\n");
    out.append(body.as_str());
    out.append(
        if packed {
            "} __attribute__((__packed__));\n"
        } else {
            "};\n"
        },
    );
    Ok(out)
}

fn is_dynamic(tail: &Tail) -> (b: bool)
    ensures
        b == (*tail == Tail::Dynamic),
{
    match tail {
        Tail::Dynamic => true,
        _ => false,
    }
}

fn sizeof_head_source(symbol: &str, tail: &Tail) -> (out: String)
    ensures
        out@ == c_sizeof_head(symbol@, *tail),
{
    let mut out = String::from_str("size_t sizeof_");
    out.append(symbol);
    out.append(
        if is_dynamic(tail) {
            "(size_t tail)"
        } else {
            "(void)"
        },
    );
    out
}

fn sizeof_source(aliases: &Vec<(Name, String)>, symbol: &str, fields: &Vec<Field>, tail: &Tail) -> (r:
    Result<String, EmitError>)
    ensures
        text_of(r) == c_sizeof(aliases@, symbol@, fields@, *tail),
{
    let mut out = sizeof_head_source(symbol, tail);
    if is_dynamic(tail) {
        if fields.len() == 0 {
            return Ok(String::new());
        }
        let last = &fields[fields.len() - 1];
        out.append(" {\n    return offsetof(");
        out.append(symbol);
        out.append(",");
        out.append(last.name.as_str());
        out.append(")+tail*sizeof(");
        match typed_source(aliases, &last.typed) {
            Err(e) => {
                return Err(e);
            },
            Ok(s) => {
                out.append(s.as_str());
            },
        }
        out.append(");\n}\n");
        Ok(out)
    } else {
        out.append(" {\n    return sizeof(");
        out.append(symbol);
        out.append(");\n}\n");
        Ok(out)
    }
}

fn enum_source(symbol: &str, names: &Vec<(String, Option<u64>)>) -> (out: String)
    ensures
        out@ == c_enum(symbol@, names@),
{
    let mut body = String::new();
    let mut i: usize = 0;
    while i < names.len()
        invariant
            i <= names.len(),
            body@ == c_labels(symbol@, names@, i as nat),
        decreases names.len() - i,
    {
        let mut item = String::from_str("    ");
        item.append(symbol);
        item.append("_");
        item.append(names[i].0.as_str());
        let mut value = String::new();
        match names[i].1 {
            Some(v) => {
                value.append(" = ");
                push_decimal(&mut value, v);
                proof {
                    assert(value@ =~= " = "@ + decimal(v as nat));
                }
            },
            None => {},
        }
        item.append(value.as_str());
        item.append(",\n");
        body.append(item.as_str());
        i = i + 1;
    }
    let mut out = String::from_str("typedef enum {\n");
    out.append(body.as_str());
    out.append("} ");
    out.append(symbol);
    out.append(";\n");
    out
}

fn args_source(aliases: &Vec<(Name, String)>, args: &Vec<NamedArg>) -> (r: Result<String, EmitError>)
    ensures
        text_of(r) == c_args(aliases@, args@, args@.len()),
{
    let mut out = String::new();
    let mut i: usize = 0;
    while i < args.len()
        invariant
            i <= args.len(),
            c_args(aliases@, args@, i as nat) == Ok::<Seq<char>, EmitError>(out@),
        decreases args.len() - i,
    {
        proof {
            lemma_args_error(aliases@, args@, (i + 1) as nat, args@.len());
        }
        out.append(separator(i));
        let mut item = match typed_source(aliases, &args[i].typed) {
            Err(e) => {
                return Err(e);
            },
            Ok(s) => s,
        };
        let mut n = String::from_str(" ");
        n.append(args[i].name.as_str());
        item.append(n.as_str());
        out.append(item.as_str());
        i = i + 1;
    }
    Ok(out)
}

fn ret_source(aliases: &Vec<(Name, String)>, ret: &Option<AnonArg>) -> (r: Result<String, EmitError>)
    ensures
        text_of(r) == c_ret(aliases@, *ret),
{
    match ret {
        Some(a) => typed_source(aliases, &a.typed),
        None => Ok(String::from_str("void")),
    }
}

fn head_source(
    aliases: &Vec<(Name, String)>,
    symbol: &str,
    ret: &Option<AnonArg>,
    args: &Vec<NamedArg>,
    vararg: bool,
) -> (r: Result<String, EmitError>)
    ensures
        text_of(r) == c_head(aliases@, symbol@, *ret, args@, vararg),
{
    let mut out = match ret_source(aliases, ret) {
        Err(e) => {
            return Err(e);
        },
        Ok(s) => s,
    };
    let mut open = String::from_str(" ");
    open.append(symbol);
    open.append("(");
    out.append(open.as_str());
    if args.len() == 0 {
        out.append("void");
    } else {
        match args_source(aliases, args) {
            Err(e) => {
                return Err(e);
            },
            Ok(s) => {
                out.append(s.as_str());
            },
        }
    }
    out.append(
        if vararg {
            ", ...)"
        } else {
            ")"
        },
    );
    Ok(out)
}

fn closure_source(
    aliases: &Vec<(Name, String)>,
    symbol: &str,
    ret: &Option<AnonArg>,
    args: &Vec<NamedArg>,
) -> (r: Result<String, EmitError>)
    ensures
        text_of(r) == c_closure(aliases@, symbol@, *ret, args@),
{
    let mut out = String::from_str("typedef struct {\n    void* ctx;\n    ");
    match ret_source(aliases, ret) {
        Err(e) => {
            return Err(e);
        },
        Ok(s) => {
            out.append(s.as_str());
        },
    }
    out.append(" (*f)(");
    match args_source(aliases, args) {
        Err(e) => {
            return Err(e);
        },
        Ok(s) => {
            out.append(s.as_str());
        },
    }
    let mut tail = String::from_str(separator(args.len()));
    tail.append("void* ctx);\n} ");
    tail.append(symbol);
    tail.append(";\n");
    out.append(tail.as_str());
    Ok(out)
}

fn linkage(vis: Visibility) -> (s: &'static str)
    ensures
        s@ == c_linkage(vis),
{
    proof {
        reveal_strlit("");
        assert(""@ =~= Seq::<char>::empty());
    }
    match vis {
        Visibility::Object => "static ",
        Visibility::Shared => "static inline ",
        Visibility::Export => "",
    }
}

fn storage_str(storage: Storage) -> (s: &'static str)
    ensures
        s@ == c_storage(storage),
{
    match storage {
        Storage::Static => "static ",
        Storage::ThreadLocal => "static _Thread_local ",
        Storage::Atomic => "static _Atomic ",
    }
}

/// The visibility that a definition has in the emitted files; see
/// [`c_visibility`].
pub fn visibility_source(name: &str, l: &Local) -> (v: Visibility)
    ensures
        v == c_visibility(name@, *l),
{
    let main = match &l.def {
        Def::Function { .. } => crate::emitter_rs::ends_with_main(name),
        _ => false,
    };
    if main {
        Visibility::Export
    } else {
        l.vis
    }
}

/// Whether an entry writes nothing at all; see [`c_left_out`].
fn is_silent(header: bool, own: bool, name: &str, l: &Local, complete: TypeComplete) -> (b: bool)
    ensures
        b == c_left_out(header, own, name@, *l, complete),
{
    let is_macro = match &l.def {
        Def::Macro { .. } => true,
        _ => false,
    };
    let is_struct = match &l.def {
        Def::Struct { .. } => true,
        _ => false,
    };
    let is_static = match &l.def {
        Def::Static { .. } => true,
        _ => false,
    };
    let private = match visibility_source(name, l) {
        Visibility::Object => true,
        _ => false,
    };
    let whole = match complete {
        TypeComplete::Complete => true,
        TypeComplete::Incomplete => false,
    };
    is_macro || (!whole && !is_struct) || (private && (!own || (header && whole))) || (header
        && is_static)
}

/// What a definition contributes to a file; see [`c_entry`].
pub fn entry_source(
    header: bool,
    own: bool,
    aliases: &Vec<(Name, String)>,
    name: &str,
    l: &Local,
    complete: TypeComplete,
) -> (r: Result<String, EmitError>)
    ensures
        text_of(r) == c_entry(header, own, aliases@, name@, *l, complete),
{
    if is_silent(header, own, name, l, complete) {
        return Ok(String::new());
    }
    let symbol = match symbol_source(name, l) {
        Err(e) => {
            return Err(e);
        },
        Ok(s) => s,
    };
    match complete {
        TypeComplete::Incomplete => {
            return match &l.def {
                Def::Struct { union, .. } => Ok(forward_source(symbol.as_str(), *union)),
                _ => Ok(String::new()),
            };
        },
        TypeComplete::Complete => {},
    }
    match &l.def {
        Def::Struct { fields, packed, tail, union } => {
            let mut out = match struct_source(aliases, symbol.as_str(), fields, *packed, *union) {
                Err(e) => {
                    return Err(e);
                },
                Ok(s) => s,
            };
            if header {
                let mut proto = sizeof_head_source(symbol.as_str(), tail);
                proto.append(";\n");
                out.append(proto.as_str());
            } else {
                match sizeof_source(aliases, symbol.as_str(), fields, tail) {
                    Err(e) => {
                        return Err(e);
                    },
                    Ok(s) => {
                        out.append(s.as_str());
                    },
                }
            }
            Ok(out)
        },
        Def::Enum { names } => Ok(enum_source(symbol.as_str(), names)),
        Def::Const { typed, expr } => {
            let mut out = String::from_str("#define ");
            out.append(symbol.as_str());
            out.append(" ((");
            match typed_source(aliases, typed) {
                Err(e) => {
                    return Err(e);
                },
                Ok(s) => {
                    out.append(s.as_str());
                },
            }
            out.append(")");
            match expr_source(aliases, expr) {
                Err(e) => {
                    return Err(e);
                },
                Ok(s) => {
                    out.append(s.as_str());
                },
            }
            out.append(")\n");
            Ok(out)
        },
        Def::Closure { ret, args, .. } => closure_source(aliases, symbol.as_str(), ret, args),
        Def::Static { typed, expr, storage, .. } => {
            let mut out = String::from_str(storage_str(*storage));
            match typed_source(aliases, typed) {
                Err(e) => {
                    return Err(e);
                },
                Ok(s) => {
                    out.append(s.as_str());
                },
            }
            let mut mid = String::from_str(" ");
            mid.append(symbol.as_str());
            mid.append(" = ");
            out.append(mid.as_str());
            match expr_source(aliases, expr) {
                Err(e) => {
                    return Err(e);
                },
                Ok(s) => {
                    out.append(s.as_str());
                },
            }
            out.append(";\n");
            Ok(out)
        },
        Def::Function { ret, args, body, vararg } => {
            let shared = match visibility_source(name, l) {
                Visibility::Shared => true,
                _ => false,
            };
            if header || (!own && !shared) {
                let mut out = String::from_str("extern ");
                match head_source(aliases, symbol.as_str(), ret, args, *vararg) {
                    Err(e) => {
                        return Err(e);
                    },
                    Ok(s) => {
                        out.append(s.as_str());
                    },
                }
                out.append(";\n");
                Ok(out)
            } else {
                let mut out = String::from_str(linkage(visibility_source(name, l)));
                match head_source(aliases, symbol.as_str(), ret, args, *vararg) {
                    Err(e) => {
                        return Err(e);
                    },
                    Ok(s) => {
                        out.append(s.as_str());
                    },
                }
                out.append(" {\n");
                match stmts_source(aliases, &body.statements) {
                    Err(e) => {
                        return Err(e);
                    },
                    Ok(s) => {
                        out.append(s.as_str());
                    },
                }
                out.append("}\n");
                Ok(out)
            }
        },
        Def::Macro { .. } => Ok(String::new()),
    }
}

fn module_symbol_source(name: &Name) -> (out: String)
    ensures
        out@ == module_symbol(name@),
{
    if name.0.len() >= 1 {
        join_from(&name.0, 1, "_")
    } else {
        String::new()
    }
}

/// The path of a module's emitted file below the target directory:
/// `<target>/<variant>/include/<module>.h` for the header,
/// `<target>/<variant>/zz/<module>.c` for the implementation.
pub open spec fn c_path(target_dir: Seq<char>, variant: Seq<char>, name: Seq<Seq<char>>, header: bool) -> Seq<
    char,
> {
    path_join(
        path_join(
            path_join(target_dir, variant),
            if header {
                "include"@
            } else {
                "zz"@
            },
        ),
        module_symbol(name) + (if header {
            ".h"@
        } else {
            ".c"@
        }),
    )
}

/// The path of a module's emitted file; see [`c_path`].
pub fn outname(target_dir: &str, variant: &str, module: &Name, header: bool) -> (path: String)
    ensures
        path@ == c_path(target_dir@, variant@, module@, header),
{
    let mut file = module_symbol_source(module);
    file.append(
        if header {
            ".h"
        } else {
            ".c"
        },
    );
    let base = join_path(target_dir, variant);
    let dir = join_path(
        base.as_str(),
        if header {
            "include"
        } else {
            "zz"
        },
    );
    join_path(dir.as_str(), file.as_str())
}

/// The modules, other than the module itself, that the first `n` entries
/// come from: each once, in the order of first appearance.
pub open spec fn owners(m: Module, n: nat) -> Seq<Seq<Seq<char>>>
    decreases n,
{
    if n == 0 || n > m.d@.len() {
        Seq::empty()
    } else {
        let before = owners(m, (n - 1) as nat);
        let owner = split_path(m.d@[n - 1].name@).drop_last();
        if owner == m.name@ || before.contains(owner) {
            before
        } else {
            before.push(owner)
        }
    }
}

/// The absolute names of the definitions that the first `n` entries hold as
/// wholes, but for those that are private to another module, of which the
/// module's files hold nothing.
pub open spec fn symbols_of(m: Module, n: nat) -> Seq<Seq<Seq<char>>>
    decreases n,
{
    if n == 0 || n > m.d@.len() {
        Seq::empty()
    } else if m.d@[n - 1].complete == TypeComplete::Complete && !private_elsewhere(m, n - 1) {
        symbols_of(m, (n - 1) as nat).push(split_path(m.d@[n - 1].name@))
    } else {
        symbols_of(m, (n - 1) as nat)
    }
}

fn holds_name(v: &Vec<Name>, n: &Name) -> (found: bool)
    ensures
        found == views(v@).contains(n@),
{
    let mut i: usize = 0;
    while i < v.len()
        invariant
            i <= v.len(),
            forall|k: int| 0 <= k < i ==> v@[k]@ != n@,
        decreases v.len() - i,
    {
        if v[i] == *n {
            proof {
                assert(views(v@)[i as int] == n@);
            }
            return true;
        }
        i = i + 1;
    }
    proof {
        assert forall|k: int| 0 <= k < views(v@).len() implies views(v@)[k] != n@ by {}
    }
    false
}

/// What the emitter reports of a module written to `filepath`: the sources it
/// was made from, the modules it depends on and the symbols it defines or
/// declares.
pub fn describe(m: &Module, filepath: String) -> (cf: CFile)
    ensures
        cf.name@ == m.name@,
        cf.filepath == filepath,
        strs(cf.sources@) == strs(m.sources@),
        views(cf.deps@) == owners(*m, m.d@.len()),
        views(cf.symbols@) == symbols_of(*m, m.d@.len()),
        cf.cflags@.len() == 0,
        cf.lflags@.len() == 0,
{
    let mut deps: Vec<Name> = Vec::new();
    let mut symbols: Vec<Name> = Vec::new();
    let mut i: usize = 0;
    proof {
        assert(views(deps@) =~= owners(*m, 0));
        assert(views(symbols@) =~= symbols_of(*m, 0));
    }
    while i < m.d.len()
        invariant
            i <= m.d.len(),
            views(deps@) == owners(*m, i as nat),
            views(symbols@) == symbols_of(*m, i as nat),
        decreases m.d.len() - i,
    {
        let full = Name::parse(m.d[i].name.as_str());
        let mut owner = full.clone();
        proof {
            crate::text::lemma_split_nonempty(m.d@[i as int].name@);
        }
        owner.pop();
        let ghost d0 = views(deps@);
        let ghost s0 = views(symbols@);
        let is_mine = owner == m.name;
        proof {
            assert(is_mine == is_own(*m, m.d@[i as int]));
        }
        if !is_mine && !holds_name(&deps, &owner) {
            deps.push(owner);
            proof {
                assert(views(deps@) =~= d0.push(owner@));
            }
        }
        let whole = match m.d[i].complete {
            TypeComplete::Complete => true,
            TypeComplete::Incomplete => false,
        };
        let private = match m.d[i].local.vis {
            Visibility::Object => true,
            _ => false,
        };
        let entry = match &m.d[i].local.def {
            Def::Function { .. } => crate::emitter_rs::ends_with_main(m.d[i].name.as_str()),
            _ => false,
        };
        if whole && !(!is_mine && private && !entry) {
            symbols.push(full);
            proof {
                assert(views(symbols@) =~= s0.push(full@));
            }
        }
        i = i + 1;
    }
    CFile {
        name: m.name.clone(),
        filepath,
        sources: copy_strings(&m.sources),
        deps,
        symbols,
        cflags: Vec::new(),
        lflags: Vec::new(),
    }
}

fn aliases_source(aliases: &Vec<(Name, String)>) -> (out: String)
    ensures
        out@ == c_aliases(aliases@, aliases@.len()),
{
    let none: Vec<(Name, String)> = Vec::new();
    let mut out = String::new();
    let mut i: usize = 0;
    while i < aliases.len()
        invariant
            i <= aliases.len(),
            none@.len() == 0,
            out@ == c_aliases(aliases@, i as nat),
        decreases aliases.len() - i,
    {
        proof {
            assert(none@ =~= Seq::<(Name, String)>::empty());
        }
        match to_local_name(&none, &aliases[i].0) {
            Some(s) => {
                let mut line = String::from_str("#define ");
                line.append(aliases[i].1.as_str());
                line.append(" ");
                line.append(s.as_str());
                line.append("\n");
                out.append(line.as_str());
            },
            None => {
                proof {
                    assert(out@ + Seq::<char>::empty() =~= out@);
                }
            },
        }
        i = i + 1;
    }
    out
}

/// The emitter of one module's header or implementation file.
pub struct Emitter<'a> {
    pub p: String,
    pub module: Module<'a>,
    pub header: bool,
}

impl<'a> Emitter<'a> {
    /// An emitter for the header (`header`) or the implementation file of
    /// `module`.
    pub fn new(target_dir: &str, variant: &str, module: Module<'a>, header: bool) -> (em: Emitter<'a>)
        ensures
            em.p@ == c_path(target_dir@, variant@, module.name@, header),
            em.module == module,
            em.header == header,
    {
        let p = outname(target_dir, variant, &module.name, header);
        Emitter { p, module, header }
    }

    /// The text of the file, and what to record of it; see [`c_file`] and
    /// [`describe`]. The record holds no compile or link flags: those are the
    /// build configuration's to add.
    pub fn emit(self) -> (r: Result<(String, CFile), EmitError>)
        ensures
            (match r {
                Ok(p) => Ok(p.0@),
                Err(e) => Err(e),
            }) == c_file(self.header, self.module),
            r matches Ok(p) ==> p.1.name@ == self.module.name@ && p.1.filepath@ == self.p@ && strs(
                p.1.sources@,
            ) == strs(self.module.sources@) && views(p.1.deps@) == owners(
                self.module,
                self.module.d@.len(),
            ) && views(p.1.symbols@) == symbols_of(self.module, self.module.d@.len()),
            r matches Ok(p) ==> p.1.cflags@.len() == 0 && p.1.lflags@.len() == 0,
    {
        let m = &self.module;
        let mut body = String::new();
        let mut i: usize = 0;
        while i < m.d.len()
            invariant
                i <= m.d.len(),
                m == &self.module,
                c_entries(self.header, *m, i as nat) == Ok::<Seq<char>, EmitError>(body@),
            decreases m.d.len() - i,
        {
            proof {
                lemma_entries_error(self.header, *m, (i + 1) as nat, m.d@.len());
            }
            let mut owner = Name::parse(m.d[i].name.as_str());
            proof {
                crate::text::lemma_split_nonempty(m.d@[i as int].name@);
            }
            owner.pop();
            let own = owner == m.name;
            match entry_source(
                self.header,
                own,
                m.aliases,
                m.d[i].name.as_str(),
                m.d[i].local,
                m.d[i].complete,
            ) {
                Err(e) => {
                    return Err(e);
                },
                Ok(s) => {
                    body.append(s.as_str());
                },
            }
            i = i + 1;
        }
        let defines = aliases_source(m.aliases);
        let text = if self.header {
            let symbol = module_symbol_source(&m.name);
            let mut out = String::from_str("#ifndef ZZ_");
            out.append(symbol.as_str());
            out.append("_H\n#define ZZ_");
            out.append(symbol.as_str());
            out.append("_H\n");
            out.append("#include <stddef.h>\n#include <stdint.h>\n#include <stdbool.h>\n");
            out.append(defines.as_str());
            out.append(body.as_str());
            out.append("#endif\n");
            out
        } else {
            let mut out = String::from_str(
                "#include <stddef.h>\n#include <stdint.h>\n#include <stdbool.h>\n",
            );
            out.append(defines.as_str());
            out.append(body.as_str());
            out
        };
        let cf = describe(m, self.p.clone());
        Ok((text, cf))
    }
}

/// The table of symbols of an artifact: one line for each name, as people
/// write it, between the braces of an array that ends in a null.
pub open spec fn c_symbol_lines(symbols: Seq<Name>, n: nat) -> Seq<char>
    decreases n,
{
    if n == 0 || n > symbols.len() {
        Seq::empty()
    } else {
        c_symbol_lines(symbols, (n - 1) as nat) + ("    \""@ + crate::name::human_form(
            symbols[n - 1]@,
        ) + "\",\n"@)
    }
}

/// The text of the translation unit that lists the symbols of an artifact.
pub open spec fn c_builtin(symbols: Seq<Name>) -> Seq<char> {
    "const char * const __zz_symbol_names[] = {\n"@ + c_symbol_lines(symbols, symbols.len())
        + "    0\n};\n"@
}

/// The translation unit that lists the symbols that an artifact refers to,
/// and what to record of it.
pub fn builtin(target_dir: &str, variant: &str, artifact: &str, symbols: &Vec<Name>) -> (r: (
    String,
    CFile,
))
    ensures
        r.0@ == c_builtin(symbols@),
        r.1.filepath@ == path_join(
            path_join(path_join(target_dir@, variant@), "zz"@),
            artifact@ + "_builtin.c"@,
        ),
        r.1.name@ == seq![Seq::<char>::empty(), artifact@, "builtin"@],
        r.1.deps@.len() == 0,
        r.1.sources@.len() == 0,
        r.1.symbols@.len() == 0,
{
    let mut lines = String::new();
    let mut i: usize = 0;
    while i < symbols.len()
        invariant
            i <= symbols.len(),
            lines@ == c_symbol_lines(symbols@, i as nat),
        decreases symbols.len() - i,
    {
        let mut line = String::from_str("    \"");
        line.append(symbols[i].human_name().as_str());
        line.append("\",\n");
        lines.append(line.as_str());
        i = i + 1;
    }
    let mut text = String::from_str("const char * const __zz_symbol_names[] = {\n");
    text.append(lines.as_str());
    text.append("    0\n};\n");
    let mut file = String::from_str(artifact);
    file.append("_builtin.c");
    let base = join_path(target_dir, variant);
    let dir = join_path(base.as_str(), "zz");
    let filepath = join_path(dir.as_str(), file.as_str());
    let mut segs: Vec<String> = Vec::new();
    segs.push(String::new());
    segs.push(String::from_str(artifact));
    segs.push(String::from_str("builtin"));
    let name = Name(segs);
    proof {
        assert(name@ =~= seq![Seq::<char>::empty(), artifact@, "builtin"@]);
    }
    (
        text,
        CFile {
            name,
            filepath,
            sources: Vec::new(),
            deps: Vec::new(),
            symbols: Vec::new(),
            cflags: Vec::new(),
            lflags: Vec::new(),
        },
    )
}

} // verus!
