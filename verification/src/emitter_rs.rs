//! The binding emitter: for one flattened module, the text of a Rust source
//! file that declares the module's C symbols and wraps its structs.

use vstd::prelude::*;
use vstd::string::*;
use crate::assoc::str_eq;
use crate::ast::{
    AnonArg, Array, Def, Expression, Field, InfixOperator, Local, Location, NamedArg, Pointer,
    PostfixOperator, PrefixOperator, Tail, Type, Typed,
};
use crate::ast::is_placeholder;
use crate::flatten::{Flat, Module, TypeComplete};
use crate::name::Name;
use crate::text::{decimal, join, join_from, push_char, push_decimal, split_path, split_segments, strs};
use crate::name::is_absolute_name;

verus! {

/// Why a module could not be emitted. Each is an internal error: an earlier
/// stage should have rejected the input.
#[derive(Debug, PartialEq)]
pub enum EmitError {
    /// A placeholder type reached the emitter.
    Untyped(Location),
    /// A macro call-site was not expanded.
    MacroCall(Location),
    /// An unsized array field is not the last field of its struct.
    TailNotLast(Location),
    /// A name is too short for the place it stands in.
    Malformed(Location),
}

/// The text inside a result.
pub open spec fn text_of(r: Result<String, EmitError>) -> Result<Seq<char>, EmitError> {
    match r {
        Ok(s) => Ok(s@),
        Err(e) => Err(e),
    }
}

/// The optional text inside a result.
pub open spec fn optional_text_of(r: Result<Option<String>, EmitError>) -> Result<
    Option<Seq<char>>,
    EmitError,
> {
    match r {
        Ok(Some(s)) => Ok(Some(s@)),
        Ok(None) => Ok(None),
        Err(e) => Err(e),
    }
}

/// `a` followed by `b`; the first failure where either failed.
pub open spec fn concat_ok(
    a: Result<Seq<char>, EmitError>,
    b: Result<Seq<char>, EmitError>,
) -> Result<Seq<char>, EmitError> {
    match a {
        Err(e) => Err(e),
        Ok(x) => match b {
            Err(e) => Err(e),
            Ok(y) => Ok(x + y),
        },
    }
}

/// The Rust spelling of a primitive kind; `None` for the kinds that have none.
pub open spec fn primitive_text(t: Type) -> Option<Seq<char>> {
    match t {
        Type::U8 => Some("u8"@),
        Type::U16 => Some("u16"@),
        Type::U32 => Some("u32"@),
        Type::U64 => Some("u64"@),
        Type::U128 => Some("u128"@),
        Type::I8 => Some("i8"@),
        Type::I16 => Some("i16"@),
        Type::I32 => Some("i32"@),
        Type::I64 => Some("i64"@),
        Type::I128 => Some("i128"@),
        Type::Int => Some("std::os::raw::c_int"@),
        Type::UInt => Some("std::os::raw::c_uint"@),
        Type::ISize => Some("isize"@),
        Type::USize => Some("usize"@),
        Type::Bool => Some("bool"@),
        Type::F32 => Some("f32"@),
        Type::F64 => Some("f64"@),
        Type::Char => Some("u8"@),
        Type::Void => Some("std::ffi::c_void"@),
        _ => None,
    }
}

/// The Rust path of a user-defined type `n` of another module:
/// `super::<module segments joined by _>::<last segment>`.
pub open spec fn sibling_path(n: Seq<Seq<char>>) -> Seq<char>
    recommends
        n.len() >= 2,
{
    "super::"@ + join(n.subrange(1, n.len() - 1), "_"@) + "::"@ + n.last()
}

/// How a type reference is written in the binding file.
///
/// `Ok(None)` stands for a type that the binding language cannot name; what
/// refers to it is left out of the file.
pub open spec fn typed_name_text(typed: Typed) -> Result<Option<Seq<char>>, EmitError> {
    let n = typed.name@;
    if is_placeholder(typed.t) {
        Err(EmitError::Untyped(typed.loc))
    } else if typed.t != Type::Other {
        Ok(primitive_text(typed.t))
    } else if typed.ptr@.len() == 1 {
        Ok(Some("u8"@))
    } else if n.len() < 2 {
        Err(EmitError::Malformed(typed.loc))
    } else if n[1] == "ext"@ {
        if n.len() < 4 {
            Err(EmitError::Malformed(typed.loc))
        } else if n[3] == "char"@ {
            Ok(Some("u8"@))
        } else {
            Ok(None)
        }
    } else {
        Ok(Some(sibling_path(n)))
    }
}

/// The text of a stack of pointer layers: `*mut ` for a layer tagged `mut`,
/// `*const ` for any other, outermost first.
pub open spec fn pointer_text(ptr: Seq<Pointer>) -> Seq<char>
    decreases ptr.len(),
{
    if ptr.len() == 0 {
        Seq::empty()
    } else {
        pointer_text(ptr.drop_last()) + (if ptr.last().tags@.contains_key("mut"@) {
            "*mut "@
        } else {
            "*const "@
        })
    }
}

/// The hexadecimal digit of a value below sixteen, in lower case.
pub open spec fn hex_digit(d: nat) -> char {
    if d == 0 {
        '0'
    } else if d == 1 {
        '1'
    } else if d == 2 {
        '2'
    } else if d == 3 {
        '3'
    } else if d == 4 {
        '4'
    } else if d == 5 {
        '5'
    } else if d == 6 {
        '6'
    } else if d == 7 {
        '7'
    } else if d == 8 {
        '8'
    } else if d == 9 {
        '9'
    } else if d == 10 {
        'a'
    } else if d == 11 {
        'b'
    } else if d == 12 {
        'c'
    } else if d == 13 {
        'd'
    } else if d == 14 {
        'e'
    } else {
        'f'
    }
}

/// A byte in hexadecimal, without leading zero.
pub open spec fn hex_text(c: u8) -> Seq<char> {
    if c < 16 {
        seq![hex_digit(c as nat)]
    } else {
        seq![hex_digit((c / 16) as nat), hex_digit((c % 16) as nat)]
    }
}

/// Whether a byte is written as itself: printable ASCII.
pub open spec fn is_plain(c: u8) -> bool {
    32 <= c < 127
}

/// How one byte of a string literal (`in_string`) or of a character literal is
/// written. The quote of the literal and the backslash get their backslash
/// form; other printable ASCII stands for itself; every other byte, control
/// bytes among them, becomes a hexadecimal escape, which in a string is fenced
/// by `""` on each side so that a following digit is not read into it.
pub open spec fn escaped_text(c: u8, in_string: bool) -> Seq<char> {
    if c == 34 && in_string {
        seq!['\\', '"']
    } else if c == 39 && !in_string {
        seq!['\\', '\'']
    } else if c == 92 {
        seq!['\\', '\\']
    } else if is_plain(c) {
        seq![c as char]
    } else if in_string {
        seq!['"', '"', '\\', 'x'] + hex_text(c) + seq!['"', '"']
    } else {
        seq!['\\', 'x'] + hex_text(c)
    }
}

/// The bytes of a string literal, each escaped.
pub open spec fn escaped_bytes_text(v: Seq<u8>) -> Seq<char>
    decreases v.len(),
{
    if v.len() == 0 {
        Seq::empty()
    } else {
        escaped_bytes_text(v.drop_last()) + escaped_text(v.last(), true)
    }
}

fn hex(d: u8) -> (c: char)
    requires
        d < 16,
    ensures
        c == hex_digit(d as nat),
{
    if d == 0 {
        '0'
    } else if d == 1 {
        '1'
    } else if d == 2 {
        '2'
    } else if d == 3 {
        '3'
    } else if d == 4 {
        '4'
    } else if d == 5 {
        '5'
    } else if d == 6 {
        '6'
    } else if d == 7 {
        '7'
    } else if d == 8 {
        '8'
    } else if d == 9 {
        '9'
    } else if d == 10 {
        'a'
    } else if d == 11 {
        'b'
    } else if d == 12 {
        'c'
    } else if d == 13 {
        'd'
    } else if d == 14 {
        'e'
    } else {
        'f'
    }
}

fn push_hex(out: &mut String, c: u8)
    ensures
        final(out)@ == old(out)@ + hex_text(c),
{
    if c >= 16 {
        push_char(out, hex(c / 16));
        push_char(out, hex(c % 16));
    } else {
        push_char(out, hex(c));
    }
    proof {
        assert(out@ =~= old(out)@ + hex_text(c));
    }
}

/// Appends one byte of a literal in its escaped form.
pub fn write_escaped_literal(out: &mut String, c: u8, isstr: bool)
    ensures
        final(out)@ == old(out)@ + escaped_text(c, isstr),
{
    if c == 34 && isstr {
        push_char(out, '\\');
        push_char(out, '"');
    } else if c == 39 && !isstr {
        push_char(out, '\\');
        push_char(out, '\'');
    } else if c == 92 {
        push_char(out, '\\');
        push_char(out, '\\');
    } else if 32 <= c && c < 127 {
        push_char(out, c as char);
    } else if isstr {
        push_char(out, '"');
        push_char(out, '"');
        push_char(out, '\\');
        push_char(out, 'x');
        push_hex(out, c);
        push_char(out, '"');
        push_char(out, '"');
    } else {
        push_char(out, '\\');
        push_char(out, 'x');
        push_hex(out, c);
    }
    proof {
        assert(out@ =~= old(out)@ + escaped_text(c, isstr));
    }
}

/// Appends the text of a stack of pointer layers.
pub fn emit_pointer(out: &mut String, v: &Vec<Pointer>)
    ensures
        final(out)@ == old(out)@ + pointer_text(v@),
{
    let mut i: usize = 0;
    proof {
        assert(out@ =~= old(out)@ + pointer_text(v@.subrange(0, 0)));
    }
    while i < v.len()
        invariant
            i <= v.len(),
            out@ == old(out)@ + pointer_text(v@.subrange(0, i as int)),
        decreases v.len() - i,
    {
        let ghost before = out@;
        if v[i].tags.contains_key("mut") {
            out.append("*mut ");
        } else {
            out.append("*const ");
        }
        proof {
            let head = v@.subrange(0, i + 1);
            assert(head.drop_last() == v@.subrange(0, i as int));
            assert(head.last() == v@[i as int]);
            assert(out@ =~= old(out)@ + pointer_text(head));
        }
        i = i + 1;
    }
    proof {
        assert(v@.subrange(0, i as int) == v@);
    }
}

/// How a type reference is written in the binding file; see
/// [`typed_name_text`].
pub fn to_local_typed_name(name: &Typed) -> (r: Result<Option<String>, EmitError>)
    ensures
        optional_text_of(r) == typed_name_text(*name),
{
    let text = match name.t {
        Type::U8 => "u8",
        Type::U16 => "u16",
        Type::U32 => "u32",
        Type::U64 => "u64",
        Type::U128 => "u128",
        Type::I8 => "i8",
        Type::I16 => "i16",
        Type::I32 => "i32",
        Type::I64 => "i64",
        Type::I128 => "i128",
        Type::Int => "std::os::raw::c_int",
        Type::UInt => "std::os::raw::c_uint",
        Type::ISize => "isize",
        Type::USize => "usize",
        Type::Bool => "bool",
        Type::F32 => "f32",
        Type::F64 => "f64",
        Type::Char => "u8",
        Type::Void => "std::ffi::c_void",
        Type::Other => {
            let n = &name.name;
            if name.ptr.len() == 1 {
                "u8"
            } else if n.0.len() < 2 {
                return Err(EmitError::Malformed(name.loc.clone()));
            } else if str_eq(n.0[1].as_str(), "ext") {
                if n.0.len() < 4 {
                    return Err(EmitError::Malformed(name.loc.clone()));
                } else if str_eq(n.0[3].as_str(), "char") {
                    "u8"
                } else {
                    return Ok(None);
                }
            } else {
                let mut path = String::from_str("super::");
                let middle = join_between(&n.0, 1, n.0.len() - 1, "_");
                path.append(middle.as_str());
                path.append("::");
                path.append(n.0[n.0.len() - 1].as_str());
                proof {
                    assert(n@.last() == n.0@[n.0.len() - 1]@);
                }
                return Ok(Some(path));
            }
        },
        Type::ILiteral | Type::ULiteral | Type::Elided | Type::New | Type::Typeid => {
            return Err(EmitError::Untyped(name.loc.clone()));
        },
    };
    Ok(Some(String::from_str(text)))
}

/// The strings of `parts` from index `from` up to `to`, joined by `sep`.
pub fn join_between(parts: &Vec<String>, from: usize, to: usize, sep: &str) -> (out: String)
    requires
        from <= to <= parts.len(),
    ensures
        out@ == join(strs(parts@).subrange(from as int, to as int), sep@),
{
    let mut out = String::new();
    let mut i: usize = from;
    while i < to
        invariant
            from <= i <= to <= parts.len(),
            out@ == join(strs(parts@).subrange(from as int, i as int), sep@),
        decreases to - i,
    {
        proof {
            let all = strs(parts@);
            let next = all.subrange(from as int, i + 1);
            assert(next.drop_last() == all.subrange(from as int, i as int));
            assert(next.last() == parts@[i as int]@);
            if i == from {
                assert(Seq::<char>::empty() + parts@[i as int]@ == parts@[i as int]@);
            }
        }
        if i > from {
            out.append(sep);
        }
        out.append(parts[i].as_str());
        i = i + 1;
    }
    out
}

pub open spec fn prefix_text(op: PrefixOperator) -> Seq<char> {
    match op {
        PrefixOperator::Boolnot => "!"@,
        PrefixOperator::Bitnot => "~"@,
        PrefixOperator::Increment => "++"@,
        PrefixOperator::Decrement => "--"@,
        PrefixOperator::AddressOf => "&"@,
        PrefixOperator::Deref => "*"@,
    }
}

pub open spec fn postfix_text(op: PostfixOperator) -> Seq<char> {
    match op {
        PostfixOperator::Increment => "++"@,
        PostfixOperator::Decrement => "--"@,
    }
}

pub open spec fn infix_text(op: InfixOperator) -> Seq<char> {
    match op {
        InfixOperator::Equals => "=="@,
        InfixOperator::Nequals => "!="@,
        InfixOperator::Add => "+"@,
        InfixOperator::Subtract => "-"@,
        InfixOperator::Multiply => "*"@,
        InfixOperator::Divide => "/"@,
        InfixOperator::Bitxor => "^"@,
        InfixOperator::Booland => "&&"@,
        InfixOperator::Boolor => "||"@,
        InfixOperator::Moreeq => ">="@,
        InfixOperator::Lesseq => "<="@,
        InfixOperator::Lessthan => "<"@,
        InfixOperator::Morethan => ">"@,
        InfixOperator::Shiftleft => "<<"@,
        InfixOperator::Shiftright => ">>"@,
        InfixOperator::Modulo => "%"@,
        InfixOperator::Bitand => "&"@,
        InfixOperator::Bitor => "|"@,
    }
}

/// A name in expression position: its type spelling after four spaces, `()`
/// where it has none.
pub open spec fn name_text(name: Typed) -> Result<Seq<char>, EmitError> {
    match typed_name_text(name) {
        Err(e) => Err(e),
        Ok(None) => Ok("    "@ + "()"@),
        Ok(Some(s)) => Ok("    "@ + s),
    }
}

/// The text of an expression. A macro call-site that is still there is an
/// error; struct and array initialisers and casts leave no text.
pub open spec fn expr_text(e: Expression) -> Result<Seq<char>, EmitError>
    decreases e, 0nat,
{
    match e {
        Expression::Name(name) => name_text(name),
        Expression::MemberAccess { lhs, op, rhs, .. } => concat_ok(
            expr_text(*lhs),
            Ok(" "@ + op@ + rhs@),
        ),
        Expression::ArrayAccess { lhs, rhs, .. } => concat_ok(
            concat_ok(concat_ok(expr_text(*lhs), Ok(" [ "@)), expr_text(*rhs)),
            Ok("]"@),
        ),
        Expression::Literal { v, .. } => Ok("    "@ + v@),
        Expression::LiteralString { v, .. } => Ok("    \""@ + escaped_bytes_text(v@) + "\""@),
        Expression::LiteralChar { v, .. } => Ok("    '"@ + escaped_text(v, false) + "'"@),
        Expression::Call { name, args, .. } => concat_ok(
            concat_ok(concat_ok(name_text(name), Ok("("@)), args_text(args@, args@.len())),
            Ok("    )"@),
        ),
        Expression::InfixOperation { lhs, rhs, .. } => concat_ok(
            concat_ok(concat_ok(Ok("("@), expr_text(*lhs)), chain_text(rhs@, rhs@.len())),
            Ok("  )"@),
        ),
        Expression::Cast { .. } => Ok(Seq::empty()),
        Expression::UnaryPost { op, expr, .. } => concat_ok(
            concat_ok(Ok("("@), expr_text(*expr)),
            Ok(" "@ + postfix_text(op) + ")"@),
        ),
        Expression::UnaryPre { op, expr, .. } => concat_ok(
            concat_ok(Ok("("@ + " "@ + prefix_text(op)), expr_text(*expr)),
            Ok(")"@),
        ),
        Expression::StructInit { .. } => Ok(Seq::empty()),
        Expression::ArrayInit { .. } => Ok(Seq::empty()),
        Expression::MacroCall { loc, .. } => Err(EmitError::MacroCall(loc)),
    }
}

/// The first `n` arguments of a call, separated by commas.
pub open spec fn args_text(args: Seq<Box<Expression>>, n: nat) -> Result<Seq<char>, EmitError>
    decreases args, n,
{
    if n == 0 || n > args.len() {
        Ok(Seq::empty())
    } else {
        concat_ok(
            concat_ok(
                args_text(args, (n - 1) as nat),
                Ok(
                    if n == 1 {
                        Seq::empty()
                    } else {
                        ","@
                    },
                ),
            ),
            expr_text(*args[n - 1]),
        )
    }
}

/// The first `n` links of an operator chain, each as its operator after a
/// space, then its operand.
pub open spec fn chain_text(
    chain: Seq<((InfixOperator, Location), Box<Expression>)>,
    n: nat,
) -> Result<Seq<char>, EmitError>
    decreases chain, n,
{
    if n == 0 || n > chain.len() {
        Ok(Seq::empty())
    } else {
        concat_ok(
            concat_ok(chain_text(chain, (n - 1) as nat), Ok(" "@ + infix_text(chain[n - 1].0.0))),
            expr_text(*chain[n - 1].1),
        )
    }
}

pub fn prefix_str(op: PrefixOperator) -> (s: &'static str)
    ensures
        s@ == prefix_text(op),
{
    match op {
        PrefixOperator::Boolnot => "!",
        PrefixOperator::Bitnot => "~",
        PrefixOperator::Increment => "++",
        PrefixOperator::Decrement => "--",
        PrefixOperator::AddressOf => "&",
        PrefixOperator::Deref => "*",
    }
}

pub fn postfix_str(op: PostfixOperator) -> (s: &'static str)
    ensures
        s@ == postfix_text(op),
{
    match op {
        PostfixOperator::Increment => "++",
        PostfixOperator::Decrement => "--",
    }
}

pub fn infix_str(op: InfixOperator) -> (s: &'static str)
    ensures
        s@ == infix_text(op),
{
    match op {
        InfixOperator::Equals => "==",
        InfixOperator::Nequals => "!=",
        InfixOperator::Add => "+",
        InfixOperator::Subtract => "-",
        InfixOperator::Multiply => "*",
        InfixOperator::Divide => "/",
        InfixOperator::Bitxor => "^",
        InfixOperator::Booland => "&&",
        InfixOperator::Boolor => "||",
        InfixOperator::Moreeq => ">=",
        InfixOperator::Lesseq => "<=",
        InfixOperator::Lessthan => "<",
        InfixOperator::Morethan => ">",
        InfixOperator::Shiftleft => "<<",
        InfixOperator::Shiftright => ">>",
        InfixOperator::Modulo => "%",
        InfixOperator::Bitand => "&",
        InfixOperator::Bitor => "|",
    }
}

fn emit_name(name: &Typed) -> (r: Result<String, EmitError>)
    ensures
        text_of(r) == name_text(*name),
{
    let mut out = String::from_str("    ");
    match to_local_typed_name(name) {
        Err(e) => Err(e),
        Ok(None) => {
            out.append("()");
            Ok(out)
        },
        Ok(Some(s)) => {
            out.append(s.as_str());
            Ok(out)
        },
    }
}

fn emit_args(args: &Vec<Box<Expression>>) -> (r: Result<String, EmitError>)
    ensures
        text_of(r) == args_text(args@, args@.len()),
    decreases args, 0nat,
{
    let mut out = String::new();
    let mut i: usize = 0;
    while i < args.len()
        invariant
            i <= args.len(),
            args_text(args@, i as nat) == Ok::<Seq<char>, EmitError>(out@),
        decreases args.len() - i,
    {
        if i > 0 {
            out.append(",");
        }
        proof {
            if i == 0 {
                assert(out@ + Seq::<char>::empty() == out@);
            }
        }
        match emit_expr(&*args[i]) {
            Err(e) => {
                proof {
                    lemma_args_error(args@, (i + 1) as nat, args@.len());
                }
                return Err(e);
            },
            Ok(s) => {
                out.append(s.as_str());
            },
        }
        i = i + 1;
    }
    Ok(out)
}

fn emit_chain(chain: &Vec<((InfixOperator, Location), Box<Expression>)>) -> (r: Result<
    String,
    EmitError,
>)
    ensures
        text_of(r) == chain_text(chain@, chain@.len()),
    decreases chain, 0nat,
{
    let mut out = String::new();
    let mut i: usize = 0;
    while i < chain.len()
        invariant
            i <= chain.len(),
            chain_text(chain@, i as nat) == Ok::<Seq<char>, EmitError>(out@),
        decreases chain.len() - i,
    {
        let ghost before = out@;
        out.append(" ");
        out.append(infix_str(chain[i].0.0));
        proof {
            assert(out@ =~= before + (" "@ + infix_text(chain@[i as int].0.0)));
        }
        match emit_expr(&*chain[i].1) {
            Err(e) => {
                proof {
                    lemma_chain_error(chain@, (i + 1) as nat, chain@.len());
                }
                return Err(e);
            },
            Ok(s) => {
                out.append(s.as_str());
            },
        }
        i = i + 1;
    }
    Ok(out)
}

/// A failure among the first `k` arguments is the failure of any longer
/// prefix.
proof fn lemma_args_error(args: Seq<Box<Expression>>, k: nat, n: nat)
    requires
        k <= n <= args.len(),
        args_text(args, k) is Err,
    ensures
        args_text(args, n) == args_text(args, k),
    decreases n,
{
    if k < n {
        lemma_args_error(args, k, (n - 1) as nat);
    }
}

proof fn lemma_chain_error(
    chain: Seq<((InfixOperator, Location), Box<Expression>)>,
    k: nat,
    n: nat,
)
    requires
        k <= n <= chain.len(),
        chain_text(chain, k) is Err,
    ensures
        chain_text(chain, n) == chain_text(chain, k),
    decreases n,
{
    if k < n {
        lemma_chain_error(chain, k, (n - 1) as nat);
    }
}

/// The text of an expression; see [`expr_text`].
pub fn emit_expr(v: &Expression) -> (r: Result<String, EmitError>)
    ensures
        text_of(r) == expr_text(*v),
    decreases v, 1nat,
{
    match v {
        Expression::MacroCall { loc, .. } => Err(EmitError::MacroCall(loc.clone())),
        Expression::ArrayInit { .. } => Ok(String::new()),
        Expression::StructInit { .. } => Ok(String::new()),
        Expression::Cast { .. } => Ok(String::new()),
        Expression::UnaryPost { expr, op, .. } => {
            let mut out = String::from_str("(");
            match emit_expr(&**expr) {
                Err(e) => {
                    return Err(e);
                },
                Ok(s) => {
                    out.append(s.as_str());
                },
            }
            let ghost before = out@;
            out.append(" ");
            out.append(postfix_str(*op));
            out.append(")");
            proof {
                assert(out@ =~= before + (" "@ + postfix_text(*op) + ")"@));
            }
            Ok(out)
        },
        Expression::UnaryPre { expr, op, .. } => {
            let mut out = String::from_str("(");
            out.append(" ");
            out.append(prefix_str(*op));
            match emit_expr(&**expr) {
                Err(e) => {
                    return Err(e);
                },
                Ok(s) => {
                    out.append(s.as_str());
                },
            }
            out.append(")");
            Ok(out)
        },
        Expression::Name(name) => emit_name(name),
        Expression::LiteralString { v, .. } => {
            let mut body = String::new();
            let mut i: usize = 0;
            proof {
                assert(v@.subrange(0, 0) =~= Seq::<u8>::empty());
            }
            while i < v.len()
                invariant
                    i <= v.len(),
                    body@ == escaped_bytes_text(v@.subrange(0, i as int)),
                decreases v.len() - i,
            {
                proof {
                    let head = v@.subrange(0, i + 1);
                    assert(head.drop_last() == v@.subrange(0, i as int));
                    assert(head.last() == v@[i as int]);
                }
                write_escaped_literal(&mut body, v[i], true);
                i = i + 1;
            }
            proof {
                assert(v@.subrange(0, i as int) == v@);
            }
            let mut out = String::from_str("    \"");
            out.append(body.as_str());
            out.append("\"");
            Ok(out)
        },
        Expression::LiteralChar { v, .. } => {
            let mut out = String::from_str("    '");
            write_escaped_literal(&mut out, *v, false);
            out.append("'");
            Ok(out)
        },
        Expression::Literal { v, .. } => {
            let mut out = String::from_str("    ");
            out.append(v.as_str());
            Ok(out)
        },
        Expression::Call { name, args, .. } => {
            let mut out = match emit_name(name) {
                Err(e) => {
                    return Err(e);
                },
                Ok(s) => s,
            };
            out.append("(");
            match emit_args(args) {
                Err(e) => {
                    return Err(e);
                },
                Ok(s) => {
                    out.append(s.as_str());
                },
            }
            out.append("    )");
            Ok(out)
        },
        Expression::InfixOperation { lhs, rhs, .. } => {
            let mut out = String::from_str("(");
            match emit_expr(&**lhs) {
                Err(e) => {
                    return Err(e);
                },
                Ok(s) => {
                    out.append(s.as_str());
                },
            }
            match emit_chain(rhs) {
                Err(e) => {
                    return Err(e);
                },
                Ok(s) => {
                    out.append(s.as_str());
                },
            }
            out.append("  )");
            Ok(out)
        },
        Expression::MemberAccess { lhs, rhs, op, .. } => {
            let mut out = match emit_expr(&**lhs) {
                Err(e) => {
                    return Err(e);
                },
                Ok(s) => s,
            };
            let ghost before = out@;
            out.append(" ");
            out.append(op.as_str());
            out.append(rhs.as_str());
            proof {
                assert(out@ =~= before + (" "@ + op@ + rhs@));
            }
            Ok(out)
        },
        Expression::ArrayAccess { lhs, rhs, .. } => {
            let mut out = match emit_expr(&**lhs) {
                Err(e) => {
                    return Err(e);
                },
                Ok(s) => s,
            };
            out.append(" [ ");
            match emit_expr(&**rhs) {
                Err(e) => {
                    return Err(e);
                },
                Ok(s) => {
                    out.append(s.as_str());
                },
            }
            out.append("]");
            Ok(out)
        },
    }
}

/// The alias that `aliases` records for the name `n`, searching from entry
/// `from` on: that of the first entry with this name.
pub open spec fn alias_from(aliases: Seq<(Name, String)>, n: Seq<Seq<char>>, from: int) -> Option<
    Seq<char>,
>
    decreases aliases.len() - from,
{
    if from < 0 || from >= aliases.len() {
        None
    } else if aliases[from].0@ == n {
        Some(aliases[from].1@)
    } else {
        alias_from(aliases, n, from + 1)
    }
}

/// The C identifier of a name. A relative name is its segments joined by `_`.
/// An absolute one is its alias where the module records one; else its last
/// segment where it lies under `::ext`; else its segments after the root,
/// joined by `_`. The bare root has none.
pub open spec fn local_name_text(aliases: Seq<(Name, String)>, s: Seq<Seq<char>>) -> Option<
    Seq<char>,
> {
    if !is_absolute_name(s) {
        Some(join(s, "_"@))
    } else if alias_from(aliases, s, 0) is Some {
        alias_from(aliases, s, 0)
    } else if s.len() < 2 {
        None
    } else if s[1] == "ext"@ {
        Some(s.last())
    } else {
        Some(join(s.subrange(1, s.len() as int), "_"@))
    }
}

/// The last segment of a definition's name.
pub open spec fn short_name(name: Seq<char>) -> Seq<char> {
    split_path(name).last()
}

/// The C identifier of a definition, or the error for a name that has none.
pub open spec fn symbol_text(aliases: Seq<(Name, String)>, name: Seq<char>, loc: Location) -> Result<
    Seq<char>,
    EmitError,
> {
    match local_name_text(aliases, split_path(name)) {
        Some(s) => Ok(s),
        None => Err(EmitError::Malformed(loc)),
    }
}

/// One argument in a parameter list, with the separator before it; nothing
/// for an argument whose type has no spelling. `shown` says whether an earlier
/// argument was written.
pub open spec fn arg_text(arg: NamedArg, shown: bool) -> Result<Seq<char>, EmitError> {
    match typed_name_text(arg.typed) {
        Err(e) => Err(e),
        Ok(None) => Ok(Seq::empty()),
        Ok(Some(t)) => Ok(
            (if shown {
                ", "@
            } else {
                Seq::empty()
            }) + " Z"@ + arg.name@ + ": "@ + pointer_text(arg.typed.ptr@) + t,
        ),
    }
}

/// Whether one of the first `n` arguments has a type with a spelling.
pub open spec fn any_shown(args: Seq<NamedArg>, n: nat) -> bool
    decreases n,
{
    if n == 0 || n > args.len() {
        false
    } else {
        any_shown(args, (n - 1) as nat) || typed_name_text(args[n - 1].typed) matches Ok(Some(_))
    }
}

/// The first `n` arguments of a parameter list.
pub open spec fn function_args_text(args: Seq<NamedArg>, n: nat) -> Result<Seq<char>, EmitError>
    decreases n,
{
    if n == 0 || n > args.len() {
        Ok(Seq::empty())
    } else {
        concat_ok(
            function_args_text(args, (n - 1) as nat),
            arg_text(args[n - 1], any_shown(args, (n - 1) as nat)),
        )
    }
}

proof fn lemma_function_args_error(args: Seq<NamedArg>, k: nat, n: nat)
    requires
        k <= n <= args.len(),
        function_args_text(args, k) is Err,
    ensures
        function_args_text(args, n) == function_args_text(args, k),
    decreases n,
{
    if k < n {
        lemma_function_args_error(args, k, (n - 1) as nat);
    }
}

/// The comment that stands where the declaration of `name` is left out because
/// the binding file cannot write it.
pub open spec fn left_out_text(name: Seq<char>) -> Seq<char> {
    "// "@ + short_name(name) + ": left out, it cannot be represented here\n"@
}

/// The text of a constant: `pub const NAME : TYPE = VALUE;`. For a constant
/// whose type has no spelling, or whose value is not a number or a character
/// literal, a comment stands in its place. A character is written as a
/// character literal, escaped as in an expression.
pub open spec fn const_text(name: Seq<char>, typed: Typed, expr: Expression) -> Result<
    Seq<char>,
    EmitError,
> {
    match typed_name_text(typed) {
        Err(e) => Err(e),
        Ok(None) => Ok(left_out_text(name)),
        Ok(Some(t)) => match expr {
            Expression::LiteralChar { v, .. } => Ok(
                "pub const "@ + short_name(name) + " : "@ + pointer_text(typed.ptr@) + t + " = "@
                    + ("'"@ + escaped_text(v, false) + "'"@) + ";\n"@,
            ),
            Expression::Literal { v, .. } => Ok(
                "pub const "@ + short_name(name) + " : "@ + pointer_text(typed.ptr@) + t + " = "@
                    + v@ + ";\n"@,
            ),
            _ => Ok(left_out_text(name)),
        },
    }
}

/// One variant of an enum: the enum's C identifier, `_`, the label, and the
/// explicit value where one was given.
pub open spec fn variant_text(symbol: Seq<char>, variant: (String, Option<u64>)) -> Seq<char> {
    "    "@ + symbol + "_"@ + variant.0@ + (match variant.1 {
        Some(l) => " = "@ + decimal(l as nat),
        None => Seq::empty(),
    }) + ",\n"@
}

pub open spec fn variants_text(symbol: Seq<char>, names: Seq<(String, Option<u64>)>, n: nat) -> Seq<
    char,
>
    decreases n,
{
    if n == 0 || n > names.len() {
        Seq::empty()
    } else {
        variants_text(symbol, names, (n - 1) as nat) + variant_text(symbol, names[n - 1])
    }
}

/// The text of an enum: a `repr(C)` enum under the short name, its variants
/// prefixed by the C identifier.
pub open spec fn enum_text(
    aliases: Seq<(Name, String)>,
    name: Seq<char>,
    loc: Location,
    names: Seq<(String, Option<u64>)>,
) -> Result<Seq<char>, EmitError> {
    match symbol_text(aliases, name, loc) {
        Err(e) => Err(e),
        Ok(symbol) => Ok(
            "#[derive(Copy,Clone, PartialEq)]\n"@ + "#[repr(C)]\n"@ + "pub enum "@ + short_name(name)
                + " {\n"@ + variants_text(symbol, names, names.len()) + "\n}\n\n"@,
        ),
    }
}

/// Whether a struct's size is a constant: it has no tail, or the tail is bound
/// to a fixed count.
pub open spec fn fixed_size(tail: Tail, tail_variant: Option<u64>) -> bool {
    tail == Tail::Absent || tail_variant is Some
}

/// The declaration of a struct's size query: `sizeof_NAME()` for a struct of
/// constant size, `sizeof_NAME(tail)` for one with a dynamic tail, linked to
/// the C symbol.
pub open spec fn struct_len_text(
    aliases: Seq<(Name, String)>,
    name: Seq<char>,
    loc: Location,
    tail: Tail,
    tail_variant: Option<u64>,
) -> Result<Seq<char>, EmitError> {
    match symbol_text(aliases, name, loc) {
        Err(e) => Err(e),
        Ok(symbol) => Ok(
            "    #[link_name = \"sizeof_"@ + symbol + "\"]\n"@ + "    pub fn sizeof_"@ + short_name(
                name,
            ) + (if fixed_size(tail, tail_variant) {
                "() -> libc::size_t;\n"@
            } else {
                "(tail: libc::size_t) -> libc::size_t;\n"@
            }),
        ),
    }
}

/// What follows the parameter list of a closure's function pointer.
pub open spec fn closure_ret_text(ret: Option<AnonArg>) -> Result<Seq<char>, EmitError> {
    match ret {
        None => Ok("),\n"@),
        Some(a) => match typed_name_text(a.typed) {
            Err(e) => Err(e),
            Ok(None) => Err(EmitError::Malformed(a.typed.loc)),
            Ok(Some(t)) => Ok(") -> "@ + t + ",\n"@ + pointer_text(a.typed.ptr@)),
        },
    }
}

/// The text of a closure type: a `repr(C)` struct of a context pointer and a
/// function pointer that takes the arguments and then the context.
pub open spec fn closure_text(name: Seq<char>, ret: Option<AnonArg>, args: Seq<NamedArg>) -> Result<
    Seq<char>,
    EmitError,
> {
    concat_ok(
        concat_ok(
            concat_ok(
                Ok(
                    "#[derive(Copy,Clone)]\n#[repr(C)]\npub struct "@ + short_name(name)
                        + " {\n    pub ctx: *mut std::ffi::c_void,\n"@ + "    pub f: extern fn ("@,
                ),
                function_args_text(args, args.len()),
            ),
            Ok(
                (if args.len() > 0 {
                    ", "@
                } else {
                    Seq::empty()
                }) + "ctx: *mut std::ffi::c_void"@,
            ),
        ),
        concat_ok(closure_ret_text(ret), Ok("}\n"@)),
    )
}

/// The return clause of a function declaration.
pub open spec fn decl_ret_text(ret: Option<AnonArg>) -> Seq<char> {
    match ret {
        Some(a) => match typed_name_text(a.typed) {
            Ok(Some(t)) => "  -> "@ + pointer_text(a.typed.ptr@) + t,
            _ => Seq::empty(),
        },
        None => Seq::empty(),
    }
}

/// The declaration of a function, linked to its C symbol. For a function
/// whose return type has no spelling, a comment stands in its place.
pub open spec fn decl_text(
    aliases: Seq<(Name, String)>,
    name: Seq<char>,
    loc: Location,
    ret: Option<AnonArg>,
    args: Seq<NamedArg>,
) -> Result<Seq<char>, EmitError> {
    if ret is Some && typed_name_text(ret->0.typed) is Err {
        Err(typed_name_text(ret->0.typed)->Err_0)
    } else if ret is Some && typed_name_text(ret->0.typed) == Ok::<Option<Seq<char>>, EmitError>(
        None,
    ) {
        Ok("    "@ + left_out_text(name))
    } else {
        match symbol_text(aliases, name, loc) {
            Err(e) => Err(e),
            Ok(symbol) => concat_ok(
                concat_ok(
                    Ok(
                        "    #[link_name = \""@ + symbol + "\"]\n"@ + "    pub fn r#"@ + short_name(
                            name,
                        ) + "("@,
                    ),
                    function_args_text(args, args.len()),
                ),
                Ok(")"@ + decl_ret_text(ret) + ";\n"@),
            ),
        }
    }
}

/// The C identifier of a name under the given aliases; see
/// [`local_name_text`].
pub fn to_local_name(aliases: &Vec<(Name, String)>, s: &Name) -> (r: Option<String>)
    ensures
        r is Some <==> local_name_text(aliases@, s@) is Some,
        r matches Some(t) ==> local_name_text(aliases@, s@) == Some(t@),
{
    proof {
        assert(s@.subrange(0, s@.len() as int) == s@);
    }
    if !s.is_absolute() {
        return Some(join_from(&s.0, 0, "_"));
    }
    let mut i: usize = 0;
    while i < aliases.len()
        invariant
            i <= aliases.len(),
            is_absolute_name(s@),
            alias_from(aliases@, s@, 0) == alias_from(aliases@, s@, i as int),
        decreases aliases.len() - i,
    {
        if aliases[i].0 == *s {
            proof {
                assert(alias_from(aliases@, s@, i as int) == Some(aliases@[i as int].1@));
            }
            return Some(aliases[i].1.clone());
        }
        i = i + 1;
    }
    if s.0.len() < 2 {
        None
    } else if str_eq(s.0[1].as_str(), "ext") {
        Some(s.0[s.0.len() - 1].clone())
    } else {
        Some(join_from(&s.0, 1, "_"))
    }
}

/// The short name and the C identifier of a definition.
fn names_of(aliases: &Vec<(Name, String)>, name: &str, loc: &Location) -> (r: Result<
    (String, String),
    EmitError,
>)
    ensures
        r is Err <==> symbol_text(aliases@, name@, *loc) is Err,
        r matches Err(e) ==> symbol_text(aliases@, name@, *loc) == Err::<Seq<char>, EmitError>(e),
        r matches Ok(p) ==> p.0@ == short_name(name@) && symbol_text(aliases@, name@, *loc) == Ok::<
            Seq<char>,
            EmitError,
        >(p.1@),
{
    let full = Name::parse(name);
    match to_local_name(aliases, &full) {
        None => Err(EmitError::Malformed(loc.clone())),
        Some(symbol) => Ok((short_of(name), symbol)),
    }
}

/// The comment that stands where the declaration of `name` is left out.
fn left_out(name: &str) -> (r: String)
    ensures
        r@ == left_out_text(name@),
{
    let mut out = String::from_str("// ");
    out.append(short_of(name).as_str());
    out.append(": left out, it cannot be represented here\n");
    out
}

/// The last segment of a definition's name.
fn short_of(name: &str) -> (r: String)
    ensures
        r@ == short_name(name@),
{
    let mut full = Name::parse(name);
    proof {
        crate::text::lemma_split_nonempty(name@);
    }
    match full.pop() {
        Some(s) => s,
        None => String::new(),
    }
}

/// The parameter list of a function or closure.
pub fn function_args(args: &Vec<NamedArg>) -> (r: Result<String, EmitError>)
    ensures
        text_of(r) == function_args_text(args@, args@.len()),
{
    let mut out = String::new();
    let mut first = true;
    let mut i: usize = 0;
    while i < args.len()
        invariant
            i <= args.len(),
            function_args_text(args@, i as nat) == Ok::<Seq<char>, EmitError>(out@),
            first == !any_shown(args@, i as nat),
        decreases args.len() - i,
    {
        let arg = &args[i];
        match to_local_typed_name(&arg.typed) {
            Err(e) => {
                proof {
                    lemma_function_args_error(args@, (i + 1) as nat, args@.len());
                }
                return Err(e);
            },
            Ok(None) => {
                proof {
                    assert(out@ + Seq::<char>::empty() == out@);
                }
            },
            Ok(Some(argtype)) => {
                let mut item = if first {
                    String::new()
                } else {
                    String::from_str(", ")
                };
                first = false;
                item.append(" Z");
                item.append(arg.name.as_str());
                item.append(": ");
                emit_pointer(&mut item, &arg.typed.ptr);
                item.append(argtype.as_str());
                out.append(item.as_str());
            },
        }
        i = i + 1;
    }
    Ok(out)
}

/// Whether each of the first `n` fields has a type with a spelling. The first
/// field without one decides: a placeholder is an error, a type that cannot be
/// named gives `false`.
pub open spec fn typable(fields: Seq<Field>, n: nat) -> Result<bool, EmitError>
    decreases n,
{
    if n == 0 || n > fields.len() {
        Ok(true)
    } else {
        match typable(fields, (n - 1) as nat) {
            Err(e) => Err(e),
            Ok(false) => Ok(false),
            Ok(true) => match typed_name_text(fields[n - 1].typed) {
                Err(e) => Err(e),
                Ok(None) => Ok(false),
                Ok(Some(_)) => Ok(true),
            },
        }
    }
}

/// The number of fields that must have a spelling for the struct to be
/// written: all but the last.
pub open spec fn leading(fields: Seq<Field>) -> nat {
    if fields.len() > 1 {
        (fields.len() - 1) as nat
    } else {
        0
    }
}

/// One field of a struct layout. A field whose type cannot be named, and an
/// unsized tail without a bound, are written as a comment; an unsized array
/// that is not the last field is an error.
pub open spec fn field_text(field: Field, is_last: bool, tail_variant: Option<u64>) -> Result<
    Seq<char>,
    EmitError,
> {
    match typed_name_text(field.typed) {
        Err(e) => Err(e),
        Ok(None) => Ok("    // "@ + field.name@ + "\n"@),
        Ok(Some(t)) => match field.array {
            Array::Sized(expr) => concat_ok(
                concat_ok(
                    Ok(
                        "    pub "@ + field.name@ + " : ["@ + pointer_text(field.typed.ptr@) + t
                            + ";"@,
                    ),
                    expr_text(expr),
                ),
                Ok("]"@ + " ,\n"@),
            ),
            Array::Unsized => if !is_last {
                Err(EmitError::TailNotLast(field.loc))
            } else {
                match tail_variant {
                    Some(tt) => Ok(
                        "    pub "@ + field.name@ + " : ["@ + pointer_text(field.typed.ptr@) + t
                            + ";"@ + decimal(tt as nat) + "]"@ + " ,\n"@,
                    ),
                    None => Ok("    // "@ + field.name@ + " ,\n"@),
                }
            },
            Array::Absent => Ok(
                "    pub "@ + field.name@ + " :"@ + pointer_text(field.typed.ptr@) + t + " ,\n"@,
            ),
        },
    }
}

/// The first `n` fields of a struct layout.
pub open spec fn fields_text(fields: Seq<Field>, n: nat, tail_variant: Option<u64>) -> Result<
    Seq<char>,
    EmitError,
>
    decreases n,
{
    if n == 0 || n > fields.len() {
        Ok(Seq::empty())
    } else {
        concat_ok(
            fields_text(fields, (n - 1) as nat, tail_variant),
            field_text(fields[n - 1], n == fields.len(), tail_variant),
        )
    }
}

proof fn lemma_fields_error(fields: Seq<Field>, k: nat, n: nat, tail_variant: Option<u64>)
    requires
        k <= n <= fields.len(),
        fields_text(fields, k, tail_variant) is Err,
    ensures
        fields_text(fields, n, tail_variant) == fields_text(fields, k, tail_variant),
    decreases n,
{
    if k < n {
        lemma_fields_error(fields, k, (n - 1) as nat, tail_variant);
    }
}

proof fn lemma_typable_decided(fields: Seq<Field>, k: nat, n: nat)
    requires
        k <= n <= fields.len(),
        typable(fields, k) != Ok::<bool, EmitError>(true),
    ensures
        typable(fields, n) == typable(fields, k),
    decreases n,
{
    if k < n {
        lemma_typable_decided(fields, k, (n - 1) as nat);
    }
}

/// The layout of a struct or union under its short name. Where a field before
/// the last has a type that cannot be named, a comment stands in its place.
pub open spec fn struct_stack_text(
    name: Seq<char>,
    fields: Seq<Field>,
    is_union: bool,
    tail_variant: Option<u64>,
) -> Result<Seq<char>, EmitError> {
    match typable(fields, leading(fields)) {
        Err(e) => Err(e),
        Ok(false) => Ok(left_out_text(name)),
        Ok(true) => concat_ok(
            concat_ok(
                Ok(
                    (if is_union {
                        "\n#[derive(Copy,Clone)]\n#[repr(C)]\npub union "@
                    } else {
                        "\n#[derive(Copy,Clone)]\n#[repr(C)]\npub struct "@
                    }) + short_name(name) + " {\n"@,
                ),
                fields_text(fields, fields.len(), tail_variant),
            ),
            Ok("}\n"@),
        ),
    }
}

/// The heap wrapper of a struct named `n`: an owning handle with the tail
/// count, a dereference to the fixed-prefix layout, a clone that copies as many
/// bytes as the size query reports, raw byte pointers, and a constructor that
/// allocates a zeroed buffer of the queried size.
pub open spec fn heap_wrapper_text(n: Seq<char>, fixed: bool) -> Seq<char> {
    "\npub struct "@ + n + " {\n    pub inner:  Box<super::"@ + n
        + ">,\n    pub tail:   usize,\n}\n\nimpl std::ops::Deref for "@ + n
        + " {\n    type Target = super::"@ + n + ";\n\n    fn deref(&self) -> &super::"@ + n
        + " {\n        self.inner.deref()\n    }\n}\n\nimpl std::clone::Clone for "@ + n
        + " {\n    fn clone(&self) -> Self {\n        unsafe {\n"@
        + "            let size = super::sizeof_"@ + n + (if fixed {
        "();\n"@
    } else {
        "(self.tail);\n"@
    })
        + "\n            let mut s = Box::new(vec![0u8; size]);\n            std::ptr::copy_nonoverlapping(self.as_ptr(), s.as_mut_ptr(), size);\n\n            let ss : *mut super::"@
        + n
        + " = std::mem::transmute(Box::leak(s).as_mut_ptr());\n\n            Self { inner: Box::from_raw(ss), tail: self.tail }\n        }\n    }\n}\n\nimpl "@
        + n
        + " {\n    pub fn _tail(&mut self) -> usize {\n        self.tail\n    }\n    pub fn as_mut_ptr(&mut self) -> *mut u8 {\n        unsafe { std::mem::transmute(self.inner.as_mut() as *mut super::"@
        + n
        + ") }\n    }\n    pub fn as_ptr(&self) -> *const u8 {\n        unsafe { std::mem::transmute(self.inner.as_ref() as *const super::"@
        + n + ") }\n    }\n}\n\n"@ + "impl "@ + n + " {\n"@ + (if fixed {
        "    pub fn new() -> Self {\n        let tail = 0;\n        let size = unsafe{super::sizeof_"@
    } else {
        "    pub fn new(tail:  usize) -> Self {\n        let size = unsafe{super::sizeof_"@
    }) + n + (if fixed {
        "()};\n"@
    } else {
        "(tail)};\n"@
    }) + "        unsafe {\n            let s = Box::new(vec![0u8; size]);\n            let ss : *mut super::"@
        + n
        + " = std::mem::transmute(Box::leak(s).as_mut_ptr());\n            Self { inner: Box::from_raw(ss), tail } \n        }\n    }\n}\n"@
}

/// The heap wrapper of a struct. For a union, and where a field before the
/// last has a type that cannot be named, a comment stands in its place.
pub open spec fn struct_heap_text(
    name: Seq<char>,
    fields: Seq<Field>,
    tail: Tail,
    is_union: bool,
    tail_variant: Option<u64>,
) -> Result<Seq<char>, EmitError> {
    match typable(fields, leading(fields)) {
        Err(e) => Err(e),
        Ok(false) => Ok(left_out_text(name)),
        Ok(true) => if is_union {
            Ok(left_out_text(name))
        } else {
            Ok(heap_wrapper_text(short_name(name), fixed_size(tail, tail_variant)))
        },
    }
}

fn check_typable(fields: &Vec<Field>) -> (r: Result<bool, EmitError>)
    ensures
        r == typable(fields@, leading(fields@)),
{
    if fields.len() <= 1 {
        return Ok(true);
    }
    let n: usize = fields.len() - 1;
    let mut i: usize = 0;
    while i < n
        invariant
            i <= n,
            n == fields.len() - 1,
            n == leading(fields@),
            typable(fields@, i as nat) == Ok::<bool, EmitError>(true),
        decreases n - i,
    {
        match to_local_typed_name(&fields[i].typed) {
            Err(e) => {
                proof {
                    lemma_typable_decided(fields@, (i + 1) as nat, n as nat);
                }
                return Err(e);
            },
            Ok(None) => {
                proof {
                    lemma_typable_decided(fields@, (i + 1) as nat, n as nat);
                }
                return Ok(false);
            },
            Ok(Some(_)) => {},
        }
        i = i + 1;
    }
    Ok(true)
}

fn field_source(field: &Field, is_last: bool, tail_variant: Option<u64>) -> (r: Result<
    String,
    EmitError,
>)
    ensures
        text_of(r) == field_text(*field, is_last, tail_variant),
{
    let fieldtype = match to_local_typed_name(&field.typed) {
        Err(e) => {
            return Err(e);
        },
        Ok(None) => {
            let mut out = String::from_str("    // ");
            out.append(field.name.as_str());
            out.append("\n");
            return Ok(out);
        },
        Ok(Some(v)) => v,
    };
    match &field.array {
        Array::Sized(expr) => {
            let mut out = String::from_str("    pub ");
            out.append(field.name.as_str());
            out.append(" : [");
            emit_pointer(&mut out, &field.typed.ptr);
            out.append(fieldtype.as_str());
            out.append(";");
            match emit_expr(expr) {
                Err(e) => {
                    return Err(e);
                },
                Ok(s) => {
                    out.append(s.as_str());
                },
            }
            let mut close = String::from_str("]");
            close.append(" ,\n");
            out.append(close.as_str());
            Ok(out)
        },
        Array::Unsized => {
            if !is_last {
                return Err(EmitError::TailNotLast(field.loc.clone()));
            }
            match tail_variant {
                Some(tt) => {
                    let mut out = String::from_str("    pub ");
                    out.append(field.name.as_str());
                    out.append(" : [");
                    emit_pointer(&mut out, &field.typed.ptr);
                    out.append(fieldtype.as_str());
                    out.append(";");
                    push_decimal(&mut out, tt);
                    out.append("]");
                    out.append(" ,\n");
                    Ok(out)
                },
                None => {
                    let mut out = String::from_str("    // ");
                    out.append(field.name.as_str());
                    out.append(" ,\n");
                    Ok(out)
                },
            }
        },
        Array::Absent => {
            let mut out = String::from_str("    pub ");
            out.append(field.name.as_str());
            out.append(" :");
            emit_pointer(&mut out, &field.typed.ptr);
            out.append(fieldtype.as_str());
            out.append(" ,\n");
            Ok(out)
        },
    }
}

fn struct_stack_source(
    name: &str,
    fields: &Vec<Field>,
    is_union: bool,
    tail_variant: Option<u64>,
) -> (r: Result<String, EmitError>)
    ensures
        text_of(r) == struct_stack_text(name@, fields@, is_union, tail_variant),
{
    match check_typable(fields) {
        Err(e) => {
            return Err(e);
        },
        Ok(false) => {
            return Ok(left_out(name));
        },
        Ok(true) => {},
    }
    let mut body = String::new();
    let mut i: usize = 0;
    while i < fields.len()
        invariant
            i <= fields.len(),
            typable(fields@, leading(fields@)) == Ok::<bool, EmitError>(true),
            fields_text(fields@, i as nat, tail_variant) == Ok::<Seq<char>, EmitError>(body@),
        decreases fields.len() - i,
    {
        match field_source(&fields[i], i + 1 == fields.len(), tail_variant) {
            Err(e) => {
                proof {
                    lemma_fields_error(fields@, (i + 1) as nat, fields@.len(), tail_variant);
                }
                return Err(e);
            },
            Ok(s) => {
                body.append(s.as_str());
            },
        }
        i = i + 1;
    }
    let mut out = if is_union {
        String::from_str("\n#[derive(Copy,Clone)]\n#[repr(C)]\npub union ")
    } else {
        String::from_str("\n#[derive(Copy,Clone)]\n#[repr(C)]\npub struct ")
    };
    out.append(short_of(name).as_str());
    out.append(" {\n");
    out.append(body.as_str());
    out.append("}\n");
    Ok(out)
}

fn heap_wrapper_source(n: &str, fixed: bool) -> (out: String)
    ensures
        out@ == heap_wrapper_text(n@, fixed),
{
    let mut out = String::from_str("\npub struct ");
    out.append(n);
    out.append(" {\n    pub inner:  Box<super::");
    out.append(n);
    out.append(">,\n    pub tail:   usize,\n}\n\nimpl std::ops::Deref for ");
    out.append(n);
    out.append(" {\n    type Target = super::");
    out.append(n);
    out.append(";\n\n    fn deref(&self) -> &super::");
    out.append(n);
    out.append(" {\n        self.inner.deref()\n    }\n}\n\nimpl std::clone::Clone for ");
    out.append(n);
    out.append(" {\n    fn clone(&self) -> Self {\n        unsafe {\n");
    out.append("            let size = super::sizeof_");
    out.append(n);
    out.append(
        if fixed {
            "();\n"
        } else {
            "(self.tail);\n"
        },
    );
    out.append(
        "\n            let mut s = Box::new(vec![0u8; size]);\n            std::ptr::copy_nonoverlapping(self.as_ptr(), s.as_mut_ptr(), size);\n\n            let ss : *mut super::",
    );
    out.append(n);
    out.append(
        " = std::mem::transmute(Box::leak(s).as_mut_ptr());\n\n            Self { inner: Box::from_raw(ss), tail: self.tail }\n        }\n    }\n}\n\nimpl ",
    );
    out.append(n);
    out.append(
        " {\n    pub fn _tail(&mut self) -> usize {\n        self.tail\n    }\n    pub fn as_mut_ptr(&mut self) -> *mut u8 {\n        unsafe { std::mem::transmute(self.inner.as_mut() as *mut super::",
    );
    out.append(n);
    out.append(
        ") }\n    }\n    pub fn as_ptr(&self) -> *const u8 {\n        unsafe { std::mem::transmute(self.inner.as_ref() as *const super::",
    );
    out.append(n);
    out.append(") }\n    }\n}\n\n");
    out.append("impl ");
    out.append(n);
    out.append(" {\n");
    out.append(
        if fixed {
            "    pub fn new() -> Self {\n        let tail = 0;\n        let size = unsafe{super::sizeof_"
        } else {
            "    pub fn new(tail:  usize) -> Self {\n        let size = unsafe{super::sizeof_"
        },
    );
    out.append(n);
    out.append(
        if fixed {
            "()};\n"
        } else {
            "(tail)};\n"
        },
    );
    out.append(
        "        unsafe {\n            let s = Box::new(vec![0u8; size]);\n            let ss : *mut super::",
    );
    out.append(n);
    out.append(
        " = std::mem::transmute(Box::leak(s).as_mut_ptr());\n            Self { inner: Box::from_raw(ss), tail } \n        }\n    }\n}\n",
    );
    out
}

fn is_fixed(tail: &Tail, tail_variant: Option<u64>) -> (b: bool)
    ensures
        b == fixed_size(*tail, tail_variant),
{
    match tail {
        Tail::Absent => true,
        _ => tail_variant.is_some(),
    }
}

fn struct_heap_source(
    name: &str,
    fields: &Vec<Field>,
    tail: &Tail,
    is_union: bool,
    tail_variant: Option<u64>,
) -> (r: Result<String, EmitError>)
    ensures
        text_of(r) == struct_heap_text(name@, fields@, *tail, is_union, tail_variant),
{
    match check_typable(fields) {
        Err(e) => {
            return Err(e);
        },
        Ok(false) => {
            return Ok(left_out(name));
        },
        Ok(true) => {},
    }
    if is_union {
        return Ok(left_out(name));
    }
    let short = short_of(name);
    Ok(heap_wrapper_source(short.as_str(), is_fixed(tail, tail_variant)))
}

fn struct_len_source(
    aliases: &Vec<(Name, String)>,
    name: &str,
    loc: &Location,
    tail: &Tail,
    tail_variant: Option<u64>,
) -> (r: Result<String, EmitError>)
    ensures
        text_of(r) == struct_len_text(aliases@, name@, *loc, *tail, tail_variant),
{
    let (short, symbol) = match names_of(aliases, name, loc) {
        Err(e) => {
            return Err(e);
        },
        Ok(p) => p,
    };
    let mut out = String::from_str("    #[link_name = \"sizeof_");
    out.append(symbol.as_str());
    out.append("\"]\n");
    out.append("    pub fn sizeof_");
    out.append(short.as_str());
    out.append(
        if is_fixed(tail, tail_variant) {
            "() -> libc::size_t;\n"
        } else {
            "(tail: libc::size_t) -> libc::size_t;\n"
        },
    );
    Ok(out)
}

fn const_source(name: &str, typed: &Typed, expr: &Expression) -> (r: Result<String, EmitError>)
    ensures
        text_of(r) == const_text(name@, *typed, *expr),
{
    let fieldtype = match to_local_typed_name(typed) {
        Err(e) => {
            return Err(e);
        },
        Ok(None) => {
            return Ok(left_out(name));
        },
        Ok(Some(v)) => v,
    };
    let fieldval = match expr {
        Expression::LiteralChar { v, .. } => {
            let mut q = String::from_str("'");
            write_escaped_literal(&mut q, *v, false);
            q.append("'");
            q
        },
        Expression::Literal { v, .. } => v.clone(),
        _ => {
            return Ok(left_out(name));
        },
    };
    let mut out = String::from_str("pub const ");
    out.append(short_of(name).as_str());
    out.append(" : ");
    emit_pointer(&mut out, &typed.ptr);
    out.append(fieldtype.as_str());
    out.append(" = ");
    out.append(fieldval.as_str());
    out.append(";\n");
    Ok(out)
}

fn enum_source(
    aliases: &Vec<(Name, String)>,
    name: &str,
    loc: &Location,
    names: &Vec<(String, Option<u64>)>,
) -> (r: Result<String, EmitError>)
    ensures
        text_of(r) == enum_text(aliases@, name@, *loc, names@),
{
    let (short, symbol) = match names_of(aliases, name, loc) {
        Err(e) => {
            return Err(e);
        },
        Ok(p) => p,
    };
    let mut body = String::new();
    let mut i: usize = 0;
    while i < names.len()
        invariant
            i <= names.len(),
            body@ == variants_text(symbol@, names@, i as nat),
        decreases names.len() - i,
    {
        let mut item = String::from_str("    ");
        item.append(symbol.as_str());
        item.append("_");
        item.append(names[i].0.as_str());
        let mut value = String::new();
        match names[i].1 {
            Some(l) => {
                value.append(" = ");
                push_decimal(&mut value, l);
                proof {
                    assert(value@ =~= " = "@ + decimal(l as nat));
                }
            },
            None => {},
        }
        item.append(value.as_str());
        item.append(",\n");
        body.append(item.as_str());
        i = i + 1;
    }
    let mut out = String::from_str("#[derive(Copy,Clone, PartialEq)]\n");
    out.append("#[repr(C)]\n");
    out.append("pub enum ");
    out.append(short.as_str());
    out.append(" {\n");
    out.append(body.as_str());
    out.append("\n}\n\n");
    Ok(out)
}

fn closure_source(name: &str, ret: &Option<AnonArg>, args: &Vec<NamedArg>) -> (r: Result<
    String,
    EmitError,
>)
    ensures
        text_of(r) == closure_text(name@, *ret, args@),
{
    let mut out = String::from_str("#[derive(Copy,Clone)]\n#[repr(C)]\npub struct ");
    out.append(short_of(name).as_str());
    out.append(" {\n    pub ctx: *mut std::ffi::c_void,\n");
    out.append("    pub f: extern fn (");
    match function_args(args) {
        Err(e) => {
            return Err(e);
        },
        Ok(s) => {
            out.append(s.as_str());
        },
    }
    let mut ctx = if args.len() > 0 {
        String::from_str(", ")
    } else {
        String::new()
    };
    ctx.append("ctx: *mut std::ffi::c_void");
    out.append(ctx.as_str());
    let mut tail = match ret {
        None => String::from_str("),\n"),
        Some(a) => match to_local_typed_name(&a.typed) {
            Err(e) => {
                return Err(e);
            },
            Ok(None) => {
                return Err(EmitError::Malformed(a.typed.loc.clone()));
            },
            Ok(Some(t)) => {
                let mut x = String::from_str(") -> ");
                x.append(t.as_str());
                x.append(",\n");
                emit_pointer(&mut x, &a.typed.ptr);
                x
            },
        },
    };
    tail.append("}\n");
    out.append(tail.as_str());
    Ok(out)
}

fn decl_source(
    aliases: &Vec<(Name, String)>,
    name: &str,
    loc: &Location,
    ret: &Option<AnonArg>,
    args: &Vec<NamedArg>,
) -> (r: Result<String, EmitError>)
    ensures
        text_of(r) == decl_text(aliases@, name@, *loc, *ret, args@),
{
    let mut ret_text = String::new();
    match ret {
        None => {},
        Some(a) => match to_local_typed_name(&a.typed) {
            Err(e) => {
                return Err(e);
            },
            Ok(None) => {
                let mut note = String::from_str("    ");
                note.append(left_out(name).as_str());
                return Ok(note);
            },
            Ok(Some(t)) => {
                ret_text.append("  -> ");
                emit_pointer(&mut ret_text, &a.typed.ptr);
                ret_text.append(t.as_str());
                proof {
                    assert(ret_text@ =~= "  -> "@ + pointer_text(a.typed.ptr@) + t@);
                }
            },
        },
    }
    let (short, symbol) = match names_of(aliases, name, loc) {
        Err(e) => {
            return Err(e);
        },
        Ok(p) => p,
    };
    let mut out = String::from_str("    #[link_name = \"");
    out.append(symbol.as_str());
    out.append("\"]\n");
    out.append("    pub fn r#");
    out.append(short.as_str());
    out.append("(");
    match function_args(args) {
        Err(e) => {
            return Err(e);
        },
        Ok(s) => {
            out.append(s.as_str());
        },
    }
    let mut close = String::from_str(")");
    close.append(ret_text.as_str());
    close.append(";\n");
    out.append(close.as_str());
    Ok(out)
}

/// The three sections of a binding file: the layouts, the heap wrappers, and
/// the foreign declarations.
#[derive(Clone, Copy, Debug, PartialEq, Eq, Structural)]
pub enum Section {
    Layouts,
    Heap,
    Foreign,
}

/// What a struct contributes to a section under the name `name`.
pub open spec fn struct_part_text(
    section: Section,
    aliases: Seq<(Name, String)>,
    name: Seq<char>,
    loc: Location,
    fields: Seq<Field>,
    tail: Tail,
    is_union: bool,
    tail_variant: Option<u64>,
) -> Result<Seq<char>, EmitError> {
    match section {
        Section::Layouts => struct_stack_text(name, fields, is_union, tail_variant),
        Section::Heap => struct_heap_text(name, fields, tail, is_union, tail_variant),
        Section::Foreign => struct_len_text(aliases, name, loc, tail, tail_variant),
    }
}

/// The name of the variant of a struct whose tail is bound to `v` elements.
pub open spec fn variant_name(name: Seq<char>, v: u64) -> Seq<char> {
    name + "_"@ + decimal(v as nat)
}

/// The tail sizes registered for the struct `n`, searching from entry `from`
/// on: those of the first entry with this name, none where there is no entry.
pub open spec fn variants_from(
    registered: Seq<(Name, Vec<(u64, Location)>)>,
    n: Seq<Seq<char>>,
    from: int,
) -> Seq<(u64, Location)>
    decreases registered.len() - from,
{
    if from < 0 || from >= registered.len() {
        Seq::empty()
    } else if registered[from].0@ == n {
        registered[from].1@
    } else {
        variants_from(registered, n, from + 1)
    }
}

/// What the first `n` registered variants of a struct contribute to a
/// section, each under its variant name.
pub open spec fn variants_part_text(
    section: Section,
    aliases: Seq<(Name, String)>,
    name: Seq<char>,
    loc: Location,
    fields: Seq<Field>,
    tail: Tail,
    is_union: bool,
    variants: Seq<(u64, Location)>,
    n: nat,
) -> Result<Seq<char>, EmitError>
    decreases n,
{
    if n == 0 || n > variants.len() {
        Ok(Seq::empty())
    } else {
        concat_ok(
            variants_part_text(
                section,
                aliases,
                name,
                loc,
                fields,
                tail,
                is_union,
                variants,
                (n - 1) as nat,
            ),
            struct_part_text(
                section,
                aliases,
                variant_name(name, variants[n - 1].0),
                loc,
                fields,
                tail,
                is_union,
                Some(variants[n - 1].0),
            ),
        )
    }
}

proof fn lemma_variants_error(
    section: Section,
    aliases: Seq<(Name, String)>,
    name: Seq<char>,
    loc: Location,
    fields: Seq<Field>,
    tail: Tail,
    is_union: bool,
    variants: Seq<(u64, Location)>,
    k: nat,
    n: nat,
)
    requires
        k <= n <= variants.len(),
        variants_part_text(section, aliases, name, loc, fields, tail, is_union, variants, k) is Err,
    ensures
        variants_part_text(section, aliases, name, loc, fields, tail, is_union, variants, n)
            == variants_part_text(section, aliases, name, loc, fields, tail, is_union, variants, k),
    decreases n,
{
    if k < n {
        lemma_variants_error(
            section,
            aliases,
            name,
            loc,
            fields,
            tail,
            is_union,
            variants,
            k,
            (n - 1) as nat,
        );
    }
}

/// What a struct and its registered variants contribute to a section.
pub open spec fn struct_family_text(
    section: Section,
    m: Module,
    name: Seq<char>,
    loc: Location,
    fields: Seq<Field>,
    tail: Tail,
    is_union: bool,
) -> Result<Seq<char>, EmitError> {
    let variants = variants_from(m.typevariants@, split_path(name), 0);
    concat_ok(
        struct_part_text(section, m.aliases@, name, loc, fields, tail, is_union, None),
        variants_part_text(
            section,
            m.aliases@,
            name,
            loc,
            fields,
            tail,
            is_union,
            variants,
            variants.len(),
        ),
    )
}

/// Whether a definition's name ends in `::main`.
pub open spec fn is_main(name: Seq<char>) -> bool {
    name.len() >= 6 && name.subrange(name.len() - 6, name.len() as int) == "::main"@
}

/// What one definition contributes to a section. Layouts: structs, enums,
/// closures and constants. Heap: structs. Foreign: size queries of structs and
/// declarations of functions other than `main`, each followed by an empty line;
/// statics and macros contribute that line only.
pub open spec fn item_text(section: Section, m: Module, name: Seq<char>, d: Local) -> Result<
    Seq<char>,
    EmitError,
> {
    match section {
        Section::Layouts => match d.def {
            Def::Struct { fields, tail, union, .. } => struct_family_text(
                section,
                m,
                name,
                d.loc,
                fields@,
                tail,
                union,
            ),
            Def::Enum { names } => enum_text(m.aliases@, name, d.loc, names@),
            Def::Closure { ret, args, .. } => closure_text(name, ret, args@),
            Def::Const { typed, expr } => const_text(name, typed, expr),
            _ => Ok(Seq::empty()),
        },
        Section::Heap => match d.def {
            Def::Struct { fields, tail, union, .. } => struct_family_text(
                section,
                m,
                name,
                d.loc,
                fields@,
                tail,
                union,
            ),
            _ => Ok(Seq::empty()),
        },
        Section::Foreign => concat_ok(
            match d.def {
                Def::Struct { fields, tail, union, .. } => struct_family_text(
                    section,
                    m,
                    name,
                    d.loc,
                    fields@,
                    tail,
                    union,
                ),
                Def::Function { ret, args, .. } => if is_main(name) {
                    Ok(Seq::empty())
                } else {
                    decl_text(m.aliases@, name, d.loc, ret, args@)
                },
                _ => Ok(Seq::empty()),
            },
            Ok("\n"@),
        ),
    }
}

/// Whether a flattened definition belongs in the module's binding file: it is
/// complete, and its name without the last segment is the module's name.
pub open spec fn selected(m: Module, d: Flat) -> bool {
    split_path(d.name@).drop_last() == m.name@ && d.complete == TypeComplete::Complete
}

/// What the first `n` definitions of the module contribute to a section.
pub open spec fn section_text(section: Section, m: Module, n: nat) -> Result<Seq<char>, EmitError>
    decreases n,
{
    if n == 0 || n > m.d@.len() {
        Ok(Seq::empty())
    } else {
        concat_ok(
            section_text(section, m, (n - 1) as nat),
            if selected(m, m.d@[n - 1]) {
                item_text(section, m, m.d@[n - 1].name@, *m.d@[n - 1].local)
            } else {
                Ok(Seq::empty())
            },
        )
    }
}

proof fn lemma_section_error(section: Section, m: Module, k: nat, n: nat)
    requires
        k <= n <= m.d@.len(),
        section_text(section, m, k) is Err,
    ensures
        section_text(section, m, n) == section_text(section, m, k),
    decreases n,
{
    if k < n {
        lemma_section_error(section, m, k, (n - 1) as nat);
    }
}

/// The binding file holds nothing of a definition of another module, private
/// or not: an entry that is not the module's own leaves every section as it
/// was.
pub proof fn lemma_other_modules_add_nothing(section: Section, m: Module, k: nat)
    requires
        k < m.d@.len(),
        split_path(m.d@[k as int].name@).drop_last() != m.name@,
    ensures
        section_text(section, m, k + 1) == section_text(section, m, k),
{
    let before = section_text(section, m, k);
    if before is Ok {
        assert(before->Ok_0 + Seq::<char>::empty() =~= before->Ok_0);
    }
}

/// The whole binding file of a module: the crate attributes, the layouts, the
/// `heap` module with the wrappers, and the foreign block.
pub open spec fn file_text(m: Module) -> Result<Seq<char>, EmitError> {
    concat_ok(
        concat_ok(
            concat_ok(
                concat_ok(
                    concat_ok(
                        concat_ok(
                            Ok(
                                "#![allow(non_camel_case_types)]\n#![allow(dead_code)]\n"@
                                    + "extern crate libc;\n"@,
                            ),
                            section_text(Section::Layouts, m, m.d@.len()),
                        ),
                        Ok("\npub mod heap {\n"@),
                    ),
                    section_text(Section::Heap, m, m.d@.len()),
                ),
                Ok("}\n"@ + "extern {\n"@),
            ),
            section_text(Section::Foreign, m, m.d@.len()),
        ),
        Ok("}\n"@),
    )
}

fn struct_part(
    section: Section,
    aliases: &Vec<(Name, String)>,
    name: &str,
    loc: &Location,
    fields: &Vec<Field>,
    tail: &Tail,
    is_union: bool,
    tail_variant: Option<u64>,
) -> (r: Result<String, EmitError>)
    ensures
        text_of(r) == struct_part_text(
            section,
            aliases@,
            name@,
            *loc,
            fields@,
            *tail,
            is_union,
            tail_variant,
        ),
{
    match section {
        Section::Layouts => struct_stack_source(name, fields, is_union, tail_variant),
        Section::Heap => struct_heap_source(name, fields, tail, is_union, tail_variant),
        Section::Foreign => struct_len_source(aliases, name, loc, tail, tail_variant),
    }
}

fn variant_part(
    section: Section,
    aliases: &Vec<(Name, String)>,
    name: &String,
    loc: &Location,
    fields: &Vec<Field>,
    tail: &Tail,
    is_union: bool,
    v: u64,
) -> (r: Result<String, EmitError>)
    ensures
        text_of(r) == struct_part_text(
            section,
            aliases@,
            variant_name(name@, v),
            *loc,
            fields@,
            *tail,
            is_union,
            Some(v),
        ),
{
    let mut vn = name.clone();
    vn.append("_");
    push_decimal(&mut vn, v);
    struct_part(section, aliases, vn.as_str(), loc, fields, tail, is_union, Some(v))
}

fn struct_family(
    section: Section,
    m: &Module,
    name: &String,
    loc: &Location,
    fields: &Vec<Field>,
    tail: &Tail,
    is_union: bool,
) -> (r: Result<String, EmitError>)
    ensures
        text_of(r) == struct_family_text(section, *m, name@, *loc, fields@, *tail, is_union),
{
    let mut out = match struct_part(
        section,
        m.aliases,
        name.as_str(),
        loc,
        fields,
        tail,
        is_union,
        None,
    ) {
        Err(e) => {
            return Err(e);
        },
        Ok(s) => s,
    };
    let full = Name::parse(name.as_str());
    let mut k: usize = 0;
    while k < m.typevariants.len()
        invariant
            k <= m.typevariants.len(),
            full@ == split_path(name@),
            variants_from(m.typevariants@, full@, 0) == variants_from(
                m.typevariants@,
                full@,
                k as int,
            ),
        ensures
            k <= m.typevariants.len(),
            k < m.typevariants.len() ==> variants_from(m.typevariants@, full@, 0)
                == m.typevariants@[k as int].1@,
            k == m.typevariants.len() ==> variants_from(m.typevariants@, full@, 0) == Seq::<
                (u64, Location),
            >::empty(),
        decreases m.typevariants.len() - k,
    {
        if m.typevariants[k].0 == full {
            break ;
        }
        k = k + 1;
    }
    if k < m.typevariants.len() {
        let variants = &m.typevariants[k].1;
        let mut rest = String::new();
        let mut i: usize = 0;
        while i < variants.len()
            invariant
                i <= variants.len(),
                variants@ == variants_from(m.typevariants@, split_path(name@), 0),
                struct_part_text(
                    section,
                    m.aliases@,
                    name@,
                    *loc,
                    fields@,
                    *tail,
                    is_union,
                    None,
                ) == Ok::<Seq<char>, EmitError>(out@),
                variants_part_text(
                    section,
                    m.aliases@,
                    name@,
                    *loc,
                    fields@,
                    *tail,
                    is_union,
                    variants@,
                    i as nat,
                ) == Ok::<Seq<char>, EmitError>(rest@),
            decreases variants.len() - i,
        {
            match variant_part(section, m.aliases, name, loc, fields, tail, is_union, variants[i].0) {
                Err(e) => {
                    proof {
                        lemma_variants_error(
                            section,
                            m.aliases@,
                            name@,
                            *loc,
                            fields@,
                            *tail,
                            is_union,
                            variants@,
                            (i + 1) as nat,
                            variants@.len(),
                        );
                    }
                    return Err(e);
                },
                Ok(s) => {
                    rest.append(s.as_str());
                },
            }
            i = i + 1;
        }
        out.append(rest.as_str());
    } else {
        proof {
            assert(out@ + Seq::<char>::empty() == out@);
        }
    }
    Ok(out)
}

pub fn ends_with_main(name: &str) -> (b: bool)
    ensures
        b == is_main(name@),
{
    let n: usize = name.unicode_len();
    if n < 6 {
        false
    } else {
        str_eq(name.substring_char(n - 6, n), "::main")
    }
}

fn item_source(section: Section, m: &Module, name: &String, d: &Local) -> (r: Result<String, EmitError>)
    ensures
        text_of(r) == item_text(section, *m, name@, *d),
{
    match section {
        Section::Layouts => match &d.def {
            Def::Struct { fields, tail, union, .. } => struct_family(
                section,
                m,
                name,
                &d.loc,
                fields,
                tail,
                *union,
            ),
            Def::Enum { names } => enum_source(m.aliases, name.as_str(), &d.loc, names),
            Def::Closure { ret, args, .. } => closure_source(name.as_str(), ret, args),
            Def::Const { typed, expr } => const_source(name.as_str(), typed, expr),
            _ => Ok(String::new()),
        },
        Section::Heap => match &d.def {
            Def::Struct { fields, tail, union, .. } => struct_family(
                section,
                m,
                name,
                &d.loc,
                fields,
                tail,
                *union,
            ),
            _ => Ok(String::new()),
        },
        Section::Foreign => {
            let body = match &d.def {
                Def::Struct { fields, tail, union, .. } => struct_family(
                    section,
                    m,
                    name,
                    &d.loc,
                    fields,
                    tail,
                    *union,
                ),
                Def::Function { ret, args, .. } => if ends_with_main(name.as_str()) {
                    Ok(String::new())
                } else {
                    decl_source(m.aliases, name.as_str(), &d.loc, ret, args)
                },
                _ => Ok(String::new()),
            };
            match body {
                Err(e) => Err(e),
                Ok(mut s) => {
                    s.append("\n");
                    Ok(s)
                },
            }
        },
    }
}

/// Whether the definition at `i` belongs in the module's binding file.
fn is_selected(m: &Module, i: usize) -> (b: bool)
    requires
        i < m.d@.len(),
    ensures
        b == selected(*m, m.d@[i as int]),
{
    let mut owner = Name::parse(m.d[i].name.as_str());
    proof {
        crate::text::lemma_split_nonempty(m.d@[i as int].name@);
    }
    owner.pop();
    match m.d[i].complete {
        TypeComplete::Complete => owner == m.name,
        TypeComplete::Incomplete => false,
    }
}

/// The emitter of one module's binding file. `out` holds the text written so
/// far; `p` is the path the text is meant for.
pub struct Emitter<'a> {
    pub p: String,
    pub out: String,
    pub module: Module<'a>,
    pub cur_loc: Option<Location>,
}

/// The place that the emitter stands at after visiting `loc`: it stays where it
/// was if that is the same line of the same file.
pub open spec fn loc_after(cur: Option<Location>, loc: Location) -> Option<Location> {
    match cur {
        Some(c) => if c.file@ == loc.file@ && c.line == loc.line {
            Some(c)
        } else {
            Some(loc)
        },
        None => Some(loc),
    }
}

/// How a step that was to write `text` and end at `cur` left the emitter: on
/// success the text stands at the end of `out`; on failure nothing changed.
pub open spec fn emitted(
    before: Emitter,
    after: Emitter,
    r: Result<(), EmitError>,
    text: Result<Seq<char>, EmitError>,
    cur: Option<Location>,
) -> bool {
    match text {
        Ok(t) => r is Ok && after.out@ == before.out@ + t && after.cur_loc == cur && after.p
            == before.p && after.module == before.module,
        Err(e) => r == Err::<(), EmitError>(e) && after == before,
    }
}

/// `comp` appended to the path `base` with `/`: `comp` alone where it starts
/// at the root or `base` is empty.
pub open spec fn path_join(base: Seq<char>, comp: Seq<char>) -> Seq<char> {
    if base.len() == 0 || (comp.len() > 0 && comp[0] == '/') {
        comp
    } else if base.last() == '/' {
        base + comp
    } else {
        base + seq!['/'] + comp
    }
}

/// The file name of a module's binding file: its segments after the root,
/// joined by `_`, with the extension `.rs`.
pub open spec fn binding_file_name(name: Seq<Seq<char>>) -> Seq<char>
    recommends
        name.len() >= 1,
{
    join(name.subrange(1, name.len() as int), "_"@) + ".rs"@
}

pub fn join_path(base: &str, comp: &str) -> (out: String)
    ensures
        out@ == path_join(base@, comp@),
{
    let n: usize = base.unicode_len();
    if n == 0 || (comp.unicode_len() > 0 && comp.get_char(0) == '/') {
        return String::from_str(comp);
    }
    let mut out = String::from_str(base);
    if base.get_char(n - 1) != '/' {
        push_char(&mut out, '/');
    }
    out.append(comp);
    out
}

/// The path of a module's binding file below the target directory:
/// `<target_dir>/rust/<segments after the root joined by _>.rs`.
pub fn outname(target_dir: &str, module: &Module) -> (path: String)
    requires
        module.name@.len() >= 1,
    ensures
        path@ == path_join(path_join(target_dir@, "rust"@), binding_file_name(module.name@)),
{
    let mut file = join_from(&module.name.0, 1, "_");
    file.append(".rs");
    let dir = join_path(target_dir, "rust");
    join_path(dir.as_str(), file.as_str())
}

impl<'a> Emitter<'a> {
    /// An emitter for `module` that has written nothing yet.
    pub fn new(target_dir: &str, module: Module<'a>) -> (em: Emitter<'a>)
        requires
            module.name@.len() >= 1,
        ensures
            em.p@ == path_join(path_join(target_dir@, "rust"@), binding_file_name(module.name@)),
            em.out@ == Seq::<char>::empty(),
            em.module == module,
            em.cur_loc is None,
    {
        let p = outname(target_dir, &module);
        Emitter { p, out: String::new(), module, cur_loc: None }
    }

    /// Moves the emitter to `loc`. The binding file carries no line markers,
    /// so nothing is written.
    fn emit_loc(&mut self, loc: &Location)
        ensures
            final(self).cur_loc == loc_after(old(self).cur_loc, *loc),
            final(self).out == old(self).out,
            final(self).p == old(self).p,
            final(self).module == old(self).module,
    {
        match &self.cur_loc {
            Some(cur) => {
                if cur.file == loc.file && cur.line == loc.line {
                    return ;
                }
            },
            None => {},
        }
        self.cur_loc = Some(loc.clone());
    }

    /// Appends `text` and moves to `loc` where there is one; on a failure,
    /// hands it on and leaves the emitter as it was.
    fn commit(&mut self, text: Result<String, EmitError>, loc: Option<&Location>) -> (r: Result<
        (),
        EmitError,
    >)
        ensures
            emitted(
                *old(self),
                *final(self),
                r,
                text_of(text),
                match loc {
                    Some(l) => loc_after(old(self).cur_loc, *l),
                    None => old(self).cur_loc,
                },
            ),
    {
        match text {
            Err(e) => Err(e),
            Ok(s) => {
                match loc {
                    Some(l) => {
                        self.emit_loc(l);
                    },
                    None => {},
                }
                self.out.append(s.as_str());
                Ok(())
            },
        }
    }

    /// A static variable has no counterpart in the binding file: the emitter
    /// only moves to its place.
    pub fn emit_static(&mut self, ast: &Local)
        requires
            ast.def is Static,
        ensures
            final(self).cur_loc == loc_after(old(self).cur_loc, ast.loc),
            final(self).out == old(self).out,
            final(self).p == old(self).p,
            final(self).module == old(self).module,
    {
        self.emit_loc(&ast.loc);
    }

    /// Writes a constant; see [`const_text`].
    pub fn emit_const(&mut self, ast: &Local) -> (r: Result<(), EmitError>)
        requires
            ast.def is Const,
        ensures
            emitted(
                *old(self),
                *final(self),
                r,
                const_text(ast.name@, ast.def->Const_typed, ast.def->Const_expr),
                loc_after(old(self).cur_loc, ast.loc),
            ),
    {
        match &ast.def {
            Def::Const { typed, expr } => {
                let text = const_source(ast.name.as_str(), typed, expr);
                self.commit(text, Some(&ast.loc))
            },
            _ => Ok(()),
        }
    }

    /// Writes an enum; see [`enum_text`].
    pub fn emit_enum(&mut self, ast: &Local) -> (r: Result<(), EmitError>)
        requires
            ast.def is Enum,
        ensures
            emitted(
                *old(self),
                *final(self),
                r,
                enum_text(old(self).module.aliases@, ast.name@, ast.loc, ast.def->names@),
                loc_after(old(self).cur_loc, ast.loc),
            ),
    {
        match &ast.def {
            Def::Enum { names } => {
                let text = enum_source(self.module.aliases, ast.name.as_str(), &ast.loc, names);
                self.commit(text, Some(&ast.loc))
            },
            _ => Ok(()),
        }
    }

    /// Writes the declaration of a struct's size query; see
    /// [`struct_len_text`].
    pub fn emit_struct_len(&mut self, ast: &Local, tail_variant: Option<u64>) -> (r: Result<
        (),
        EmitError,
    >)
        requires
            ast.def is Struct,
        ensures
            emitted(
                *old(self),
                *final(self),
                r,
                struct_len_text(
                    old(self).module.aliases@,
                    ast.name@,
                    ast.loc,
                    ast.def->tail,
                    tail_variant,
                ),
                old(self).cur_loc,
            ),
    {
        match &ast.def {
            Def::Struct { tail, .. } => {
                let text = struct_len_source(
                    self.module.aliases,
                    ast.name.as_str(),
                    &ast.loc,
                    tail,
                    tail_variant,
                );
                self.commit(text, None)
            },
            _ => Ok(()),
        }
    }

    /// Writes the heap wrapper of a struct; see [`struct_heap_text`].
    pub fn emit_struct_heap(&mut self, ast: &Local, tail_variant: Option<u64>) -> (r: Result<
        (),
        EmitError,
    >)
        requires
            ast.def is Struct,
        ensures
            emitted(
                *old(self),
                *final(self),
                r,
                struct_heap_text(
                    ast.name@,
                    ast.def->fields@,
                    ast.def->tail,
                    ast.def->union,
                    tail_variant,
                ),
                old(self).cur_loc,
            ),
    {
        match &ast.def {
            Def::Struct { fields, tail, union, .. } => {
                let text = struct_heap_source(
                    ast.name.as_str(),
                    fields,
                    tail,
                    *union,
                    tail_variant,
                );
                self.commit(text, None)
            },
            _ => Ok(()),
        }
    }

    /// Writes the layout of a struct or union; see [`struct_stack_text`].
    pub fn emit_struct_stack(&mut self, ast: &Local, tail_variant: Option<u64>) -> (r: Result<
        (),
        EmitError,
    >)
        requires
            ast.def is Struct,
        ensures
            emitted(
                *old(self),
                *final(self),
                r,
                struct_stack_text(ast.name@, ast.def->fields@, ast.def->union, tail_variant),
                old(self).cur_loc,
            ),
    {
        match &ast.def {
            Def::Struct { fields, union, .. } => {
                let text = struct_stack_source(ast.name.as_str(), fields, *union, tail_variant);
                self.commit(text, None)
            },
            _ => Ok(()),
        }
    }

    /// Writes a closure type; see [`closure_text`].
    pub fn emit_closure(&mut self, ast: &Local) -> (r: Result<(), EmitError>)
        requires
            ast.def is Closure,
        ensures
            emitted(
                *old(self),
                *final(self),
                r,
                closure_text(ast.name@, ast.def->Closure_ret, ast.def->Closure_args@),
                loc_after(old(self).cur_loc, ast.loc),
            ),
    {
        match &ast.def {
            Def::Closure { ret, args, .. } => {
                let text = closure_source(ast.name.as_str(), ret, args);
                self.commit(text, Some(&ast.loc))
            },
            _ => Ok(()),
        }
    }

    /// Writes the declaration of a function; see [`decl_text`].
    pub fn emit_decl(&mut self, ast: &Local) -> (r: Result<(), EmitError>)
        requires
            ast.def is Function,
        ensures
            emitted(
                *old(self),
                *final(self),
                r,
                decl_text(
                    old(self).module.aliases@,
                    ast.name@,
                    ast.loc,
                    ast.def->Function_ret,
                    ast.def->Function_args@,
                ),
                old(self).cur_loc,
            ),
    {
        match &ast.def {
            Def::Function { ret, args, .. } => {
                let text = decl_source(self.module.aliases, ast.name.as_str(), &ast.loc, ret, args);
                self.commit(text, None)
            },
            _ => Ok(()),
        }
    }

    /// Writes one section over all definitions of the module.
    fn emit_section(&mut self, section: Section) -> (r: Result<(), EmitError>)
        ensures
            final(self).module == old(self).module,
            final(self).p == old(self).p,
            match section_text(section, old(self).module, old(self).module.d@.len()) {
                Ok(t) => r is Ok && final(self).out@ == old(self).out@ + t,
                Err(e) => r == Err::<(), EmitError>(e),
            },
    {
        let mut body = String::new();
        let mut i: usize = 0;
        while i < self.module.d.len()
            invariant
                i <= self.module.d.len(),
                self.module == old(self).module,
                self.p == old(self).p,
                self.out == old(self).out,
                section_text(section, self.module, i as nat) == Ok::<Seq<char>, EmitError>(body@),
            decreases self.module.d.len() - i,
        {
            if is_selected(&self.module, i) {
                match item_source(
                    section,
                    &self.module,
                    &self.module.d[i].name,
                    self.module.d[i].local,
                ) {
                    Err(e) => {
                        proof {
                            lemma_section_error(
                                section,
                                self.module,
                                (i + 1) as nat,
                                self.module.d@.len(),
                            );
                        }
                        return Err(e);
                    },
                    Ok(s) => {
                        body.append(s.as_str());
                    },
                }
                let loc = self.module.d[i].local.loc.clone();
                self.emit_loc(&loc);
            } else {
                proof {
                    assert(body@ + Seq::<char>::empty() == body@);
                }
            }
            i = i + 1;
        }
        self.out.append(body.as_str());
        Ok(())
    }

    /// Writes the whole binding file after what was written before, and
    /// hands the text out; see [`file_text`].
    pub fn emit(self) -> (r: Result<String, EmitError>)
        ensures
            text_of(r) == concat_ok(Ok(self.out@), file_text(self.module)),
    {
        let mut em = self;
        let ghost start = em.out@;
        let mut head = String::from_str("#![allow(non_camel_case_types)]\n#![allow(dead_code)]\n");
        head.append("extern crate libc;\n");
        em.out.append(head.as_str());
        match em.emit_section(Section::Layouts) {
            Err(e) => {
                return Err(e);
            },
            Ok(()) => {},
        }
        em.out.append("\npub mod heap {\n");
        match em.emit_section(Section::Heap) {
            Err(e) => {
                return Err(e);
            },
            Ok(()) => {},
        }
        let mut mid = String::from_str("}\n");
        mid.append("extern {\n");
        em.out.append(mid.as_str());
        match em.emit_section(Section::Foreign) {
            Err(e) => {
                return Err(e);
            },
            Ok(()) => {},
        }
        em.out.append("}\n");
        proof {
            assert(em.out@ =~= start + file_text(self.module)->Ok_0);
        }
        Ok(em.out)
    }
}

/// The three files of the companion crate that builds the emitted C sources
/// and re-exports the binding files.
pub struct BindingCrate {
    pub build_rs: String,
    pub cargo_toml: String,
    pub lib_rs: String,
}

/// One line per entry: `prefix`, the entry, `suffix`.
pub open spec fn lines_text(prefix: Seq<char>, entries: Seq<Seq<char>>, suffix: Seq<char>, n: nat) -> Seq<
    char,
>
    decreases n,
{
    if n == 0 || n > entries.len() {
        Seq::empty()
    } else {
        lines_text(prefix, entries, suffix, (n - 1) as nat) + (prefix + entries[n - 1] + suffix)
    }
}

/// The build script: every C source and every include directory handed to the
/// C compiler driver, compiled into a library named after the artifact.
pub open spec fn build_script_text(
    artifact: Seq<char>,
    sources: Seq<Seq<char>>,
    includes: Seq<Seq<char>>,
) -> Seq<char> {
    "fn main() {\n"@ + "    cc::Build::new()\n"@ + lines_text(
        "      .file(\""@,
        sources,
        "\")\n"@,
        sources.len(),
    ) + lines_text("      .include(\""@, includes, "\")\n"@, includes.len()) + "    .compile(\""@
        + artifact + "\");\n"@ + "}\n"@
}

/// The package manifest of the companion crate.
pub open spec fn manifest_text(artifact: Seq<char>) -> Seq<char> {
    "[package]\n    name = \""@ + artifact
        + "\"\n    version = \"0.0.1\"\n[dependencies]\nlibc = \"0.2\"\n[build-dependencies]\ncc = \"1\"\n"@
}

/// One module of the companion crate's root: the binding file two
/// directories up, by its stem.
pub open spec fn bridge_text(stem: Seq<char>) -> Seq<char> {
    "#[path = \"../../"@ + stem + ".rs\"]\n"@ + "pub mod "@ + stem + ";\n\n"@
}

pub open spec fn bridges_text(stems: Seq<Seq<char>>, n: nat) -> Seq<char>
    decreases n,
{
    if n == 0 || n > stems.len() {
        Seq::empty()
    } else {
        bridges_text(stems, (n - 1) as nat) + bridge_text(stems[n - 1])
    }
}

fn lines(prefix: &str, entries: &Vec<String>, suffix: &str) -> (out: String)
    ensures
        out@ == lines_text(prefix@, strs(entries@), suffix@, entries@.len()),
{
    let mut out = String::new();
    let mut i: usize = 0;
    while i < entries.len()
        invariant
            i <= entries.len(),
            out@ == lines_text(prefix@, strs(entries@), suffix@, i as nat),
        decreases entries.len() - i,
    {
        let mut line = String::from_str(prefix);
        line.append(entries[i].as_str());
        line.append(suffix);
        out.append(line.as_str());
        i = i + 1;
    }
    out
}

/// The files of the companion crate for the artifact named `artifact`.
/// `sources` and `includes` are the C sources and include directories of the
/// build, relative to the crate's directory; `stems` are the file stems of the
/// binding files.
pub fn make_module(
    artifact: &str,
    sources: &Vec<String>,
    includes: &Vec<String>,
    stems: &Vec<String>,
) -> (files: BindingCrate)
    ensures
        files.build_rs@ == build_script_text(artifact@, strs(sources@), strs(includes@)),
        files.cargo_toml@ == manifest_text(artifact@),
        files.lib_rs@ == bridges_text(strs(stems@), stems@.len()),
{
    let mut build_rs = String::from_str("fn main() {\n");
    build_rs.append("    cc::Build::new()\n");
    build_rs.append(lines("      .file(\"", sources, "\")\n").as_str());
    build_rs.append(lines("      .include(\"", includes, "\")\n").as_str());
    build_rs.append("    .compile(\"");
    build_rs.append(artifact);
    build_rs.append("\");\n");
    build_rs.append("}\n");
    let mut cargo_toml = String::from_str("[package]\n    name = \"");
    cargo_toml.append(artifact);
    cargo_toml.append(
        "\"\n    version = \"0.0.1\"\n[dependencies]\nlibc = \"0.2\"\n[build-dependencies]\ncc = \"1\"\n",
    );
    let mut lib_rs = String::new();
    let mut i: usize = 0;
    while i < stems.len()
        invariant
            i <= stems.len(),
            lib_rs@ == bridges_text(strs(stems@), i as nat),
        decreases stems.len() - i,
    {
        let mut item = String::from_str("#[path = \"../../");
        item.append(stems[i].as_str());
        item.append(".rs\"]\n");
        item.append("pub mod ");
        item.append(stems[i].as_str());
        item.append(";\n\n");
        lib_rs.append(item.as_str());
        i = i + 1;
    }
    BindingCrate { build_rs, cargo_toml, lib_rs }
}

/// The position of the last `c` among the first `n` characters, or -1.
pub open spec fn last_of(s: Seq<char>, c: char, n: int) -> int
    decreases n,
{
    if n <= 0 || n > s.len() {
        -1
    } else if s[n - 1] == c {
        n - 1
    } else {
        last_of(s, c, n - 1)
    }
}

/// The last component of a path: what follows its last `/`.
pub open spec fn file_name(path: Seq<char>) -> Seq<char> {
    path.subrange(last_of(path, '/', path.len() as int) + 1, path.len() as int)
}

/// The directory of a path: what stands before its last `/`; nothing where
/// it has none.
pub open spec fn directory(path: Seq<char>) -> Seq<char> {
    if last_of(path, '/', path.len() as int) < 0 {
        Seq::empty()
    } else {
        path.subrange(0, last_of(path, '/', path.len() as int))
    }
}

/// A file name without its extension: what stands before its last `.`; the
/// whole name where it has none or only starts with one.
pub open spec fn file_stem(name: Seq<char>) -> Seq<char> {
    if last_of(name, '.', name.len() as int) <= 0 {
        name
    } else {
        name.subrange(0, last_of(name, '.', name.len() as int))
    }
}

/// The binding file that belongs to a C source, by its stem: a source that
/// lies in a directory called `zz` is an emitted module and has one; any other
/// source has none.
pub open spec fn bridge_of(path: Seq<char>) -> Option<Seq<char>> {
    if last_of(path, '/', path.len() as int) >= 0 && file_name(directory(path)) == "zz"@ {
        Some(file_stem(file_name(path)))
    } else {
        None
    }
}

/// The stems of the binding files of the first `n` sources, in order.
pub open spec fn bridges_of(sources: Seq<String>, n: nat) -> Seq<Seq<char>>
    decreases n,
{
    if n == 0 || n > sources.len() {
        Seq::empty()
    } else {
        match bridge_of(sources[n - 1]@) {
            Some(stem) => bridges_of(sources, (n - 1) as nat).push(stem),
            None => bridges_of(sources, (n - 1) as nat),
        }
    }
}

/// The position of the last `c` among the first `n` characters, if there is
/// one.
fn find_last(s: &str, c: char, n: usize) -> (at: Option<usize>)
    requires
        n <= s@.len(),
    ensures
        (match at {
            Some(i) => i as int,
            None => -1,
        }) == last_of(s@, c, n as int),
        at matches Some(i) ==> i < n,
{
    let mut k: usize = n;
    while k > 0
        invariant
            k <= n,
            n <= s@.len(),
            last_of(s@, c, n as int) == last_of(s@, c, k as int),
        decreases k,
    {
        if s.get_char(k - 1) == c {
            return Some(k - 1);
        }
        k = k - 1;
    }
    None
}

/// The stem of the binding file that belongs to a C source, if it has one;
/// see [`bridge_of`].
pub fn bridge_stem(path: &str) -> (r: Option<String>)
    ensures
        (match r {
            Some(stem) => Some(stem@),
            None => None,
        }) == bridge_of(path@),
{
    let n = path.unicode_len();
    let slash = match find_last(path, '/', n) {
        None => {
            return None;
        },
        Some(i) => i,
    };
    let dir = path.substring_char(0, slash);
    let name = path.substring_char(slash + 1, n);
    let dir_name = match find_last(dir, '/', slash) {
        None => dir,
        Some(i) => dir.substring_char(i + 1, slash),
    };
    proof {
        assert(dir@ == directory(path@));
        assert(name@ == file_name(path@));
        assert(dir_name@ =~= file_name(dir@));
    }
    if !crate::assoc::str_eq(dir_name, "zz") {
        return None;
    }
    let len = n - slash - 1;
    let stem = match find_last(name, '.', len) {
        None => name,
        Some(i) => if i == 0 {
            name
        } else {
            name.substring_char(0, i)
        },
    };
    Some(String::from_str(stem))
}

/// The stems of the binding files of the sources, in order; see
/// [`bridges_of`].
pub fn bridge_stems(sources: &Vec<String>) -> (stems: Vec<String>)
    ensures
        strs(stems@) == bridges_of(sources@, sources@.len()),
{
    let mut stems: Vec<String> = Vec::new();
    let mut i: usize = 0;
    proof {
        assert(strs(stems@) =~= bridges_of(sources@, 0));
    }
    while i < sources.len()
        invariant
            i <= sources.len(),
            strs(stems@) == bridges_of(sources@, i as nat),
        decreases sources.len() - i,
    {
        let ghost before = strs(stems@);
        match bridge_stem(sources[i].as_str()) {
            Some(stem) => {
                stems.push(stem);
                proof {
                    assert(strs(stems@) =~= before.push(bridge_of(sources@[i as int]@)->Some_0));
                }
            },
            None => {},
        }
        i = i + 1;
    }
    stems
}

} // verus!
