//! What a definition refers to: the names of user-defined types and symbols
//! in it, each marked by whether the definition needs the whole of what the
//! name stands for or only a declaration of it.

use vstd::prelude::*;
use crate::ast::{
    AnonArg, Array, Block, Def, Expression, Field, InfixOperator, Location, NamedArg, Statement,
    Type, Typed,
};
use crate::name::Name;

verus! {

/// A reference: the name, and whether it is by value.
pub type Use = (Seq<Seq<char>>, bool);

/// The references collected so far, as plain values.
pub open spec fn uses_of(v: Seq<(&Name, bool)>) -> Seq<Use> {
    Seq::new(v.len(), |i: int| (v[i].0@, v[i].1))
}

/// What a type reference refers to: nothing where it names a primitive kind or
/// a placeholder; else its name, by value iff it stands where a value of the
/// type is held and has no pointer layer.
pub open spec fn typed_uses(t: Typed, held: bool) -> Seq<Use> {
    if t.t == Type::Other {
        seq![(t.name@, held && t.ptr@.len() == 0)]
    } else {
        Seq::empty()
    }
}

/// What an expression refers to, left to right. A cast and a struct
/// initialiser hold a value of their type; a name and a callee do not.
pub open spec fn expr_uses(e: Expression) -> Seq<Use>
    decreases e, 0nat,
{
    match e {
        Expression::Name(t) => typed_uses(t, false),
        Expression::MemberAccess { lhs, .. } => expr_uses(*lhs),
        Expression::ArrayAccess { lhs, rhs, .. } => expr_uses(*lhs) + expr_uses(*rhs),
        Expression::Literal { .. } => Seq::empty(),
        Expression::LiteralString { .. } => Seq::empty(),
        Expression::LiteralChar { .. } => Seq::empty(),
        Expression::Call { name, args, .. } => typed_uses(name, false) + exprs_uses(
            args@,
            args@.len(),
        ),
        Expression::InfixOperation { lhs, rhs, .. } => expr_uses(*lhs) + chain_uses(rhs@, rhs@.len()),
        Expression::Cast { into, expr, .. } => typed_uses(into, true) + expr_uses(*expr),
        Expression::UnaryPost { expr, .. } => expr_uses(*expr),
        Expression::UnaryPre { expr, .. } => expr_uses(*expr),
        Expression::StructInit { typed, fields, .. } => typed_uses(typed, true) + inits_uses(
            fields@,
            fields@.len(),
        ),
        Expression::ArrayInit { fields, .. } => exprs_uses(fields@, fields@.len()),
        Expression::MacroCall { name, args, .. } => seq![(name@, false)] + exprs_uses(
            args@,
            args@.len(),
        ),
    }
}

pub open spec fn exprs_uses(items: Seq<Box<Expression>>, n: nat) -> Seq<Use>
    decreases items, n,
{
    if n == 0 || n > items.len() {
        Seq::empty()
    } else {
        exprs_uses(items, (n - 1) as nat) + expr_uses(*items[n - 1])
    }
}

pub open spec fn chain_uses(items: Seq<((InfixOperator, Location), Box<Expression>)>, n: nat) -> Seq<Use>
    decreases items, n,
{
    if n == 0 || n > items.len() {
        Seq::empty()
    } else {
        chain_uses(items, (n - 1) as nat) + expr_uses(*items[n - 1].1)
    }
}

pub open spec fn inits_uses(items: Seq<(String, Box<Expression>)>, n: nat) -> Seq<Use>
    decreases items, n,
{
    if n == 0 || n > items.len() {
        Seq::empty()
    } else {
        inits_uses(items, (n - 1) as nat) + expr_uses(*items[n - 1].1)
    }
}

pub open spec fn optional_uses(e: Option<Expression>) -> Seq<Use> {
    match e {
        Some(x) => expr_uses(x),
        None => Seq::empty(),
    }
}

/// What a statement refers to. A declared variable holds a value of its type.
pub open spec fn stmt_uses(s: Statement) -> Seq<Use>
    decreases s, 0nat,
{
    match s {
        Statement::Mark { lhs, .. } => expr_uses(lhs),
        Statement::Label { .. } => Seq::empty(),
        Statement::Goto { .. } => Seq::empty(),
        Statement::Assign { lhs, rhs, .. } => expr_uses(lhs) + expr_uses(rhs),
        Statement::Expr { expr, .. } => expr_uses(expr),
        Statement::Continue { .. } => Seq::empty(),
        Statement::Break { .. } => Seq::empty(),
        Statement::Return { expr, .. } => optional_uses(expr),
        Statement::Var { typed, array, assign, .. } => typed_uses(typed, true) + optional_uses(
            array,
        ) + optional_uses(assign),
        Statement::For { e1, e2, e3, body } => boxed_uses(e1@, e1@.len()) + boxed_uses(
            e2@,
            e2@.len(),
        ) + boxed_uses(e3@, e3@.len()) + block_uses(body),
        Statement::Cond { expr, body, .. } => optional_uses(expr) + block_uses(body),
        Statement::Block(b) => block_uses(*b),
    }
}

pub open spec fn block_uses(b: Block) -> Seq<Use>
    decreases b, 0nat,
{
    stmts_uses(b.statements@, b.statements@.len())
}

pub open spec fn stmts_uses(stmts: Seq<Statement>, n: nat) -> Seq<Use>
    decreases stmts, n,
{
    if n == 0 || n > stmts.len() {
        Seq::empty()
    } else {
        stmts_uses(stmts, (n - 1) as nat) + stmt_uses(stmts[n - 1])
    }
}

pub open spec fn boxed_uses(stmts: Seq<Box<Statement>>, n: nat) -> Seq<Use>
    decreases stmts, n,
{
    if n == 0 || n > stmts.len() {
        Seq::empty()
    } else {
        boxed_uses(stmts, (n - 1) as nat) + stmt_uses(*stmts[n - 1])
    }
}

pub open spec fn ret_uses(ret: Option<AnonArg>) -> Seq<Use> {
    match ret {
        Some(a) => typed_uses(a.typed, true),
        None => Seq::empty(),
    }
}

pub open spec fn args_uses(args: Seq<NamedArg>, n: nat) -> Seq<Use>
    decreases n,
{
    if n == 0 || n > args.len() {
        Seq::empty()
    } else {
        args_uses(args, (n - 1) as nat) + typed_uses(args[n - 1].typed, true)
    }
}

pub open spec fn field_uses(f: Field) -> Seq<Use> {
    typed_uses(f.typed, true) + (match f.array {
        Array::Sized(e) => expr_uses(e),
        _ => Seq::empty(),
    })
}

pub open spec fn fields_uses(fields: Seq<Field>, n: nat) -> Seq<Use>
    decreases n,
{
    if n == 0 || n > fields.len() {
        Seq::empty()
    } else {
        fields_uses(fields, (n - 1) as nat) + field_uses(fields[n - 1])
    }
}

/// What a definition refers to: its signature first, then its body. What a
/// static, a constant, an argument, a return value or a field is declared as
/// is held by value unless it is a pointer.
pub open spec fn def_uses(d: Def) -> Seq<Use> {
    match d {
        Def::Static { typed, expr, .. } => typed_uses(typed, true) + expr_uses(expr),
        Def::Const { typed, expr } => typed_uses(typed, true) + expr_uses(expr),
        Def::Function { ret, args, body, .. } => ret_uses(ret) + args_uses(args@, args@.len())
            + block_uses(body),
        Def::Struct { fields, .. } => fields_uses(fields@, fields@.len()),
        Def::Enum { .. } => Seq::empty(),
        Def::Closure { ret, args, .. } => ret_uses(ret) + args_uses(args@, args@.len()),
        Def::Macro { body, .. } => block_uses(body),
    }
}

fn collect_typed<'a>(t: &'a Typed, held: bool, out: &mut Vec<(&'a Name, bool)>)
    ensures
        uses_of(final(out)@) == uses_of(old(out)@) + typed_uses(*t, held),
{
    match t.t {
        Type::Other => {
            out.push((&t.name, held && t.ptr.len() == 0));
        },
        _ => {},
    }
    proof {
        assert(uses_of(out@) =~= uses_of(old(out)@) + typed_uses(*t, held));
    }
}

fn collect_exprs<'a>(items: &'a Vec<Box<Expression>>, out: &mut Vec<(&'a Name, bool)>)
    ensures
        uses_of(final(out)@) == uses_of(old(out)@) + exprs_uses(items@, items@.len()),
    decreases items, 1nat,
{
    let mut i: usize = 0;
    proof {
        assert(uses_of(out@) =~= uses_of(old(out)@) + exprs_uses(items@, 0));
    }
    while i < items.len()
        invariant
            i <= items.len(),
            uses_of(out@) == uses_of(old(out)@) + exprs_uses(items@, i as nat),
        decreases items.len() - i,
    {
        let ghost before = uses_of(out@);
        collect_expr(&*items[i], out);
        proof {
            assert(uses_of(out@) =~= uses_of(old(out)@) + exprs_uses(items@, (i + 1) as nat));
        }
        i = i + 1;
    }
}

fn collect_chain<'a>(
    items: &'a Vec<((InfixOperator, Location), Box<Expression>)>,
    out: &mut Vec<(&'a Name, bool)>,
)
    ensures
        uses_of(final(out)@) == uses_of(old(out)@) + chain_uses(items@, items@.len()),
    decreases items, 1nat,
{
    let mut i: usize = 0;
    proof {
        assert(uses_of(out@) =~= uses_of(old(out)@) + chain_uses(items@, 0));
    }
    while i < items.len()
        invariant
            i <= items.len(),
            uses_of(out@) == uses_of(old(out)@) + chain_uses(items@, i as nat),
        decreases items.len() - i,
    {
        collect_expr(&*items[i].1, out);
        proof {
            assert(uses_of(out@) =~= uses_of(old(out)@) + chain_uses(items@, (i + 1) as nat));
        }
        i = i + 1;
    }
}

fn collect_inits<'a>(items: &'a Vec<(String, Box<Expression>)>, out: &mut Vec<(&'a Name, bool)>)
    ensures
        uses_of(final(out)@) == uses_of(old(out)@) + inits_uses(items@, items@.len()),
    decreases items, 1nat,
{
    let mut i: usize = 0;
    proof {
        assert(uses_of(out@) =~= uses_of(old(out)@) + inits_uses(items@, 0));
    }
    while i < items.len()
        invariant
            i <= items.len(),
            uses_of(out@) == uses_of(old(out)@) + inits_uses(items@, i as nat),
        decreases items.len() - i,
    {
        collect_expr(&*items[i].1, out);
        proof {
            assert(uses_of(out@) =~= uses_of(old(out)@) + inits_uses(items@, (i + 1) as nat));
        }
        i = i + 1;
    }
}

/// Appends what an expression refers to; see [`expr_uses`].
pub fn collect_expr<'a>(e: &'a Expression, out: &mut Vec<(&'a Name, bool)>)
    ensures
        uses_of(final(out)@) == uses_of(old(out)@) + expr_uses(*e),
    decreases e, 0nat,
{
    match e {
        Expression::Name(t) => {
            collect_typed(t, false, out);
        },
        Expression::MemberAccess { lhs, .. } => {
            collect_expr(&**lhs, out);
        },
        Expression::ArrayAccess { lhs, rhs, .. } => {
            collect_expr(&**lhs, out);
            collect_expr(&**rhs, out);
        },
        Expression::Literal { .. } => {},
        Expression::LiteralString { .. } => {},
        Expression::LiteralChar { .. } => {},
        Expression::Call { name, args, .. } => {
            collect_typed(name, false, out);
            collect_exprs(args, out);
        },
        Expression::InfixOperation { lhs, rhs, .. } => {
            collect_expr(&**lhs, out);
            collect_chain(rhs, out);
        },
        Expression::Cast { into, expr, .. } => {
            collect_typed(into, true, out);
            collect_expr(&**expr, out);
        },
        Expression::UnaryPost { expr, .. } => {
            collect_expr(&**expr, out);
        },
        Expression::UnaryPre { expr, .. } => {
            collect_expr(&**expr, out);
        },
        Expression::StructInit { typed, fields, .. } => {
            collect_typed(typed, true, out);
            collect_inits(fields, out);
        },
        Expression::ArrayInit { fields, .. } => {
            collect_exprs(fields, out);
        },
        Expression::MacroCall { name, args, .. } => {
            out.push((name, false));
            proof {
                assert(uses_of(out@) =~= uses_of(old(out)@) + seq![(name@, false)]);
            }
            collect_exprs(args, out);
        },
    }
    proof {
        assert(uses_of(out@) =~= uses_of(old(out)@) + expr_uses(*e));
    }
}

fn collect_optional<'a>(e: &'a Option<Expression>, out: &mut Vec<(&'a Name, bool)>)
    ensures
        uses_of(final(out)@) == uses_of(old(out)@) + optional_uses(*e),
{
    match e {
        Some(x) => {
            collect_expr(x, out);
        },
        None => {
            proof {
                assert(uses_of(out@) =~= uses_of(old(out)@) + optional_uses(*e));
            }
        },
    }
}

fn collect_boxed<'a>(stmts: &'a Vec<Box<Statement>>, out: &mut Vec<(&'a Name, bool)>)
    ensures
        uses_of(final(out)@) == uses_of(old(out)@) + boxed_uses(stmts@, stmts@.len()),
    decreases stmts, 1nat,
{
    let mut i: usize = 0;
    proof {
        assert(uses_of(out@) =~= uses_of(old(out)@) + boxed_uses(stmts@, 0));
    }
    while i < stmts.len()
        invariant
            i <= stmts.len(),
            uses_of(out@) == uses_of(old(out)@) + boxed_uses(stmts@, i as nat),
        decreases stmts.len() - i,
    {
        collect_statement(&*stmts[i], out);
        proof {
            assert(uses_of(out@) =~= uses_of(old(out)@) + boxed_uses(stmts@, (i + 1) as nat));
        }
        i = i + 1;
    }
}

fn collect_block<'a>(b: &'a Block, out: &mut Vec<(&'a Name, bool)>)
    ensures
        uses_of(final(out)@) == uses_of(old(out)@) + block_uses(*b),
    decreases b, 1nat,
{
    let mut i: usize = 0;
    proof {
        assert(uses_of(out@) =~= uses_of(old(out)@) + stmts_uses(b.statements@, 0));
    }
    while i < b.statements.len()
        invariant
            i <= b.statements.len(),
            uses_of(out@) == uses_of(old(out)@) + stmts_uses(b.statements@, i as nat),
        decreases b.statements.len() - i,
    {
        collect_statement(&b.statements[i], out);
        proof {
            assert(uses_of(out@) =~= uses_of(old(out)@) + stmts_uses(
                b.statements@,
                (i + 1) as nat,
            ));
        }
        i = i + 1;
    }
}

/// Appends what a statement refers to; see [`stmt_uses`].
pub fn collect_statement<'a>(s: &'a Statement, out: &mut Vec<(&'a Name, bool)>)
    ensures
        uses_of(final(out)@) == uses_of(old(out)@) + stmt_uses(*s),
    decreases s, 0nat,
{
    match s {
        Statement::Mark { lhs, .. } => {
            collect_expr(lhs, out);
        },
        Statement::Label { .. } => {},
        Statement::Goto { .. } => {},
        Statement::Assign { lhs, rhs, .. } => {
            collect_expr(lhs, out);
            collect_expr(rhs, out);
        },
        Statement::Expr { expr, .. } => {
            collect_expr(expr, out);
        },
        Statement::Continue { .. } => {},
        Statement::Break { .. } => {},
        Statement::Return { expr, .. } => {
            collect_optional(expr, out);
        },
        Statement::Var { typed, array, assign, .. } => {
            collect_typed(typed, true, out);
            collect_optional(array, out);
            collect_optional(assign, out);
        },
        Statement::For { e1, e2, e3, body } => {
            collect_boxed(e1, out);
            collect_boxed(e2, out);
            collect_boxed(e3, out);
            collect_block(body, out);
        },
        Statement::Cond { expr, body, .. } => {
            collect_optional(expr, out);
            collect_block(body, out);
        },
        Statement::Block(b) => {
            collect_block(&**b, out);
        },
    }
    proof {
        assert(uses_of(out@) =~= uses_of(old(out)@) + stmt_uses(*s));
    }
}

fn collect_ret<'a>(ret: &'a Option<AnonArg>, out: &mut Vec<(&'a Name, bool)>)
    ensures
        uses_of(final(out)@) == uses_of(old(out)@) + ret_uses(*ret),
{
    match ret {
        Some(a) => {
            collect_typed(&a.typed, true, out);
        },
        None => {
            proof {
                assert(uses_of(out@) =~= uses_of(old(out)@) + ret_uses(*ret));
            }
        },
    }
}

fn collect_args<'a>(args: &'a Vec<NamedArg>, out: &mut Vec<(&'a Name, bool)>)
    ensures
        uses_of(final(out)@) == uses_of(old(out)@) + args_uses(args@, args@.len()),
{
    let mut i: usize = 0;
    proof {
        assert(uses_of(out@) =~= uses_of(old(out)@) + args_uses(args@, 0));
    }
    while i < args.len()
        invariant
            i <= args.len(),
            uses_of(out@) == uses_of(old(out)@) + args_uses(args@, i as nat),
        decreases args.len() - i,
    {
        collect_typed(&args[i].typed, true, out);
        proof {
            assert(uses_of(out@) =~= uses_of(old(out)@) + args_uses(args@, (i + 1) as nat));
        }
        i = i + 1;
    }
}

fn collect_fields<'a>(fields: &'a Vec<Field>, out: &mut Vec<(&'a Name, bool)>)
    ensures
        uses_of(final(out)@) == uses_of(old(out)@) + fields_uses(fields@, fields@.len()),
{
    let mut i: usize = 0;
    proof {
        assert(uses_of(out@) =~= uses_of(old(out)@) + fields_uses(fields@, 0));
    }
    while i < fields.len()
        invariant
            i <= fields.len(),
            uses_of(out@) == uses_of(old(out)@) + fields_uses(fields@, i as nat),
        decreases fields.len() - i,
    {
        let ghost before = uses_of(out@);
        collect_typed(&fields[i].typed, true, out);
        match &fields[i].array {
            Array::Sized(e) => {
                collect_expr(e, out);
            },
            _ => {},
        }
        proof {
            assert(uses_of(out@) =~= before + field_uses(fields@[i as int]));
            assert(uses_of(out@) =~= uses_of(old(out)@) + fields_uses(fields@, (i + 1) as nat));
        }
        i = i + 1;
    }
}

/// What a definition refers to; see [`def_uses`].
pub fn collect_def<'a>(d: &'a Def) -> (out: Vec<(&'a Name, bool)>)
    ensures
        uses_of(out@) == def_uses(*d),
{
    let mut out: Vec<(&'a Name, bool)> = Vec::new();
    proof {
        assert(uses_of(out@) =~= Seq::<Use>::empty());
    }
    match d {
        Def::Static { typed, expr, .. } => {
            collect_typed(typed, true, &mut out);
            collect_expr(expr, &mut out);
        },
        Def::Const { typed, expr } => {
            collect_typed(typed, true, &mut out);
            collect_expr(expr, &mut out);
        },
        Def::Function { ret, args, body, .. } => {
            collect_ret(ret, &mut out);
            collect_args(args, &mut out);
            collect_block(body, &mut out);
        },
        Def::Struct { fields, .. } => {
            collect_fields(fields, &mut out);
        },
        Def::Enum { .. } => {},
        Def::Closure { ret, args, .. } => {
            collect_ret(ret, &mut out);
            collect_args(args, &mut out);
        },
        Def::Macro { body, .. } => {
            collect_block(body, &mut out);
        },
    }
    proof {
        assert(uses_of(out@) =~= def_uses(*d));
    }
    out
}

} // verus!
