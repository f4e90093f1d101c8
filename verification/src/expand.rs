//! Macro expansion: the call-sites of a module, in the order in which they
//! stand, and the module in which each is replaced by what its macro gave.

use vstd::prelude::*;
use vstd::string::*;
use crate::ast::{
    same_block, tags_held, AnonArg, Array, Block, Def, Expression, Field, Import, Include,
    InfixOperator, Local, Location, Module, NamedArg, Pointer, Statement, Tags, Type, Typed,
    Visibility,
};
use crate::loader;
use crate::name::Name;
use crate::text::{copy_strings, strs};
use crate::makro::{
    block_has_call, boxed_have_call, chain_has_call, def_has_call, expr_has_call, exprs_have_call,
    field_has_call, fields_have_call, inits_have_call, locals_have_call, module_has_call,
    optional_has_call, stmt_has_call, stmts_have_call,
};

verus! {

/// The macro call-sites of an expression, left to right. What stands inside a
/// call-site belongs to it and is not listed again.
pub open spec fn expr_sites(e: Expression) -> Seq<Expression>
    decreases e, 0nat,
{
    match e {
        Expression::Name(_) => Seq::empty(),
        Expression::MemberAccess { lhs, .. } => expr_sites(*lhs),
        Expression::ArrayAccess { lhs, rhs, .. } => expr_sites(*lhs) + expr_sites(*rhs),
        Expression::Literal { .. } => Seq::empty(),
        Expression::LiteralString { .. } => Seq::empty(),
        Expression::LiteralChar { .. } => Seq::empty(),
        Expression::Call { args, .. } => exprs_sites(args@, args@.len()),
        Expression::InfixOperation { lhs, rhs, .. } => expr_sites(*lhs) + chain_sites(rhs@, rhs@.len()),
        Expression::Cast { expr, .. } => expr_sites(*expr),
        Expression::UnaryPost { expr, .. } => expr_sites(*expr),
        Expression::UnaryPre { expr, .. } => expr_sites(*expr),
        Expression::StructInit { fields, .. } => inits_sites(fields@, fields@.len()),
        Expression::ArrayInit { fields, .. } => exprs_sites(fields@, fields@.len()),
        Expression::MacroCall { .. } => seq![e],
    }
}

pub open spec fn exprs_sites(items: Seq<Box<Expression>>, n: nat) -> Seq<Expression>
    decreases items, n,
{
    if n == 0 || n > items.len() {
        Seq::empty()
    } else {
        exprs_sites(items, (n - 1) as nat) + expr_sites(*items[n - 1])
    }
}

pub open spec fn chain_sites(items: Seq<((InfixOperator, Location), Box<Expression>)>, n: nat) -> Seq<
    Expression,
>
    decreases items, n,
{
    if n == 0 || n > items.len() {
        Seq::empty()
    } else {
        chain_sites(items, (n - 1) as nat) + expr_sites(*items[n - 1].1)
    }
}

pub open spec fn inits_sites(items: Seq<(String, Box<Expression>)>, n: nat) -> Seq<Expression>
    decreases items, n,
{
    if n == 0 || n > items.len() {
        Seq::empty()
    } else {
        inits_sites(items, (n - 1) as nat) + expr_sites(*items[n - 1].1)
    }
}

pub open spec fn optional_sites(e: Option<Expression>) -> Seq<Expression> {
    match e {
        Some(x) => expr_sites(x),
        None => Seq::empty(),
    }
}

/// Whether `new` is `old` with its call-sites replaced: the first by
/// `outs[k]`, the next by `outs[k + 1]`, and so on. A call-site for which
/// `outs` holds nothing stays as it is.
pub open spec fn expr_expanded(outs: Seq<Expression>, k: int, old: Expression, new: Expression) -> bool
    decreases old, 0nat,
{
    match old {
        Expression::Name(_) => new == old,
        Expression::MemberAccess { loc, lhs, op, rhs } => new matches Expression::MemberAccess {
            loc: l2,
            lhs: h2,
            op: o2,
            rhs: r2,
        } && l2 == loc && o2 == op && r2 == rhs && expr_expanded(outs, k, *lhs, *h2),
        Expression::ArrayAccess { loc, lhs, rhs } => new matches Expression::ArrayAccess {
            loc: l2,
            lhs: h2,
            rhs: r2,
        } && l2 == loc && expr_expanded(outs, k, *lhs, *h2) && expr_expanded(
            outs,
            k + expr_sites(*lhs).len(),
            *rhs,
            *r2,
        ),
        Expression::Literal { .. } => new == old,
        Expression::LiteralString { .. } => new == old,
        Expression::LiteralChar { .. } => new == old,
        Expression::Call { loc, name, args } => new matches Expression::Call {
            loc: l2,
            name: n2,
            args: a2,
        } && l2 == loc && n2 == name && exprs_expanded(outs, k, args@, a2@),
        Expression::InfixOperation { loc, lhs, rhs } => new matches Expression::InfixOperation {
            loc: l2,
            lhs: h2,
            rhs: r2,
        } && l2 == loc && expr_expanded(outs, k, *lhs, *h2) && chain_expanded(
            outs,
            k + expr_sites(*lhs).len(),
            rhs@,
            r2@,
        ),
        Expression::Cast { loc, into, expr } => new matches Expression::Cast {
            loc: l2,
            into: i2,
            expr: e2,
        } && l2 == loc && i2 == into && expr_expanded(outs, k, *expr, *e2),
        Expression::UnaryPost { loc, op, expr } => new matches Expression::UnaryPost {
            loc: l2,
            op: o2,
            expr: e2,
        } && l2 == loc && o2 == op && expr_expanded(outs, k, *expr, *e2),
        Expression::UnaryPre { loc, op, expr } => new matches Expression::UnaryPre {
            loc: l2,
            op: o2,
            expr: e2,
        } && l2 == loc && o2 == op && expr_expanded(outs, k, *expr, *e2),
        Expression::StructInit { loc, typed, fields } => new matches Expression::StructInit {
            loc: l2,
            typed: t2,
            fields: f2,
        } && l2 == loc && t2 == typed && inits_expanded(outs, k, fields@, f2@),
        Expression::ArrayInit { loc, fields } => new matches Expression::ArrayInit {
            loc: l2,
            fields: f2,
        } && l2 == loc && exprs_expanded(outs, k, fields@, f2@),
        Expression::MacroCall { .. } => if 0 <= k < outs.len() {
            new == outs[k]
        } else {
            new == old
        },
    }
}

pub open spec fn exprs_expanded(
    outs: Seq<Expression>,
    k: int,
    old: Seq<Box<Expression>>,
    new: Seq<Box<Expression>>,
) -> bool
    decreases old, 1nat,
{
    old.len() == new.len() && forall|i: int|
        0 <= i < old.len() ==> expr_expanded(
            outs,
            k + exprs_sites(old, i as nat).len(),
            *old[i],
            *#[trigger] new[i],
        )
}

pub open spec fn chain_expanded(
    outs: Seq<Expression>,
    k: int,
    old: Seq<((InfixOperator, Location), Box<Expression>)>,
    new: Seq<((InfixOperator, Location), Box<Expression>)>,
) -> bool
    decreases old, 1nat,
{
    old.len() == new.len() && forall|i: int|
        0 <= i < old.len() ==> old[i].0 == (#[trigger] new[i]).0 && expr_expanded(
            outs,
            k + chain_sites(old, i as nat).len(),
            *old[i].1,
            *new[i].1,
        )
}

pub open spec fn inits_expanded(
    outs: Seq<Expression>,
    k: int,
    old: Seq<(String, Box<Expression>)>,
    new: Seq<(String, Box<Expression>)>,
) -> bool
    decreases old, 1nat,
{
    old.len() == new.len() && forall|i: int|
        0 <= i < old.len() ==> old[i].0 == (#[trigger] new[i]).0 && expr_expanded(
            outs,
            k + inits_sites(old, i as nat).len(),
            *old[i].1,
            *new[i].1,
        )
}

pub open spec fn optional_expanded(
    outs: Seq<Expression>,
    k: int,
    old: Option<Expression>,
    new: Option<Expression>,
) -> bool {
    match old {
        Some(x) => new is Some && expr_expanded(outs, k, x, new->Some_0),
        None => new is None,
    }
}

/// Whether `stack` holds what `outs` has from position `k` on, the next one
/// on top.
pub open spec fn queued(stack: Seq<Expression>, outs: Seq<Expression>, k: int) -> bool {
    &&& 0 <= k
    &&& stack.len() == (if k <= outs.len() {
        outs.len() - k
    } else {
        0
    })
    &&& forall|j: int| 0 <= j < stack.len() ==> stack[j] == outs[outs.len() - 1 - j]
}

fn expand_exprs(
    stack: &mut Vec<Expression>,
    items: Vec<Box<Expression>>,
    Ghost(outs): Ghost<Seq<Expression>>,
    Ghost(k): Ghost<int>,
) -> (new: Vec<Box<Expression>>)
    requires
        queued(old(stack)@, outs, k),
    ensures
        exprs_expanded(outs, k, items@, new@),
        queued(final(stack)@, outs, k + exprs_sites(items@, items@.len()).len()),
    decreases items, 1nat,
{
    let mut out: Vec<Box<Expression>> = Vec::new();
    for item in it: items
        invariant
            out@.len() == it.index(),
            it.seq() == items@,
            queued(stack@, outs, k + exprs_sites(items@, it.index() as nat).len()),
            forall|i: int|
                0 <= i < out@.len() ==> expr_expanded(
                    outs,
                    k + exprs_sites(items@, i as nat).len(),
                    *items@[i],
                    *#[trigger] out@[i],
                ),
    {
        let x = expand_expr(
            stack,
            *item,
            Ghost(outs),
            Ghost(k + exprs_sites(items@, it.index() as nat).len()),
        );
        out.push(Box::new(x));
    }
    out
}

fn expand_chain(
    stack: &mut Vec<Expression>,
    items: Vec<((InfixOperator, Location), Box<Expression>)>,
    Ghost(outs): Ghost<Seq<Expression>>,
    Ghost(k): Ghost<int>,
) -> (new: Vec<((InfixOperator, Location), Box<Expression>)>)
    requires
        queued(old(stack)@, outs, k),
    ensures
        chain_expanded(outs, k, items@, new@),
        queued(final(stack)@, outs, k + chain_sites(items@, items@.len()).len()),
    decreases items, 1nat,
{
    let mut out: Vec<((InfixOperator, Location), Box<Expression>)> = Vec::new();
    for item in it: items
        invariant
            out@.len() == it.index(),
            it.seq() == items@,
            queued(stack@, outs, k + chain_sites(items@, it.index() as nat).len()),
            forall|i: int|
                0 <= i < out@.len() ==> items@[i].0 == (#[trigger] out@[i]).0 && expr_expanded(
                    outs,
                    k + chain_sites(items@, i as nat).len(),
                    *items@[i].1,
                    *out@[i].1,
                ),
    {
        let (op, e) = item;
        let x = expand_expr(
            stack,
            *e,
            Ghost(outs),
            Ghost(k + chain_sites(items@, it.index() as nat).len()),
        );
        out.push((op, Box::new(x)));
    }
    out
}

fn expand_inits(
    stack: &mut Vec<Expression>,
    items: Vec<(String, Box<Expression>)>,
    Ghost(outs): Ghost<Seq<Expression>>,
    Ghost(k): Ghost<int>,
) -> (new: Vec<(String, Box<Expression>)>)
    requires
        queued(old(stack)@, outs, k),
    ensures
        inits_expanded(outs, k, items@, new@),
        queued(final(stack)@, outs, k + inits_sites(items@, items@.len()).len()),
    decreases items, 1nat,
{
    let mut out: Vec<(String, Box<Expression>)> = Vec::new();
    for item in it: items
        invariant
            out@.len() == it.index(),
            it.seq() == items@,
            queued(stack@, outs, k + inits_sites(items@, it.index() as nat).len()),
            forall|i: int|
                0 <= i < out@.len() ==> items@[i].0 == (#[trigger] out@[i]).0 && expr_expanded(
                    outs,
                    k + inits_sites(items@, i as nat).len(),
                    *items@[i].1,
                    *out@[i].1,
                ),
    {
        let (name, e) = item;
        let x = expand_expr(
            stack,
            *e,
            Ghost(outs),
            Ghost(k + inits_sites(items@, it.index() as nat).len()),
        );
        out.push((name, Box::new(x)));
    }
    out
}

/// Replaces the call-sites of an expression by what the stack holds, top
/// first; see [`expr_expanded`].
fn expand_expr(
    stack: &mut Vec<Expression>,
    e: Expression,
    Ghost(outs): Ghost<Seq<Expression>>,
    Ghost(k): Ghost<int>,
) -> (new: Expression)
    requires
        queued(old(stack)@, outs, k),
    ensures
        expr_expanded(outs, k, e, new),
        queued(final(stack)@, outs, k + expr_sites(e).len()),
    decreases e, 0nat,
{
    match e {
        Expression::Name(t) => Expression::Name(t),
        Expression::MemberAccess { loc, lhs, op, rhs } => {
            let l = expand_expr(stack, *lhs, Ghost(outs), Ghost(k));
            Expression::MemberAccess { loc, lhs: Box::new(l), op, rhs }
        },
        Expression::ArrayAccess { loc, lhs, rhs } => {
            let ghost mid = k + expr_sites(*lhs).len();
            let l = expand_expr(stack, *lhs, Ghost(outs), Ghost(k));
            let r = expand_expr(stack, *rhs, Ghost(outs), Ghost(mid));
            Expression::ArrayAccess { loc, lhs: Box::new(l), rhs: Box::new(r) }
        },
        Expression::Literal { loc, v } => Expression::Literal { loc, v },
        Expression::LiteralString { loc, v } => Expression::LiteralString { loc, v },
        Expression::LiteralChar { loc, v } => Expression::LiteralChar { loc, v },
        Expression::Call { loc, name, args } => {
            let args = expand_exprs(stack, args, Ghost(outs), Ghost(k));
            Expression::Call { loc, name, args }
        },
        Expression::InfixOperation { loc, lhs, rhs } => {
            let ghost mid = k + expr_sites(*lhs).len();
            let l = expand_expr(stack, *lhs, Ghost(outs), Ghost(k));
            let rhs = expand_chain(stack, rhs, Ghost(outs), Ghost(mid));
            Expression::InfixOperation { loc, lhs: Box::new(l), rhs }
        },
        Expression::Cast { loc, into, expr } => {
            let x = expand_expr(stack, *expr, Ghost(outs), Ghost(k));
            Expression::Cast { loc, into, expr: Box::new(x) }
        },
        Expression::UnaryPost { loc, op, expr } => {
            let x = expand_expr(stack, *expr, Ghost(outs), Ghost(k));
            Expression::UnaryPost { loc, op, expr: Box::new(x) }
        },
        Expression::UnaryPre { loc, op, expr } => {
            let x = expand_expr(stack, *expr, Ghost(outs), Ghost(k));
            Expression::UnaryPre { loc, op, expr: Box::new(x) }
        },
        Expression::StructInit { loc, typed, fields } => {
            let fields = expand_inits(stack, fields, Ghost(outs), Ghost(k));
            Expression::StructInit { loc, typed, fields }
        },
        Expression::ArrayInit { loc, fields } => {
            let fields = expand_exprs(stack, fields, Ghost(outs), Ghost(k));
            Expression::ArrayInit { loc, fields }
        },
        Expression::MacroCall { loc, name, args } => {
            match stack.pop() {
                Some(tree) => tree,
                None => Expression::MacroCall { loc, name, args },
            }
        },
    }
}

fn expand_optional(
    stack: &mut Vec<Expression>,
    e: Option<Expression>,
    Ghost(outs): Ghost<Seq<Expression>>,
    Ghost(k): Ghost<int>,
) -> (new: Option<Expression>)
    requires
        queued(old(stack)@, outs, k),
    ensures
        optional_expanded(outs, k, e, new),
        queued(final(stack)@, outs, k + optional_sites(e).len()),
{
    match e {
        Some(x) => Some(expand_expr(stack, x, Ghost(outs), Ghost(k))),
        None => None,
    }
}

/// The macro call-sites of a statement, in the order in which they stand.
pub open spec fn stmt_sites(s: Statement) -> Seq<Expression>
    decreases s, 0nat,
{
    match s {
        Statement::Mark { lhs, .. } => expr_sites(lhs),
        Statement::Label { .. } => Seq::empty(),
        Statement::Goto { .. } => Seq::empty(),
        Statement::Assign { lhs, rhs, .. } => expr_sites(lhs) + expr_sites(rhs),
        Statement::Expr { expr, .. } => expr_sites(expr),
        Statement::Continue { .. } => Seq::empty(),
        Statement::Break { .. } => Seq::empty(),
        Statement::Return { expr, .. } => optional_sites(expr),
        Statement::Var { array, assign, .. } => optional_sites(array) + optional_sites(assign),
        Statement::For { e1, e2, e3, body } => boxed_sites(e1@, e1@.len()) + boxed_sites(e2@, e2@.len())
            + boxed_sites(e3@, e3@.len()) + block_sites(body),
        Statement::Cond { expr, body, .. } => optional_sites(expr) + block_sites(body),
        Statement::Block(b) => block_sites(*b),
    }
}

pub open spec fn block_sites(b: Block) -> Seq<Expression>
    decreases b, 0nat,
{
    stmts_sites(b.statements@, b.statements@.len())
}

pub open spec fn stmts_sites(stmts: Seq<Statement>, n: nat) -> Seq<Expression>
    decreases stmts, n,
{
    if n == 0 || n > stmts.len() {
        Seq::empty()
    } else {
        stmts_sites(stmts, (n - 1) as nat) + stmt_sites(stmts[n - 1])
    }
}

pub open spec fn boxed_sites(stmts: Seq<Box<Statement>>, n: nat) -> Seq<Expression>
    decreases stmts, n,
{
    if n == 0 || n > stmts.len() {
        Seq::empty()
    } else {
        boxed_sites(stmts, (n - 1) as nat) + stmt_sites(*stmts[n - 1])
    }
}

pub open spec fn field_sites(f: Field) -> Seq<Expression> {
    match f.array {
        Array::Sized(e) => expr_sites(e),
        _ => Seq::empty(),
    }
}

pub open spec fn fields_sites(fields: Seq<Field>, n: nat) -> Seq<Expression>
    decreases n,
{
    if n == 0 || n > fields.len() {
        Seq::empty()
    } else {
        fields_sites(fields, (n - 1) as nat) + field_sites(fields[n - 1])
    }
}

/// The macro call-sites of a definition.
pub open spec fn def_sites(d: Def) -> Seq<Expression> {
    match d {
        Def::Static { expr, .. } => expr_sites(expr),
        Def::Const { expr, .. } => expr_sites(expr),
        Def::Function { body, .. } => block_sites(body),
        Def::Struct { fields, .. } => fields_sites(fields@, fields@.len()),
        Def::Enum { .. } => Seq::empty(),
        Def::Closure { .. } => Seq::empty(),
        Def::Macro { body, .. } => block_sites(body),
    }
}

pub open spec fn locals_sites(locals: Seq<Local>, n: nat) -> Seq<Expression>
    decreases n,
{
    if n == 0 || n > locals.len() {
        Seq::empty()
    } else {
        locals_sites(locals, (n - 1) as nat) + def_sites(locals[n - 1].def)
    }
}

/// The macro call-sites of a module: those of its definitions, in order.
pub open spec fn module_sites(m: Module) -> Seq<Expression> {
    locals_sites(m.locals@, m.locals@.len())
}

/// Whether `new` is the statement `old` with its call-sites replaced by
/// `outs[k]`, `outs[k + 1]` and so on.
pub open spec fn stmt_expanded(outs: Seq<Expression>, k: int, old: Statement, new: Statement) -> bool
    decreases old, 0nat,
{
    match old {
        Statement::Mark { lhs, loc, key, value } => new matches Statement::Mark {
            lhs: h2,
            loc: l2,
            key: k2,
            value: v2,
        } && l2 == loc && k2 == key && v2 == value && expr_expanded(outs, k, lhs, h2),
        Statement::Label { .. } => new == old,
        Statement::Goto { .. } => new == old,
        Statement::Assign { loc, lhs, op, rhs } => new matches Statement::Assign {
            loc: l2,
            lhs: h2,
            op: o2,
            rhs: r2,
        } && l2 == loc && o2 == op && expr_expanded(outs, k, lhs, h2) && expr_expanded(
            outs,
            k + expr_sites(lhs).len(),
            rhs,
            r2,
        ),
        Statement::Expr { loc, expr } => new matches Statement::Expr { loc: l2, expr: e2 } && l2
            == loc && expr_expanded(outs, k, expr, e2),
        Statement::Continue { .. } => new == old,
        Statement::Break { .. } => new == old,
        Statement::Return { loc, expr } => new matches Statement::Return { loc: l2, expr: e2 }
            && l2 == loc && optional_expanded(outs, k, expr, e2),
        Statement::Var { loc, typed, tags, name, array, assign } => new matches Statement::Var {
            loc: l2,
            typed: t2,
            tags: g2,
            name: n2,
            array: a2,
            assign: sg2,
        } && l2 == loc && t2 == typed && g2 == tags && n2 == name && optional_expanded(
            outs,
            k,
            array,
            a2,
        ) && optional_expanded(outs, k + optional_sites(array).len(), assign, sg2),
        Statement::For { e1, e2, e3, body } => new matches Statement::For {
            e1: a1,
            e2: a2,
            e3: a3,
            body: b2,
        } && boxed_expanded(outs, k, e1@, a1@) && boxed_expanded(
            outs,
            k + boxed_sites(e1@, e1@.len()).len(),
            e2@,
            a2@,
        ) && boxed_expanded(
            outs,
            k + boxed_sites(e1@, e1@.len()).len() + boxed_sites(e2@, e2@.len()).len(),
            e3@,
            a3@,
        ) && block_expanded(
            outs,
            k + boxed_sites(e1@, e1@.len()).len() + boxed_sites(e2@, e2@.len()).len() + boxed_sites(
                e3@,
                e3@.len(),
            ).len(),
            body,
            b2,
        ),
        Statement::Cond { op, expr, body } => new matches Statement::Cond {
            op: o2,
            expr: e2,
            body: b2,
        } && o2 == op && optional_expanded(outs, k, expr, e2) && block_expanded(
            outs,
            k + optional_sites(expr).len(),
            body,
            b2,
        ),
        Statement::Block(b) => new is Block && block_expanded(outs, k, *b, *new->Block_0),
    }
}

pub open spec fn block_expanded(outs: Seq<Expression>, k: int, old: Block, new: Block) -> bool
    decreases old, 0nat,
{
    new.end == old.end && stmts_expanded(outs, k, old.statements@, new.statements@)
}

pub open spec fn stmts_expanded(outs: Seq<Expression>, k: int, old: Seq<Statement>, new: Seq<Statement>) -> bool
    decreases old, 1nat,
{
    old.len() == new.len() && forall|i: int|
        0 <= i < old.len() ==> stmt_expanded(
            outs,
            k + stmts_sites(old, i as nat).len(),
            old[i],
            #[trigger] new[i],
        )
}

pub open spec fn boxed_expanded(
    outs: Seq<Expression>,
    k: int,
    old: Seq<Box<Statement>>,
    new: Seq<Box<Statement>>,
) -> bool
    decreases old, 1nat,
{
    old.len() == new.len() && forall|i: int|
        0 <= i < old.len() ==> stmt_expanded(
            outs,
            k + boxed_sites(old, i as nat).len(),
            *old[i],
            *#[trigger] new[i],
        )
}

pub open spec fn field_expanded(outs: Seq<Expression>, k: int, old: Field, new: Field) -> bool {
    new.typed == old.typed && new.name == old.name && new.tags == old.tags && new.loc == old.loc && (
    match old.array {
        Array::Sized(e) => new.array is Sized && expr_expanded(outs, k, e, new.array->Sized_0),
        Array::Absent => new.array is Absent,
        Array::Unsized => new.array is Unsized,
    })
}

pub open spec fn fields_expanded(outs: Seq<Expression>, k: int, old: Seq<Field>, new: Seq<Field>) -> bool {
    old.len() == new.len() && forall|i: int|
        0 <= i < old.len() ==> field_expanded(
            outs,
            k + fields_sites(old, i as nat).len(),
            old[i],
            #[trigger] new[i],
        )
}

/// Whether `new` is the definition `old` with its call-sites replaced.
pub open spec fn def_expanded(outs: Seq<Expression>, k: int, old: Def, new: Def) -> bool {
    match old {
        Def::Static { tags, typed, expr, storage } => new matches Def::Static {
            tags: g2,
            typed: t2,
            expr: e2,
            storage: sg2,
        } && g2 == tags && t2 == typed && sg2 == storage && expr_expanded(outs, k, expr, e2),
        Def::Const { typed, expr } => new matches Def::Const { typed: t2, expr: e2 } && t2 == typed
            && expr_expanded(outs, k, expr, e2),
        Def::Function { ret, args, body, vararg } => new matches Def::Function {
            ret: r2,
            args: a2,
            body: b2,
            vararg: v2,
        } && r2 == ret && a2 == args && v2 == vararg && block_expanded(outs, k, body, b2),
        Def::Struct { fields, packed, tail, union } => new matches Def::Struct {
            fields: f2,
            packed: pk2,
            tail: t2,
            union: u2,
        } && pk2 == packed && t2 == tail && u2 == union && fields_expanded(outs, k, fields@, f2@),
        Def::Enum { .. } => new == old,
        Def::Closure { .. } => new == old,
        Def::Macro { args, body } => new matches Def::Macro { args: a2, body: b2 } && a2 == args
            && block_expanded(outs, k, body, b2),
    }
}

pub open spec fn local_expanded(outs: Seq<Expression>, k: int, old: Local, new: Local) -> bool {
    new.name == old.name && new.export_as == old.export_as && new.vis == old.vis && new.loc
        == old.loc && def_expanded(outs, k, old.def, new.def)
}

pub open spec fn locals_expanded(outs: Seq<Expression>, old: Seq<Local>, new: Seq<Local>) -> bool {
    old.len() == new.len() && forall|i: int|
        0 <= i < old.len() ==> local_expanded(
            outs,
            locals_sites(old, i as nat).len() as int,
            old[i],
            #[trigger] new[i],
        )
}

/// Whether `new` is the module `old` with its call-sites replaced, the first
/// by `outs[0]`, the next by `outs[1]`, and so on; nothing else differs.
pub open spec fn module_expanded(outs: Seq<Expression>, old: Module, new: Module) -> bool {
    new.name == old.name && new.source == old.source && new.imports == old.imports && new.includes
        == old.includes && new.sources == old.sources && new.aliases == old.aliases
        && locals_expanded(outs, old.locals@, new.locals@)
}

fn expand_boxed(
    stack: &mut Vec<Expression>,
    stmts: Vec<Box<Statement>>,
    Ghost(outs): Ghost<Seq<Expression>>,
    Ghost(k): Ghost<int>,
) -> (new: Vec<Box<Statement>>)
    requires
        queued(old(stack)@, outs, k),
    ensures
        boxed_expanded(outs, k, stmts@, new@),
        queued(final(stack)@, outs, k + boxed_sites(stmts@, stmts@.len()).len()),
    decreases stmts, 1nat,
{
    let mut out: Vec<Box<Statement>> = Vec::new();
    for item in it: stmts
        invariant
            out@.len() == it.index(),
            it.seq() == stmts@,
            queued(stack@, outs, k + boxed_sites(stmts@, it.index() as nat).len()),
            forall|i: int|
                0 <= i < out@.len() ==> stmt_expanded(
                    outs,
                    k + boxed_sites(stmts@, i as nat).len(),
                    *stmts@[i],
                    *#[trigger] out@[i],
                ),
    {
        let x = expand_statement(
            stack,
            *item,
            Ghost(outs),
            Ghost(k + boxed_sites(stmts@, it.index() as nat).len()),
        );
        out.push(Box::new(x));
    }
    out
}

fn expand_block(
    stack: &mut Vec<Expression>,
    b: Block,
    Ghost(outs): Ghost<Seq<Expression>>,
    Ghost(k): Ghost<int>,
) -> (new: Block)
    requires
        queued(old(stack)@, outs, k),
    ensures
        block_expanded(outs, k, b, new),
        queued(final(stack)@, outs, k + block_sites(b).len()),
    decreases b, 1nat,
{
    let Block { end, statements } = b;
    let mut out: Vec<Statement> = Vec::new();
    for item in it: statements
        invariant
            out@.len() == it.index(),
            it.seq() == statements@,
            statements == b.statements,
            queued(stack@, outs, k + stmts_sites(statements@, it.index() as nat).len()),
            forall|i: int|
                0 <= i < out@.len() ==> stmt_expanded(
                    outs,
                    k + stmts_sites(statements@, i as nat).len(),
                    statements@[i],
                    #[trigger] out@[i],
                ),
    {
        let x = expand_statement(
            stack,
            item,
            Ghost(outs),
            Ghost(k + stmts_sites(statements@, it.index() as nat).len()),
        );
        out.push(x);
    }
    Block { end, statements: out }
}

/// Replaces the call-sites of a statement by what the stack holds, top first;
/// see [`stmt_expanded`].
fn expand_statement(
    stack: &mut Vec<Expression>,
    s: Statement,
    Ghost(outs): Ghost<Seq<Expression>>,
    Ghost(k): Ghost<int>,
) -> (new: Statement)
    requires
        queued(old(stack)@, outs, k),
    ensures
        stmt_expanded(outs, k, s, new),
        queued(final(stack)@, outs, k + stmt_sites(s).len()),
    decreases s, 0nat,
{
    match s {
        Statement::Mark { lhs, loc, key, value } => {
            let lhs = expand_expr(stack, lhs, Ghost(outs), Ghost(k));
            Statement::Mark { lhs, loc, key, value }
        },
        Statement::Label { loc, label } => Statement::Label { loc, label },
        Statement::Goto { loc, label } => Statement::Goto { loc, label },
        Statement::Assign { loc, lhs, op, rhs } => {
            let ghost mid = k + expr_sites(lhs).len();
            let lhs = expand_expr(stack, lhs, Ghost(outs), Ghost(k));
            let rhs = expand_expr(stack, rhs, Ghost(outs), Ghost(mid));
            Statement::Assign { loc, lhs, op, rhs }
        },
        Statement::Expr { loc, expr } => {
            let expr = expand_expr(stack, expr, Ghost(outs), Ghost(k));
            Statement::Expr { loc, expr }
        },
        Statement::Continue { loc } => Statement::Continue { loc },
        Statement::Break { loc } => Statement::Break { loc },
        Statement::Return { loc, expr } => {
            let expr = expand_optional(stack, expr, Ghost(outs), Ghost(k));
            Statement::Return { loc, expr }
        },
        Statement::Var { loc, typed, tags, name, array, assign } => {
            let ghost mid = k + optional_sites(array).len();
            let array = expand_optional(stack, array, Ghost(outs), Ghost(k));
            let assign = expand_optional(stack, assign, Ghost(outs), Ghost(mid));
            Statement::Var { loc, typed, tags, name, array, assign }
        },
        Statement::For { e1, e2, e3, body } => {
            let ghost k1 = k + boxed_sites(e1@, e1@.len()).len();
            let ghost k2 = k1 + boxed_sites(e2@, e2@.len()).len();
            let ghost k3 = k2 + boxed_sites(e3@, e3@.len()).len();
            let e1 = expand_boxed(stack, e1, Ghost(outs), Ghost(k));
            let e2 = expand_boxed(stack, e2, Ghost(outs), Ghost(k1));
            let e3 = expand_boxed(stack, e3, Ghost(outs), Ghost(k2));
            let body = expand_block(stack, body, Ghost(outs), Ghost(k3));
            Statement::For { e1, e2, e3, body }
        },
        Statement::Cond { op, expr, body } => {
            let ghost mid = k + optional_sites(expr).len();
            let expr = expand_optional(stack, expr, Ghost(outs), Ghost(k));
            let body = expand_block(stack, body, Ghost(outs), Ghost(mid));
            Statement::Cond { op, expr, body }
        },
        Statement::Block(b) => {
            let b = expand_block(stack, *b, Ghost(outs), Ghost(k));
            Statement::Block(Box::new(b))
        },
    }
}

fn expand_fields(
    stack: &mut Vec<Expression>,
    fields: Vec<Field>,
    Ghost(outs): Ghost<Seq<Expression>>,
    Ghost(k): Ghost<int>,
) -> (new: Vec<Field>)
    requires
        queued(old(stack)@, outs, k),
    ensures
        fields_expanded(outs, k, fields@, new@),
        queued(final(stack)@, outs, k + fields_sites(fields@, fields@.len()).len()),
{
    let mut out: Vec<Field> = Vec::new();
    for item in it: fields
        invariant
            out@.len() == it.index(),
            it.seq() == fields@,
            queued(stack@, outs, k + fields_sites(fields@, it.index() as nat).len()),
            forall|i: int|
                0 <= i < out@.len() ==> field_expanded(
                    outs,
                    k + fields_sites(fields@, i as nat).len(),
                    fields@[i],
                    #[trigger] out@[i],
                ),
    {
        let Field { typed, name, array, tags, loc } = item;
        let array = match array {
            Array::Sized(e) => Array::Sized(
                expand_expr(
                    stack,
                    e,
                    Ghost(outs),
                    Ghost(k + fields_sites(fields@, it.index() as nat).len()),
                ),
            ),
            Array::Absent => Array::Absent,
            Array::Unsized => Array::Unsized,
        };
        out.push(Field { typed, name, array, tags, loc });
    }
    out
}

fn expand_def(
    stack: &mut Vec<Expression>,
    d: Def,
    Ghost(outs): Ghost<Seq<Expression>>,
    Ghost(k): Ghost<int>,
) -> (new: Def)
    requires
        queued(old(stack)@, outs, k),
    ensures
        def_expanded(outs, k, d, new),
        queued(final(stack)@, outs, k + def_sites(d).len()),
{
    match d {
        Def::Static { tags, typed, expr, storage } => {
            let expr = expand_expr(stack, expr, Ghost(outs), Ghost(k));
            Def::Static { tags, typed, expr, storage }
        },
        Def::Const { typed, expr } => {
            let expr = expand_expr(stack, expr, Ghost(outs), Ghost(k));
            Def::Const { typed, expr }
        },
        Def::Function { ret, args, body, vararg } => {
            let body = expand_block(stack, body, Ghost(outs), Ghost(k));
            Def::Function { ret, args, body, vararg }
        },
        Def::Struct { fields, packed, tail, union } => {
            let fields = expand_fields(stack, fields, Ghost(outs), Ghost(k));
            Def::Struct { fields, packed, tail, union }
        },
        Def::Enum { names } => Def::Enum { names },
        Def::Closure { ret, args, attr } => Def::Closure { ret, args, attr },
        Def::Macro { args, body } => {
            let body = expand_block(stack, body, Ghost(outs), Ghost(k));
            Def::Macro { args, body }
        },
    }
}

/// The module with each of its macro call-sites replaced by what the macro
/// gave for it: the first by `outs[0]`, the next by `outs[1]`, and so on, in
/// the order of [`module_sites`]. Call-sites beyond the end of `outs` stay as
/// they are; see [`module_expanded`].
pub fn expand(module: Module, outs: Vec<Expression>) -> (new: Module)
    ensures
        module_expanded(outs@, module, new),
{
    let ghost given = outs@;
    let mut rest = outs;
    let mut stack: Vec<Expression> = Vec::new();
    while rest.len() > 0
        invariant
            rest@.len() + stack@.len() == given.len(),
            forall|j: int| 0 <= j < rest@.len() ==> rest@[j] == given[j],
            forall|j: int| 0 <= j < stack@.len() ==> stack@[j] == given[given.len() - 1 - j],
        decreases rest@.len(),
    {
        match rest.pop() {
            Some(tree) => stack.push(tree),
            None => {},
        }
    }
    let Module { name, source, locals, imports, includes, sources, aliases } = module;
    let mut out: Vec<Local> = Vec::new();
    for item in it: locals
        invariant
            out@.len() == it.index(),
            it.seq() == locals@,
            locals == module.locals,
            queued(stack@, given, locals_sites(locals@, it.index() as nat).len() as int),
            forall|i: int|
                0 <= i < out@.len() ==> local_expanded(
                    given,
                    locals_sites(locals@, i as nat).len() as int,
                    locals@[i],
                    #[trigger] out@[i],
                ),
    {
        let Local { name, export_as, vis, loc, def } = item;
        let def = expand_def(
            &mut stack,
            def,
            Ghost(given),
            Ghost(locals_sites(locals@, it.index() as nat).len() as int),
        );
        out.push(Local { name, export_as, vis, loc, def });
    }
    Module { name, source, locals: out, imports, includes, sources, aliases }
}

proof fn lemma_exprs_sites(items: Seq<Box<Expression>>, n: nat)
    ensures
        exprs_have_call(items, n) == (exprs_sites(items, n).len() > 0),
    decreases items, n,
{
    if n == 0 || n > items.len() {
    } else {
        lemma_exprs_sites(items, (n - 1) as nat);
        lemma_expr_sites(*items[n - 1]);
    }
}

proof fn lemma_chain_sites(items: Seq<((InfixOperator, Location), Box<Expression>)>, n: nat)
    ensures
        chain_has_call(items, n) == (chain_sites(items, n).len() > 0),
    decreases items, n,
{
    if n == 0 || n > items.len() {
    } else {
        lemma_chain_sites(items, (n - 1) as nat);
        lemma_expr_sites(*items[n - 1].1);
    }
}

proof fn lemma_inits_sites(items: Seq<(String, Box<Expression>)>, n: nat)
    ensures
        inits_have_call(items, n) == (inits_sites(items, n).len() > 0),
    decreases items, n,
{
    if n == 0 || n > items.len() {
    } else {
        lemma_inits_sites(items, (n - 1) as nat);
        lemma_expr_sites(*items[n - 1].1);
    }
}

proof fn lemma_stmts_sites(items: Seq<Statement>, n: nat)
    ensures
        stmts_have_call(items, n) == (stmts_sites(items, n).len() > 0),
    decreases items, n,
{
    if n == 0 || n > items.len() {
    } else {
        lemma_stmts_sites(items, (n - 1) as nat);
        lemma_stmt_sites(items[n - 1]);
    }
}

proof fn lemma_boxed_sites(items: Seq<Box<Statement>>, n: nat)
    ensures
        boxed_have_call(items, n) == (boxed_sites(items, n).len() > 0),
    decreases items, n,
{
    if n == 0 || n > items.len() {
    } else {
        lemma_boxed_sites(items, (n - 1) as nat);
        lemma_stmt_sites(*items[n - 1]);
    }
}

proof fn lemma_fields_sites(items: Seq<Field>, n: nat)
    ensures
        fields_have_call(items, n) == (fields_sites(items, n).len() > 0),
    decreases n,
{
    if n == 0 || n > items.len() {
    } else {
        lemma_fields_sites(items, (n - 1) as nat);
        lemma_field_sites(items[n - 1]);
    }
}

proof fn lemma_locals_sites(items: Seq<Local>, n: nat)
    ensures
        locals_have_call(items, n) == (locals_sites(items, n).len() > 0),
    decreases n,
{
    if n == 0 || n > items.len() {
    } else {
        lemma_locals_sites(items, (n - 1) as nat);
        lemma_def_sites(items[n - 1].def);
    }
}

/// An expression holds a call-site iff it has one to list.
pub proof fn lemma_expr_sites(e: Expression)
    ensures
        expr_has_call(e) == (expr_sites(e).len() > 0),
    decreases e, 0nat,
{
    match e {
        Expression::Name(_) => {},
        Expression::MemberAccess { lhs, .. } => lemma_expr_sites(*lhs),
        Expression::ArrayAccess { lhs, rhs, .. } => {
            lemma_expr_sites(*lhs);
            lemma_expr_sites(*rhs);
        },
        Expression::Literal { .. } => {},
        Expression::LiteralString { .. } => {},
        Expression::LiteralChar { .. } => {},
        Expression::Call { args, .. } => lemma_exprs_sites(args@, args@.len()),
        Expression::InfixOperation { lhs, rhs, .. } => {
            lemma_expr_sites(*lhs);
            lemma_chain_sites(rhs@, rhs@.len());
        },
        Expression::Cast { expr, .. } => lemma_expr_sites(*expr),
        Expression::UnaryPost { expr, .. } => lemma_expr_sites(*expr),
        Expression::UnaryPre { expr, .. } => lemma_expr_sites(*expr),
        Expression::StructInit { fields, .. } => lemma_inits_sites(fields@, fields@.len()),
        Expression::ArrayInit { fields, .. } => lemma_exprs_sites(fields@, fields@.len()),
        Expression::MacroCall { .. } => {},
    }
}

proof fn lemma_optional_sites(e: Option<Expression>)
    ensures
        optional_has_call(e) == (optional_sites(e).len() > 0),
{
    if let Some(x) = e {
        lemma_expr_sites(x);
    }
}

proof fn lemma_stmt_sites(s: Statement)
    ensures
        stmt_has_call(s) == (stmt_sites(s).len() > 0),
    decreases s, 0nat,
{
    match s {
        Statement::Mark { lhs, .. } => lemma_expr_sites(lhs),
        Statement::Label { .. } => {},
        Statement::Goto { .. } => {},
        Statement::Assign { lhs, rhs, .. } => {
            lemma_expr_sites(lhs);
            lemma_expr_sites(rhs);
        },
        Statement::Expr { expr, .. } => lemma_expr_sites(expr),
        Statement::Continue { .. } => {},
        Statement::Break { .. } => {},
        Statement::Return { expr, .. } => lemma_optional_sites(expr),
        Statement::Var { array, assign, .. } => {
            lemma_optional_sites(array);
            lemma_optional_sites(assign);
        },
        Statement::For { e1, e2, e3, body } => {
            lemma_boxed_sites(e1@, e1@.len());
            lemma_boxed_sites(e2@, e2@.len());
            lemma_boxed_sites(e3@, e3@.len());
            lemma_block_sites(body);
        },
        Statement::Cond { expr, body, .. } => {
            lemma_optional_sites(expr);
            lemma_block_sites(body);
        },
        Statement::Block(b) => lemma_block_sites(*b),
    }
}

proof fn lemma_block_sites(b: Block)
    ensures
        block_has_call(b) == (block_sites(b).len() > 0),
    decreases b, 0nat,
{
    lemma_stmts_sites(b.statements@, b.statements@.len());
}

proof fn lemma_field_sites(f: Field)
    ensures
        field_has_call(f) == (field_sites(f).len() > 0),
{
    if let Array::Sized(e) = f.array {
        lemma_expr_sites(e);
    }
}

proof fn lemma_def_sites(d: Def)
    ensures
        def_has_call(d) == (def_sites(d).len() > 0),
{
    match d {
        Def::Static { expr, .. } => lemma_expr_sites(expr),
        Def::Const { expr, .. } => lemma_expr_sites(expr),
        Def::Function { body, .. } => lemma_block_sites(body),
        Def::Struct { fields, .. } => lemma_fields_sites(fields@, fields@.len()),
        Def::Enum { .. } => {},
        Def::Closure { .. } => {},
        Def::Macro { body, .. } => lemma_block_sites(body),
    }
}

/// A module holds a call-site iff it has one to list.
pub proof fn lemma_module_sites(m: Module)
    ensures
        module_has_call(m) == (module_sites(m).len() > 0),
{
    lemma_locals_sites(m.locals@, m.locals@.len());
}

/// Whether none of the trees holds a macro call-site.
pub open spec fn closed(outs: Seq<Expression>) -> bool {
    forall|i: int| 0 <= i < outs.len() ==> expr_sites(#[trigger] outs[i]).len() == 0
}

/// How many of `c` call-sites, the first of which is number `k`, have a
/// number of `total` or more.
pub open spec fn beyond(total: int, k: int, c: int) -> int {
    if k >= total {
        c
    } else if k + c <= total {
        0
    } else {
        k + c - total
    }
}

proof fn lemma_exprs_left(outs: Seq<Expression>, k: int, old: Seq<Box<Expression>>, new: Seq<Box<Expression>>, n: nat)
    requires
        0 <= k,
        closed(outs),
        exprs_expanded(outs, k, old, new),
        n <= old.len(),
    ensures
        exprs_sites(new, n).len() == beyond(outs.len() as int, k, exprs_sites(old, n).len() as int),
        new.len() == old.len(),
    decreases old, n,
{
    if n > 0 {
        lemma_exprs_left(outs, k, old, new, (n - 1) as nat);
        assert(expr_expanded(outs, k + exprs_sites(old, (n - 1) as nat).len(), *old[n - 1], *new[n - 1]));
        lemma_expr_left(outs, k + exprs_sites(old, (n - 1) as nat).len(), *old[n - 1], *new[n - 1]);
    }
}

proof fn lemma_chain_left(outs: Seq<Expression>, k: int, old: Seq<((InfixOperator, Location), Box<Expression>)>, new: Seq<((InfixOperator, Location), Box<Expression>)>, n: nat)
    requires
        0 <= k,
        closed(outs),
        chain_expanded(outs, k, old, new),
        n <= old.len(),
    ensures
        chain_sites(new, n).len() == beyond(outs.len() as int, k, chain_sites(old, n).len() as int),
        new.len() == old.len(),
    decreases old, n,
{
    if n > 0 {
        lemma_chain_left(outs, k, old, new, (n - 1) as nat);
        assert(expr_expanded(outs, k + chain_sites(old, (n - 1) as nat).len(), *old[n - 1].1, *new[n - 1].1));
        lemma_expr_left(outs, k + chain_sites(old, (n - 1) as nat).len(), *old[n - 1].1, *new[n - 1].1);
    }
}

proof fn lemma_inits_left(outs: Seq<Expression>, k: int, old: Seq<(String, Box<Expression>)>, new: Seq<(String, Box<Expression>)>, n: nat)
    requires
        0 <= k,
        closed(outs),
        inits_expanded(outs, k, old, new),
        n <= old.len(),
    ensures
        inits_sites(new, n).len() == beyond(outs.len() as int, k, inits_sites(old, n).len() as int),
        new.len() == old.len(),
    decreases old, n,
{
    if n > 0 {
        lemma_inits_left(outs, k, old, new, (n - 1) as nat);
        assert(expr_expanded(outs, k + inits_sites(old, (n - 1) as nat).len(), *old[n - 1].1, *new[n - 1].1));
        lemma_expr_left(outs, k + inits_sites(old, (n - 1) as nat).len(), *old[n - 1].1, *new[n - 1].1);
    }
}

proof fn lemma_stmts_left(outs: Seq<Expression>, k: int, old: Seq<Statement>, new: Seq<Statement>, n: nat)
    requires
        0 <= k,
        closed(outs),
        stmts_expanded(outs, k, old, new),
        n <= old.len(),
    ensures
        stmts_sites(new, n).len() == beyond(outs.len() as int, k, stmts_sites(old, n).len() as int),
        new.len() == old.len(),
    decreases old, n,
{
    if n > 0 {
        lemma_stmts_left(outs, k, old, new, (n - 1) as nat);
        assert(stmt_expanded(outs, k + stmts_sites(old, (n - 1) as nat).len(), old[n - 1], new[n - 1]));
        lemma_stmt_left(outs, k + stmts_sites(old, (n - 1) as nat).len(), old[n - 1], new[n - 1]);
    }
}

proof fn lemma_boxed_left(outs: Seq<Expression>, k: int, old: Seq<Box<Statement>>, new: Seq<Box<Statement>>, n: nat)
    requires
        0 <= k,
        closed(outs),
        boxed_expanded(outs, k, old, new),
        n <= old.len(),
    ensures
        boxed_sites(new, n).len() == beyond(outs.len() as int, k, boxed_sites(old, n).len() as int),
        new.len() == old.len(),
    decreases old, n,
{
    if n > 0 {
        lemma_boxed_left(outs, k, old, new, (n - 1) as nat);
        assert(stmt_expanded(outs, k + boxed_sites(old, (n - 1) as nat).len(), *old[n - 1], *new[n - 1]));
        lemma_stmt_left(outs, k + boxed_sites(old, (n - 1) as nat).len(), *old[n - 1], *new[n - 1]);
    }
}

proof fn lemma_fields_left(outs: Seq<Expression>, k: int, old: Seq<Field>, new: Seq<Field>, n: nat)
    requires
        0 <= k,
        closed(outs),
        fields_expanded(outs, k, old, new),
        n <= old.len(),
    ensures
        fields_sites(new, n).len() == beyond(outs.len() as int, k, fields_sites(old, n).len() as int),
        new.len() == old.len(),
    decreases n,
{
    if n > 0 {
        lemma_fields_left(outs, k, old, new, (n - 1) as nat);
        assert(field_expanded(outs, k + fields_sites(old, (n - 1) as nat).len(), old[n - 1], new[n - 1]));
        lemma_field_left(outs, k + fields_sites(old, (n - 1) as nat).len(), old[n - 1], new[n - 1]);
    }
}

/// Of the call-sites of an expression, those stay that `outs` holds nothing
/// for, where no tree of `outs` holds a call-site itself.
proof fn lemma_expr_left(outs: Seq<Expression>, k: int, old: Expression, new: Expression)
    requires
        0 <= k,
        closed(outs),
        expr_expanded(outs, k, old, new),
    ensures
        expr_sites(new).len() == beyond(outs.len() as int, k, expr_sites(old).len() as int),
    decreases old, 0nat,
{
    match old {
        Expression::Name(_) => {},
        Expression::MemberAccess { lhs, .. } => {
            match new {
                Expression::MemberAccess { lhs: h2, .. } => {
                    lemma_expr_left(outs, k, *lhs, *h2);
                },
                _ => {},
            }
        },
        Expression::ArrayAccess { lhs, rhs, .. } => {
            match new {
                Expression::ArrayAccess { lhs: h2, rhs: r2, .. } => {
                    lemma_expr_left(outs, k, *lhs, *h2);
                    lemma_expr_left(outs, k + expr_sites(*lhs).len(), *rhs, *r2);
                },
                _ => {},
            }
        },
        Expression::Literal { .. } => {},
        Expression::LiteralString { .. } => {},
        Expression::LiteralChar { .. } => {},
        Expression::Call { args, .. } => {
            match new {
                Expression::Call { args: a2, .. } => {
                    lemma_exprs_left(outs, k, args@, a2@, args@.len());
                },
                _ => {},
            }
        },
        Expression::InfixOperation { lhs, rhs, .. } => {
            match new {
                Expression::InfixOperation { lhs: h2, rhs: r2, .. } => {
                    lemma_expr_left(outs, k, *lhs, *h2);
                    lemma_chain_left(outs, k + expr_sites(*lhs).len(), rhs@, r2@, rhs@.len());
                },
                _ => {},
            }
        },
        Expression::Cast { expr, .. } => {
            match new {
                Expression::Cast { expr: e2, .. } => {
                    lemma_expr_left(outs, k, *expr, *e2);
                },
                _ => {},
            }
        },
        Expression::UnaryPost { expr, .. } => {
            match new {
                Expression::UnaryPost { expr: e2, .. } => {
                    lemma_expr_left(outs, k, *expr, *e2);
                },
                _ => {},
            }
        },
        Expression::UnaryPre { expr, .. } => {
            match new {
                Expression::UnaryPre { expr: e2, .. } => {
                    lemma_expr_left(outs, k, *expr, *e2);
                },
                _ => {},
            }
        },
        Expression::StructInit { fields, .. } => {
            match new {
                Expression::StructInit { fields: f2, .. } => {
                    lemma_inits_left(outs, k, fields@, f2@, fields@.len());
                },
                _ => {},
            }
        },
        Expression::ArrayInit { fields, .. } => {
            match new {
                Expression::ArrayInit { fields: f2, .. } => {
                    lemma_exprs_left(outs, k, fields@, f2@, fields@.len());
                },
                _ => {},
            }
        },
        Expression::MacroCall { .. } => {
            assert(expr_sites(old) =~= seq![old]);
            if k < outs.len() {
                assert(expr_sites(outs[k]).len() == 0);
            }
        },
    }
}

proof fn lemma_optional_left(outs: Seq<Expression>, k: int, old: Option<Expression>, new: Option<Expression>)
    requires
        0 <= k,
        closed(outs),
        optional_expanded(outs, k, old, new),
    ensures
        optional_sites(new).len() == beyond(outs.len() as int, k, optional_sites(old).len() as int),
{
    if let Some(x) = old {
        lemma_expr_left(outs, k, x, new->Some_0);
    }
}

proof fn lemma_stmt_left(outs: Seq<Expression>, k: int, old: Statement, new: Statement)
    requires
        0 <= k,
        closed(outs),
        stmt_expanded(outs, k, old, new),
    ensures
        stmt_sites(new).len() == beyond(outs.len() as int, k, stmt_sites(old).len() as int),
    decreases old, 0nat,
{
    match old {
        Statement::Mark { lhs, .. } => {
            match new {
                Statement::Mark { lhs: h2, .. } => {
                    lemma_expr_left(outs, k, lhs, h2);
                },
                _ => {},
            }
        },
        Statement::Label { .. } => {},
        Statement::Goto { .. } => {},
        Statement::Assign { lhs, rhs, .. } => {
            match new {
                Statement::Assign { lhs: h2, rhs: r2, .. } => {
                    lemma_expr_left(outs, k, lhs, h2);
                    lemma_expr_left(outs, k + expr_sites(lhs).len(), rhs, r2);
                },
                _ => {},
            }
        },
        Statement::Expr { expr, .. } => {
            match new {
                Statement::Expr { expr: e2, .. } => {
                    lemma_expr_left(outs, k, expr, e2);
                },
                _ => {},
            }
        },
        Statement::Continue { .. } => {},
        Statement::Break { .. } => {},
        Statement::Return { expr, .. } => {
            match new {
                Statement::Return { expr: e2, .. } => {
                    lemma_optional_left(outs, k, expr, e2);
                },
                _ => {},
            }
        },
        Statement::Var { array, assign, .. } => {
            match new {
                Statement::Var { array: a2, assign: sg2, .. } => {
                    lemma_optional_left(outs, k, array, a2);
                    lemma_optional_left(outs, k + optional_sites(array).len(), assign, sg2);
                },
                _ => {},
            }
        },
        Statement::For { e1, e2, e3, body } => {
            match new {
                Statement::For { e1: a1, e2: a2, e3: a3, body: b2 } => {
                    let k1 = k + boxed_sites(e1@, e1@.len()).len();
                    let k2 = k1 + boxed_sites(e2@, e2@.len()).len();
                    let k3 = k2 + boxed_sites(e3@, e3@.len()).len();
                    lemma_boxed_left(outs, k, e1@, a1@, e1@.len());
                    lemma_boxed_left(outs, k1, e2@, a2@, e2@.len());
                    lemma_boxed_left(outs, k2, e3@, a3@, e3@.len());
                    lemma_block_left(outs, k3, body, b2);
                },
                _ => {},
            }
        },
        Statement::Cond { expr, body, .. } => {
            match new {
                Statement::Cond { expr: e2, body: b2, .. } => {
                    lemma_optional_left(outs, k, expr, e2);
                    lemma_block_left(outs, k + optional_sites(expr).len(), body, b2);
                },
                _ => {},
            }
        },
        Statement::Block(b) => {
            match new {
                Statement::Block(b2) => {
                    lemma_block_left(outs, k, *b, *b2);
                },
                _ => {},
            }
        },
    }
}

proof fn lemma_block_left(outs: Seq<Expression>, k: int, old: Block, new: Block)
    requires
        0 <= k,
        closed(outs),
        block_expanded(outs, k, old, new),
    ensures
        block_sites(new).len() == beyond(outs.len() as int, k, block_sites(old).len() as int),
    decreases old, 0nat,
{
    lemma_stmts_left(outs, k, old.statements@, new.statements@, old.statements@.len());
}

proof fn lemma_field_left(outs: Seq<Expression>, k: int, old: Field, new: Field)
    requires
        0 <= k,
        closed(outs),
        field_expanded(outs, k, old, new),
    ensures
        field_sites(new).len() == beyond(outs.len() as int, k, field_sites(old).len() as int),
{
    if let Array::Sized(e) = old.array {
        lemma_expr_left(outs, k, e, new.array->Sized_0);
    }
}

proof fn lemma_def_left(outs: Seq<Expression>, k: int, old: Def, new: Def)
    requires
        0 <= k,
        closed(outs),
        def_expanded(outs, k, old, new),
    ensures
        def_sites(new).len() == beyond(outs.len() as int, k, def_sites(old).len() as int),
{
    match old {
        Def::Static { expr, .. } => {
            match new {
                Def::Static { expr: e2, .. } => {
                    lemma_expr_left(outs, k, expr, e2);
                },
                _ => {},
            }
        },
        Def::Const { expr, .. } => {
            match new {
                Def::Const { expr: e2, .. } => {
                    lemma_expr_left(outs, k, expr, e2);
                },
                _ => {},
            }
        },
        Def::Function { body, .. } => {
            match new {
                Def::Function { body: b2, .. } => {
                    lemma_block_left(outs, k, body, b2);
                },
                _ => {},
            }
        },
        Def::Struct { fields, .. } => {
            match new {
                Def::Struct { fields: f2, .. } => {
                    lemma_fields_left(outs, k, fields@, f2@, fields@.len());
                },
                _ => {},
            }
        },
        Def::Enum { .. } => {},
        Def::Closure { .. } => {},
        Def::Macro { body, .. } => {
            match new {
                Def::Macro { body: b2, .. } => {
                    lemma_block_left(outs, k, body, b2);
                },
                _ => {},
            }
        },
    }
}

proof fn lemma_locals_left(outs: Seq<Expression>, old: Seq<Local>, new: Seq<Local>, n: nat)
    requires
        closed(outs),
        locals_expanded(outs, old, new),
        n <= old.len(),
    ensures
        locals_sites(new, n).len() == beyond(outs.len() as int, 0, locals_sites(old, n).len() as int),
    decreases n,
{
    if n > 0 {
        lemma_locals_left(outs, old, new, (n - 1) as nat);
        assert(local_expanded(
            outs,
            locals_sites(old, (n - 1) as nat).len() as int,
            old[n - 1],
            new[n - 1],
        ));
        lemma_def_left(outs, locals_sites(old, (n - 1) as nat).len() as int, old[n - 1].def, new[n - 1].def);
    }
}

/// After expansion exactly those call-sites are left that `outs` held nothing
/// for, where no tree of `outs` holds a call-site itself: with a tree for
/// every call-site, none is left.
pub proof fn lemma_expansion_leaves(outs: Seq<Expression>, old: Module, new: Module)
    requires
        module_expanded(outs, old, new),
        forall|i: int| 0 <= i < outs.len() ==> !expr_has_call(#[trigger] outs[i]),
    ensures
        module_sites(new).len() == (if module_sites(old).len() <= outs.len() {
            0
        } else {
            module_sites(old).len() - outs.len()
        }),
        module_has_call(new) <==> module_sites(old).len() > outs.len(),
{
    assert forall|i: int| 0 <= i < outs.len() implies expr_sites(#[trigger] outs[i]).len() == 0 by {
        lemma_expr_sites(outs[i]);
    }
    lemma_locals_left(outs, old.locals@, new.locals@, old.locals@.len());
    lemma_module_sites(new);
}

/// The expressions that a list of references points at.
pub open spec fn trees(v: Seq<&Expression>) -> Seq<Expression> {
    Seq::new(v.len(), |i: int| *v[i])
}

fn list_exprs<'a>(items: &'a Vec<Box<Expression>>, out: &mut Vec<&'a Expression>)
    ensures
        trees(final(out)@) == trees(old(out)@) + exprs_sites(items@, items@.len()),
    decreases items, 1nat,
{
    let mut i: usize = 0;
    proof {
        assert(trees(out@) =~= trees(old(out)@) + exprs_sites(items@, 0));
    }
    while i < items.len()
        invariant
            i <= items.len(),
            trees(out@) == trees(old(out)@) + exprs_sites(items@, i as nat),
        decreases items.len() - i,
    {
        list_expr(&*items[i], out);
        proof {
            assert(trees(out@) =~= trees(old(out)@) + exprs_sites(items@, (i + 1) as nat));
        }
        i = i + 1;
    }
}

fn list_chain<'a>(items: &'a Vec<((InfixOperator, Location), Box<Expression>)>, out: &mut Vec<&'a Expression>)
    ensures
        trees(final(out)@) == trees(old(out)@) + chain_sites(items@, items@.len()),
    decreases items, 1nat,
{
    let mut i: usize = 0;
    proof {
        assert(trees(out@) =~= trees(old(out)@) + chain_sites(items@, 0));
    }
    while i < items.len()
        invariant
            i <= items.len(),
            trees(out@) == trees(old(out)@) + chain_sites(items@, i as nat),
        decreases items.len() - i,
    {
        list_expr(&*items[i].1, out);
        proof {
            assert(trees(out@) =~= trees(old(out)@) + chain_sites(items@, (i + 1) as nat));
        }
        i = i + 1;
    }
}

fn list_inits<'a>(items: &'a Vec<(String, Box<Expression>)>, out: &mut Vec<&'a Expression>)
    ensures
        trees(final(out)@) == trees(old(out)@) + inits_sites(items@, items@.len()),
    decreases items, 1nat,
{
    let mut i: usize = 0;
    proof {
        assert(trees(out@) =~= trees(old(out)@) + inits_sites(items@, 0));
    }
    while i < items.len()
        invariant
            i <= items.len(),
            trees(out@) == trees(old(out)@) + inits_sites(items@, i as nat),
        decreases items.len() - i,
    {
        list_expr(&*items[i].1, out);
        proof {
            assert(trees(out@) =~= trees(old(out)@) + inits_sites(items@, (i + 1) as nat));
        }
        i = i + 1;
    }
}

fn list_boxed<'a>(items: &'a Vec<Box<Statement>>, out: &mut Vec<&'a Expression>)
    ensures
        trees(final(out)@) == trees(old(out)@) + boxed_sites(items@, items@.len()),
    decreases items, 1nat,
{
    let mut i: usize = 0;
    proof {
        assert(trees(out@) =~= trees(old(out)@) + boxed_sites(items@, 0));
    }
    while i < items.len()
        invariant
            i <= items.len(),
            trees(out@) == trees(old(out)@) + boxed_sites(items@, i as nat),
        decreases items.len() - i,
    {
        list_statement(&*items[i], out);
        proof {
            assert(trees(out@) =~= trees(old(out)@) + boxed_sites(items@, (i + 1) as nat));
        }
        i = i + 1;
    }
}

/// Appends the call-sites of an expression; see [`expr_sites`].
fn list_expr<'a>(e: &'a Expression, out: &mut Vec<&'a Expression>)
    ensures
        trees(final(out)@) == trees(old(out)@) + expr_sites(*e),
    decreases e, 0nat,
{
    match e {
        Expression::Name(_) => {},
        Expression::MemberAccess { lhs, .. } => {
            list_expr(&**lhs, out);
        },
        Expression::ArrayAccess { lhs, rhs, .. } => {
            list_expr(&**lhs, out);
            list_expr(&**rhs, out);
        },
        Expression::Literal { .. } => {},
        Expression::LiteralString { .. } => {},
        Expression::LiteralChar { .. } => {},
        Expression::Call { args, .. } => {
            list_exprs(args, out);
        },
        Expression::InfixOperation { lhs, rhs, .. } => {
            list_expr(&**lhs, out);
            list_chain(rhs, out);
        },
        Expression::Cast { expr, .. } => {
            list_expr(&**expr, out);
        },
        Expression::UnaryPost { expr, .. } => {
            list_expr(&**expr, out);
        },
        Expression::UnaryPre { expr, .. } => {
            list_expr(&**expr, out);
        },
        Expression::StructInit { fields, .. } => {
            list_inits(fields, out);
        },
        Expression::ArrayInit { fields, .. } => {
            list_exprs(fields, out);
        },
        Expression::MacroCall { .. } => {
            out.push(e);
        },
    }
    proof {
        assert(trees(out@) =~= trees(old(out)@) + expr_sites(*e));
    }
}

fn list_optional<'a>(e: &'a Option<Expression>, out: &mut Vec<&'a Expression>)
    ensures
        trees(final(out)@) == trees(old(out)@) + optional_sites(*e),
{
    match e {
        Some(x) => {
            list_expr(x, out);
        },
        None => {
            proof {
                assert(trees(out@) =~= trees(old(out)@) + optional_sites(*e));
            }
        },
    }
}

fn list_block<'a>(b: &'a Block, out: &mut Vec<&'a Expression>)
    ensures
        trees(final(out)@) == trees(old(out)@) + block_sites(*b),
    decreases b, 1nat,
{
    let mut i: usize = 0;
    proof {
        assert(trees(out@) =~= trees(old(out)@) + stmts_sites(b.statements@, 0));
    }
    while i < b.statements.len()
        invariant
            i <= b.statements.len(),
            trees(out@) == trees(old(out)@) + stmts_sites(b.statements@, i as nat),
        decreases b.statements.len() - i,
    {
        list_statement(&b.statements[i], out);
        proof {
            assert(trees(out@) =~= trees(old(out)@) + stmts_sites(b.statements@, (i + 1) as nat));
        }
        i = i + 1;
    }
}

/// Appends the call-sites of a statement; see [`stmt_sites`].
fn list_statement<'a>(s: &'a Statement, out: &mut Vec<&'a Expression>)
    ensures
        trees(final(out)@) == trees(old(out)@) + stmt_sites(*s),
    decreases s, 0nat,
{
    match s {
        Statement::Mark { lhs, .. } => {
            list_expr(lhs, out);
        },
        Statement::Label { .. } => {},
        Statement::Goto { .. } => {},
        Statement::Assign { lhs, rhs, .. } => {
            list_expr(lhs, out);
            list_expr(rhs, out);
        },
        Statement::Expr { expr, .. } => {
            list_expr(expr, out);
        },
        Statement::Continue { .. } => {},
        Statement::Break { .. } => {},
        Statement::Return { expr, .. } => {
            list_optional(expr, out);
        },
        Statement::Var { array, assign, .. } => {
            list_optional(array, out);
            list_optional(assign, out);
        },
        Statement::For { e1, e2, e3, body } => {
            list_boxed(e1, out);
            list_boxed(e2, out);
            list_boxed(e3, out);
            list_block(body, out);
        },
        Statement::Cond { expr, body, .. } => {
            list_optional(expr, out);
            list_block(body, out);
        },
        Statement::Block(b) => {
            list_block(&**b, out);
        },
    }
    proof {
        assert(trees(out@) =~= trees(old(out)@) + stmt_sites(*s));
    }
}

fn list_fields<'a>(fields: &'a Vec<Field>, out: &mut Vec<&'a Expression>)
    ensures
        trees(final(out)@) == trees(old(out)@) + fields_sites(fields@, fields@.len()),
{
    let mut i: usize = 0;
    proof {
        assert(trees(out@) =~= trees(old(out)@) + fields_sites(fields@, 0));
    }
    while i < fields.len()
        invariant
            i <= fields.len(),
            trees(out@) == trees(old(out)@) + fields_sites(fields@, i as nat),
        decreases fields.len() - i,
    {
        let ghost before = trees(out@);
        match &fields[i].array {
            Array::Sized(e) => {
                list_expr(e, out);
            },
            _ => {},
        }
        proof {
            assert(trees(out@) =~= before + field_sites(fields@[i as int]));
            assert(trees(out@) =~= trees(old(out)@) + fields_sites(fields@, (i + 1) as nat));
        }
        i = i + 1;
    }
}

pub fn list_def<'a>(d: &'a Def, out: &mut Vec<&'a Expression>)
    ensures
        trees(final(out)@) == trees(old(out)@) + def_sites(*d),
{
    match d {
        Def::Static { expr, .. } => {
            list_expr(expr, out);
        },
        Def::Const { expr, .. } => {
            list_expr(expr, out);
        },
        Def::Function { body, .. } => {
            list_block(body, out);
        },
        Def::Struct { fields, .. } => {
            list_fields(fields, out);
        },
        Def::Enum { .. } => {},
        Def::Closure { .. } => {},
        Def::Macro { body, .. } => {
            list_block(body, out);
        },
    }
    proof {
        assert(trees(out@) =~= trees(old(out)@) + def_sites(*d));
    }
}

/// The macro call-sites of a module, in the order in which `expand` takes
/// what the macros gave for them; see [`module_sites`].
pub fn call_sites<'a>(module: &'a Module) -> (out: Vec<&'a Expression>)
    ensures
        trees(out@) == module_sites(*module),
{
    let mut out: Vec<&'a Expression> = Vec::new();
    let mut i: usize = 0;
    proof {
        assert(trees(out@) =~= locals_sites(module.locals@, 0));
    }
    while i < module.locals.len()
        invariant
            i <= module.locals.len(),
            trees(out@) == locals_sites(module.locals@, i as nat),
        decreases module.locals.len() - i,
    {
        list_def(&module.locals[i].def, &mut out);
        i = i + 1;
    }
    out
}

/// Whether a definition is a macro.
pub open spec fn is_macro(l: Local) -> bool {
    l.def is Macro
}

/// The macros among the first `n` definitions, in order.
pub open spec fn macros_of(locals: Seq<Local>, n: nat) -> Seq<Local>
    decreases n,
{
    if n == 0 || n > locals.len() {
        Seq::empty()
    } else if is_macro(locals[n - 1]) {
        macros_of(locals, (n - 1) as nat).push(locals[n - 1])
    } else {
        macros_of(locals, (n - 1) as nat)
    }
}

/// Whether two import lines are alike.
pub open spec fn same_import(a: Import, b: Import) -> bool {
    a.name@ == b.name@ && a.alias == b.alias && a.vis == b.vis && a.loc == b.loc && a.local@.len()
        == b.local@.len() && forall|i: int| 0 <= i < a.local@.len() ==> a.local@[i] == #[trigger] b.local@[i]
}

/// Whether two includes are alike.
pub open spec fn same_include(a: Include, b: Include) -> bool {
    a.expr == b.expr && a.loc == b.loc && a.fqn@ == b.fqn@
}

/// Whether `t` is the unresolved reference to the type called `word` at `loc`,
/// behind `layers` pointer layers without tags.
pub open spec fn plain_type(t: Typed, word: Seq<char>, loc: Location, layers: nat) -> bool {
    t.name@ == seq![word] && t.t == Type::Other && t.loc == loc && t.ptr@.len() == layers && forall|
        i: int,
    | 0 <= i < t.ptr@.len() ==> (#[trigger] t.ptr@[i]).loc == loc && tags_held(t.ptr@[i].tags).len() == 0
}

/// Whether `e` is the entry point that the macro `l` is built as: an exported
/// function `main` at the macro's place that returns `int`, takes each of the
/// macro's arguments, in order and under its name, as a text (`char *`), and
/// has a body alike to the macro's.
pub open spec fn entry_of(l: Local, e: Local) -> bool {
    &&& l.def is Macro
    &&& e.def is Function
    &&& e.name@ == "main"@
    &&& e.export_as is None
    &&& e.vis == Visibility::Export
    &&& e.loc == l.loc
    &&& !e.def->vararg
    &&& e.def->Function_ret is Some
    &&& plain_type(e.def->Function_ret->0.typed, "int"@, l.loc, 0)
    &&& e.def->Function_args@.len() == l.def->Macro_args@.len()
    &&& forall|i: int|
        0 <= i < l.def->Macro_args@.len() ==> (#[trigger] e.def->Function_args@[i]).name
            == l.def->Macro_args@[i] && e.def->Function_args@[i].loc == l.loc && tags_held(
            e.def->Function_args@[i].tags,
        ).len() == 0 && plain_type(e.def->Function_args@[i].typed, "char"@, l.loc, 1)
    &&& same_block(l.def->Macro_body, e.def->Function_body)
}

/// Whether `unit` is the module that the macro `l` of the module `m` is built
/// as: it is named after the module and the macro, comes from the same file
/// with alike imports and includes, so that the macro's body means in it what
/// it means in `m`, and holds the entry point of the macro and nothing else.
pub open spec fn macro_unit(m: Module, l: Local, unit: Module) -> bool {
    &&& unit.name@ == m.name@.push(l.name@)
    &&& unit.source == m.source
    &&& strs(unit.sources@) == strs(m.sources@)
    &&& unit.aliases@.len() == 0
    &&& unit.imports@.len() == m.imports@.len()
    &&& forall|i: int| 0 <= i < m.imports@.len() ==> same_import(m.imports@[i], #[trigger] unit.imports@[i])
    &&& unit.includes@.len() == m.includes@.len()
    &&& forall|i: int|
        0 <= i < m.includes@.len() ==> same_include(m.includes@[i], #[trigger] unit.includes@[i])
    &&& unit.locals@.len() == 1
    &&& entry_of(l, unit.locals@[0])
}

fn copy_imports(imports: &Vec<Import>) -> (out: Vec<Import>)
    ensures
        out@.len() == imports@.len(),
        forall|i: int| 0 <= i < imports@.len() ==> same_import(imports@[i], #[trigger] out@[i]),
{
    let mut out: Vec<Import> = Vec::new();
    let mut i: usize = 0;
    while i < imports.len()
        invariant
            i <= imports.len(),
            out@.len() == i,
            forall|k: int| 0 <= k < i ==> same_import(imports@[k], #[trigger] out@[k]),
        decreases imports.len() - i,
    {
        let from = &imports[i];
        let mut local: Vec<(String, Option<String>)> = Vec::new();
        let mut j: usize = 0;
        while j < from.local.len()
            invariant
                j <= from.local.len(),
                local@.len() == j,
                forall|k: int| 0 <= k < j ==> from.local@[k] == #[trigger] local@[k],
            decreases from.local.len() - j,
        {
            let alias = match &from.local[j].1 {
                Some(a) => Some(a.clone()),
                None => None,
            };
            local.push((from.local[j].0.clone(), alias));
            j = j + 1;
        }
        let alias = match &from.alias {
            Some(a) => Some(a.clone()),
            None => None,
        };
        out.push(Import { name: from.name.clone(), alias, local, vis: from.vis, loc: from.loc.clone() });
        i = i + 1;
    }
    out
}

fn copy_includes(includes: &Vec<Include>) -> (out: Vec<Include>)
    ensures
        out@.len() == includes@.len(),
        forall|i: int| 0 <= i < includes@.len() ==> same_include(includes@[i], #[trigger] out@[i]),
{
    let mut out: Vec<Include> = Vec::new();
    let mut i: usize = 0;
    while i < includes.len()
        invariant
            i <= includes.len(),
            out@.len() == i,
            forall|k: int| 0 <= k < i ==> same_include(includes@[k], #[trigger] out@[k]),
        decreases includes.len() - i,
    {
        let from = &includes[i];
        out.push(Include { expr: from.expr.clone(), loc: from.loc.clone(), fqn: from.fqn.clone() });
        i = i + 1;
    }
    out
}

fn no_tags() -> (t: Tags)
    ensures
        tags_held(t).len() == 0,
{
    Tags(Vec::new())
}

fn plain(word: &str, loc: &Location, pointer: bool) -> (t: Typed)
    ensures
        plain_type(t, word@, *loc, if pointer {
            1nat
        } else {
            0nat
        }),
{
    let mut segs: Vec<String> = Vec::new();
    segs.push(String::from_str(word));
    let name = Name(segs);
    proof {
        assert(name@ =~= seq![word@]);
    }
    let mut ptr: Vec<Pointer> = Vec::new();
    if pointer {
        ptr.push(Pointer { loc: loc.clone(), tags: no_tags() });
    }
    Typed { name, t: Type::Other, loc: loc.clone(), ptr }
}

/// The module that the macro `l` of `module` is built as; see [`macro_unit`].
pub fn macro_module(module: &Module, l: &Local) -> (unit: Module)
    requires
        l.def is Macro,
    ensures
        macro_unit(*module, *l, unit),
{
    let mut name = module.name.clone();
    let ghost base = name@;
    name.0.push(l.name.clone());
    proof {
        assert(name@ =~= base.push(l.name@));
    }
    let (params, body) = match &l.def {
        Def::Macro { args, body } => {
            let mut params: Vec<NamedArg> = Vec::new();
            let mut i: usize = 0;
            while i < args.len()
                invariant
                    i <= args.len(),
                    params@.len() == i,
                    forall|k: int|
                        0 <= k < i ==> (#[trigger] params@[k]).name == args@[k] && params@[k].loc == l.loc
                            && tags_held(params@[k].tags).len() == 0 && plain_type(
                            params@[k].typed,
                            "char"@,
                            l.loc,
                            1,
                        ),
                decreases args.len() - i,
            {
                params.push(
                    NamedArg {
                        typed: plain("char", &l.loc, true),
                        name: args[i].clone(),
                        tags: no_tags(),
                        loc: l.loc.clone(),
                    },
                );
                i = i + 1;
            }
            (params, body.clone())
        },
        _ => vstd::pervasive::unreached(),
    };
    let entry = Local {
        name: String::from_str("main"),
        export_as: None,
        vis: Visibility::Export,
        loc: l.loc.clone(),
        def: Def::Function {
            ret: Some(AnonArg { typed: plain("int", &l.loc, false) }),
            args: params,
            body,
            vararg: false,
        },
    };
    let mut locals: Vec<Local> = Vec::new();
    locals.push(entry);
    Module {
        name,
        source: module.source.clone(),
        locals,
        imports: copy_imports(&module.imports),
        includes: copy_includes(&module.includes),
        sources: copy_strings(&module.sources),
        aliases: Vec::new(),
    }
}

/// Whether the modules are what the macros of `m` are built as, one for each
/// macro and in the order of their definition.
pub open spec fn sieved(m: Module, units: Seq<Module>) -> bool {
    units.len() == macros_of(m.locals@, m.locals@.len()).len() && forall|k: int|
        0 <= k < units.len() ==> macro_unit(
            m,
            macros_of(m.locals@, m.locals@.len())[k],
            #[trigger] units[k],
        )
}

/// The modules that the macros of a module are built as, one for each macro
/// and in the order of their definition; see [`macro_unit`]. Each is built
/// and run as a program of its own before the modules that call the macro are
/// expanded.
pub fn sieve(module: &Module) -> (out: Vec<Module>)
    ensures
        sieved(*module, out@),
{
    let mut out: Vec<Module> = Vec::new();
    let mut i: usize = 0;
    while i < module.locals.len()
        invariant
            i <= module.locals.len(),
            out@.len() == macros_of(module.locals@, i as nat).len(),
            forall|k: int|
                0 <= k < out@.len() ==> macro_unit(
                    *module,
                    macros_of(module.locals@, i as nat)[k],
                    #[trigger] out@[k],
                ),
        decreases module.locals.len() - i,
    {
        let l = &module.locals[i];
        let is_macro = match &l.def {
            Def::Macro { .. } => true,
            _ => false,
        };
        if is_macro {
            out.push(macro_module(module, l));
        }
        i = i + 1;
    }
    out
}

/// The macros among the first `n` definitions are exactly the definitions
/// among them that are macros.
pub proof fn lemma_macros_of(locals: Seq<Local>, n: nat)
    requires
        n <= locals.len(),
    ensures
        forall|k: int|
            0 <= k < macros_of(locals, n).len() ==> is_macro(#[trigger] macros_of(locals, n)[k])
                && exists|j: int| 0 <= j < n && locals[j] == macros_of(locals, n)[k],
        forall|j: int|
            0 <= j < n && is_macro(#[trigger] locals[j]) ==> exists|k: int|
                0 <= k < macros_of(locals, n).len() && macros_of(locals, n)[k] == locals[j],
    decreases n,
{
    if n > 0 {
        lemma_macros_of(locals, (n - 1) as nat);
        let before = macros_of(locals, (n - 1) as nat);
        let after = macros_of(locals, n);
        assert forall|k: int| 0 <= k < after.len() implies is_macro(#[trigger] after[k]) && exists|j: int|
            0 <= j < n && locals[j] == after[k] by {
            if k < before.len() {
                assert(after[k] == before[k]);
                let j = choose|j: int| 0 <= j < n - 1 && locals[j] == before[k];
                assert(0 <= j < n && locals[j] == after[k]);
            } else {
                assert(locals[n - 1] == after[k]);
            }
        }
        assert forall|j: int| 0 <= j < n && is_macro(#[trigger] locals[j]) implies exists|k: int|
            0 <= k < after.len() && after[k] == locals[j] by {
            if j < n - 1 {
                let k = choose|k: int| 0 <= k < before.len() && before[k] == locals[j];
                assert(after[k] == locals[j]);
            } else {
                assert(after[after.len() - 1] == locals[j]);
            }
        }
    }
}

/// Whether `unit` is what a macro of one of the first `n` modules is built as.
#[verifier::opaque]
pub open spec fn unit_of(modules: Seq<loader::Module>, n: int, unit: loader::Module) -> bool {
    exists|i: int, j: int|
        0 <= i < n && i < modules.len() && modules[i] is ZZ && 0 <= j < modules[i]->ZZ_0.locals@.len()
            && is_macro(modules[i]->ZZ_0.locals@[j]) && unit is ZZ && #[trigger] macro_unit(
            modules[i]->ZZ_0,
            modules[i]->ZZ_0.locals@[j],
            unit->ZZ_0,
        )
}

/// Whether one of `units` is what macro `j` of module `i` is built as.
#[verifier::opaque]
pub open spec fn has_unit(modules: Seq<loader::Module>, units: Seq<loader::Module>, i: int, j: int) -> bool {
    exists|k: int|
        0 <= k < units.len() && (#[trigger] units[k]) is ZZ && macro_unit(
            modules[i]->ZZ_0,
            modules[i]->ZZ_0.locals@[j],
            units[k]->ZZ_0,
        )
}

proof fn lemma_unit_of(modules: Seq<loader::Module>, n: int, i: int, j: int, unit: Module)
    requires
        0 <= i < n,
        i < modules.len(),
        modules[i] is ZZ,
        0 <= j < modules[i]->ZZ_0.locals@.len(),
        is_macro(modules[i]->ZZ_0.locals@[j]),
        macro_unit(modules[i]->ZZ_0, modules[i]->ZZ_0.locals@[j], unit),
    ensures
        unit_of(modules, n, loader::Module::ZZ(unit)),
{
    reveal(unit_of);
    let u = loader::Module::ZZ(unit);
    assert(macro_unit(modules[i]->ZZ_0, modules[i]->ZZ_0.locals@[j], u->ZZ_0));
}

proof fn lemma_unit_of_more(modules: Seq<loader::Module>, n: int, m: int, unit: loader::Module)
    requires
        unit_of(modules, n, unit),
        n <= m,
    ensures
        unit_of(modules, m, unit),
{
    reveal(unit_of);
}

proof fn lemma_has_unit(modules: Seq<loader::Module>, units: Seq<loader::Module>, i: int, j: int, k: int)
    requires
        0 <= k < units.len(),
        units[k] is ZZ,
        macro_unit(modules[i]->ZZ_0, modules[i]->ZZ_0.locals@[j], units[k]->ZZ_0),
    ensures
        has_unit(modules, units, i, j),
{
    reveal(has_unit);
}

proof fn lemma_has_unit_more(
    modules: Seq<loader::Module>,
    units: Seq<loader::Module>,
    more: Seq<loader::Module>,
    i: int,
    j: int,
)
    requires
        has_unit(modules, units, i, j),
        units.len() <= more.len(),
        forall|k: int| 0 <= k < units.len() ==> more[k] == units[k],
    ensures
        has_unit(modules, more, i, j),
{
    reveal(has_unit);
    let k = choose|k: int|
        0 <= k < units.len() && (#[trigger] units[k]) is ZZ && macro_unit(
            modules[i]->ZZ_0,
            modules[i]->ZZ_0.locals@[j],
            units[k]->ZZ_0,
        );
    assert(more[k] == units[k]);
}

/// Whether `units` holds, from position `base` on, the modules of the macros
/// of `tree` in their order, and `names` their names at the same positions.
pub open spec fn added(tree: Module, base: int, units: Seq<loader::Module>, names: Seq<Name>) -> bool {
    forall|k: int|
        0 <= k < macros_of(tree.locals@, tree.locals@.len()).len() ==> (#[trigger] units[base + k]) is ZZ
            && macro_unit(tree, macros_of(tree.locals@, tree.locals@.len())[k], units[base + k]->ZZ_0)
            && units[base + k].name() == names[base + k]@
}

/// Appends the modules of the macros of `tree`, and their names.
fn add_units(tree: &Module, units: &mut Vec<loader::Module>, names: &mut Vec<Name>)
    requires
        old(units)@.len() == old(names)@.len(),
    ensures
        final(units)@.len() == final(names)@.len(),
        final(units)@.len() == old(units)@.len() + macros_of(tree.locals@, tree.locals@.len()).len(),
        forall|k: int| 0 <= k < old(units)@.len() ==> final(units)@[k] == old(units)@[k],
        forall|k: int| 0 <= k < old(names)@.len() ==> final(names)@[k] == old(names)@[k],
        added(*tree, old(units)@.len() as int, final(units)@, final(names)@),
{
    let made = sieve(tree);
    let ghost all = made@;
    let ghost listed = macros_of(tree.locals@, tree.locals@.len());
    let ghost base = units@.len() as int;
    for unit in it: made
        invariant
            it.seq() == all,
            sieved(*tree, all),
            listed == macros_of(tree.locals@, tree.locals@.len()),
            base == old(units)@.len(),
            units@.len() == names@.len(),
            units@.len() == base + it.index(),
            forall|k: int| 0 <= k < base ==> units@[k] == old(units)@[k],
            forall|k: int| 0 <= k < base ==> names@[k] == old(names)@[k],
            forall|k: int|
                0 <= k < it.index() ==> (#[trigger] units@[base + k]) is ZZ && macro_unit(
                    *tree,
                    listed[k],
                    units@[base + k]->ZZ_0,
                ) && units@[base + k].name() == names@[base + k]@,
    {
        let ghost was = units@;
        let ghost k0 = it.index() as int;
        proof {
            assert(macro_unit(*tree, listed[k0], all[k0]));
        }
        names.push(unit.name.clone());
        units.push(loader::Module::ZZ(unit));
        proof {
            assert forall|k: int| 0 <= k < k0 + 1 implies (#[trigger] units@[base + k]) is ZZ && macro_unit(
                *tree,
                listed[k],
                units@[base + k]->ZZ_0,
            ) && units@[base + k].name() == names@[base + k]@ by {
                if k < k0 {
                    assert(units@[base + k] == was[base + k]);
                }
            }
        }
    }
}

/// The modules with, after them, the module of every macro that one of them
/// defines; see [`macro_unit`]. The names of the macro modules are handed out
/// beside them, in the same order: each is built as an artifact of its own
/// before any module that calls a macro is expanded.
pub fn with_macro_modules(modules: Vec<loader::Module>) -> (r: (Vec<loader::Module>, Vec<Name>))
    ensures
        r.0@.len() == modules@.len() + r.1@.len(),
        r.0@.subrange(0, modules@.len() as int) == modules@,
        forall|k: int|
            0 <= k < r.1@.len() ==> unit_of(
                modules@,
                modules@.len() as int,
                #[trigger] r.0@[modules@.len() + k],
            ) && r.0@[modules@.len() + k].name() == r.1@[k]@,
        forall|i: int, j: int|
            0 <= i < modules@.len() && modules@[i] is ZZ && 0 <= j < modules@[i]->ZZ_0.locals@.len()
                && is_macro(#[trigger] modules@[i]->ZZ_0.locals@[j]) ==> has_unit(
                modules@,
                r.0@.subrange(modules@.len() as int, r.0@.len() as int),
                i,
                j,
            ),
{
    let mut units: Vec<loader::Module> = Vec::new();
    let mut names: Vec<Name> = Vec::new();
    let mut i: usize = 0;
    while i < modules.len()
        invariant
            i <= modules.len(),
            units@.len() == names@.len(),
            forall|k: int|
                0 <= k < units@.len() ==> unit_of(modules@, i as int, #[trigger] units@[k]) && units@[k].name()
                    == names@[k]@,
            forall|a: int, j: int|
                0 <= a < i && modules@[a] is ZZ && 0 <= j < modules@[a]->ZZ_0.locals@.len() && is_macro(
                    #[trigger] modules@[a]->ZZ_0.locals@[j],
                ) ==> has_unit(modules@, units@, a, j),
        decreases modules.len() - i,
    {
        let ghost before = units@;
        let ghost named = names@;
        match &modules[i] {
            loader::Module::ZZ(tree) => {
                add_units(tree, &mut units, &mut names);
                proof {
                    let listed = macros_of(tree.locals@, tree.locals@.len());
                    lemma_macros_of(tree.locals@, tree.locals@.len());
                    assert forall|k: int| 0 <= k < units@.len() implies unit_of(
                        modules@,
                        i + 1,
                        #[trigger] units@[k],
                    ) && units@[k].name() == names@[k]@ by {
                        if k < before.len() {
                            assert(units@[k] == before[k] && names@[k] == named[k]);
                            lemma_unit_of_more(modules@, i as int, i + 1, before[k]);
                        } else {
                            let x = k - before.len();
                            assert(units@[before.len() + x] is ZZ);
                            let j = choose|j: int|
                                0 <= j < tree.locals@.len() && tree.locals@[j] == listed[x];
                            lemma_unit_of(modules@, i + 1, i as int, j, units@[k]->ZZ_0);
                        }
                    }
                    assert forall|a: int, j: int|
                        0 <= a < i + 1 && modules@[a] is ZZ && 0 <= j < modules@[a]->ZZ_0.locals@.len()
                            && is_macro(#[trigger] modules@[a]->ZZ_0.locals@[j]) implies has_unit(
                        modules@,
                        units@,
                        a,
                        j,
                    ) by {
                        if a < i {
                            lemma_has_unit_more(modules@, before, units@, a, j);
                        } else {
                            let x = choose|x: int| 0 <= x < listed.len() && listed[x] == tree.locals@[j];
                            assert(units@[before.len() + x] is ZZ);
                            lemma_has_unit(modules@, units@, a, j, before.len() + x);
                        }
                    }
                }
            },
            loader::Module::C { .. } => {
                proof {
                    assert forall|k: int| 0 <= k < units@.len() implies unit_of(
                        modules@,
                        i + 1,
                        #[trigger] units@[k],
                    ) by {
                        lemma_unit_of_more(modules@, i as int, i + 1, units@[k]);
                    }
                }
            },
        }
        i = i + 1;
    }
    let ghost given = modules@;
    let ghost made = units@;
    let mut out = modules;
    for unit in it: units
        invariant
            it.seq() == made,
            out@.len() == given.len() + it.index(),
            out@.subrange(0, given.len() as int) == given,
            forall|k: int| 0 <= k < it.index() ==> (#[trigger] out@[given.len() + k]) == made[k],
    {
        let ghost was = out@;
        out.push(unit);
        proof {
            assert(out@.subrange(0, given.len() as int) =~= was.subrange(0, given.len() as int));
        }
    }
    proof {
        let rest = out@.subrange(given.len() as int, out@.len() as int);
        assert(out@.len() == given.len() + made.len());
        assert forall|k: int| 0 <= k < rest.len() implies rest[k] == made[k] by {
            assert(out@[given.len() + k] == made[k]);
        }
        assert(rest =~= made);
    }
    (out, names)
}

} // verus!
