//! What holds of a resolved module: every name in it is absolute, and none
//! reaches into another module's private definitions.

use vstd::prelude::*;
use crate::abs::{module_resolved, module_scope};
use crate::ast::{
    is_placeholder, AnonArg, Array, Block, Def, Expression, Field, InfixOperator, Local, Location,
    Module, NamedArg, Statement, Typed,
};
use crate::name::is_absolute_name;
use crate::resolve_ast::{
    arg_resolved, args_resolved, array_resolved, block_resolved, boxed_resolved, boxed_vars,
    chain_resolved, def_resolved, expr_resolved, exprs_resolved, field_resolved, fields_resolved,
    inits_resolved, local_resolved, locals_resolved, no_vars, optional_resolved, ret_resolved,
    stmt_resolved, stmts_resolved, stmts_vars, typed_resolved, arg_names,
};
use crate::resolver::{
    access, add_binding, all_bindings, binding_from, import_bindings, import_target,
    lemma_binding_from, namespace, pick_bindings, resolve_name, Access, Bound, Exports, Scope,
};
use crate::text::strs;

verus! {

/// Whether the module `this` may carry the name `n`: it is absolute, and not
/// private to another module.
pub open spec fn name_settled(all: Seq<Exports>, this: Seq<Seq<char>>, n: Seq<Seq<char>>) -> bool {
    is_absolute_name(n) && access(all, this, n) != Access::Private
}

/// A type reference is settled if it is a placeholder or its name is.
pub open spec fn typed_settled(all: Seq<Exports>, this: Seq<Seq<char>>, t: Typed) -> bool {
    is_placeholder(t.t) || name_settled(all, this, t.name@)
}

/// Whether every type reference and macro name in an expression is settled.
pub open spec fn expr_settled(all: Seq<Exports>, this: Seq<Seq<char>>, e: Expression) -> bool
    decreases e, 0nat,
{
    match e {
        Expression::Name(t) => typed_settled(all, this, t),
        Expression::MemberAccess { lhs, .. } => expr_settled(all, this, *lhs),
        Expression::ArrayAccess { lhs, rhs, .. } => expr_settled(all, this, *lhs) && expr_settled(
            all,
            this,
            *rhs,
        ),
        Expression::Literal { .. } => true,
        Expression::LiteralString { .. } => true,
        Expression::LiteralChar { .. } => true,
        Expression::Call { name, args, .. } => typed_settled(all, this, name) && exprs_settled(
            all,
            this,
            args@,
        ),
        Expression::InfixOperation { lhs, rhs, .. } => expr_settled(all, this, *lhs)
            && chain_settled(all, this, rhs@),
        Expression::Cast { into, expr, .. } => typed_settled(all, this, into) && expr_settled(
            all,
            this,
            *expr,
        ),
        Expression::UnaryPost { expr, .. } => expr_settled(all, this, *expr),
        Expression::UnaryPre { expr, .. } => expr_settled(all, this, *expr),
        Expression::StructInit { typed, fields, .. } => typed_settled(all, this, typed)
            && inits_settled(all, this, fields@),
        Expression::ArrayInit { fields, .. } => exprs_settled(all, this, fields@),
        Expression::MacroCall { name, args, .. } => name_settled(all, this, name@)
            && exprs_settled(all, this, args@),
    }
}

pub open spec fn exprs_settled(all: Seq<Exports>, this: Seq<Seq<char>>, items: Seq<Box<Expression>>) -> bool
    decreases items, 1nat,
{
    forall|i: int| 0 <= i < items.len() ==> expr_settled(all, this, *#[trigger] items[i])
}

pub open spec fn chain_settled(
    all: Seq<Exports>,
    this: Seq<Seq<char>>,
    items: Seq<((InfixOperator, Location), Box<Expression>)>,
) -> bool
    decreases items, 1nat,
{
    forall|i: int| 0 <= i < items.len() ==> expr_settled(all, this, *(#[trigger] items[i]).1)
}

pub open spec fn inits_settled(
    all: Seq<Exports>,
    this: Seq<Seq<char>>,
    items: Seq<(String, Box<Expression>)>,
) -> bool
    decreases items, 1nat,
{
    forall|i: int| 0 <= i < items.len() ==> expr_settled(all, this, *(#[trigger] items[i]).1)
}

pub open spec fn optional_settled(all: Seq<Exports>, this: Seq<Seq<char>>, e: Option<Expression>) -> bool {
    match e {
        Some(x) => expr_settled(all, this, x),
        None => true,
    }
}

/// Whether every type reference in a statement is settled.
pub open spec fn stmt_settled(all: Seq<Exports>, this: Seq<Seq<char>>, s: Statement) -> bool
    decreases s, 0nat,
{
    match s {
        Statement::Mark { lhs, .. } => expr_settled(all, this, lhs),
        Statement::Label { .. } => true,
        Statement::Goto { .. } => true,
        Statement::Assign { lhs, rhs, .. } => expr_settled(all, this, lhs) && expr_settled(
            all,
            this,
            rhs,
        ),
        Statement::Expr { expr, .. } => expr_settled(all, this, expr),
        Statement::Continue { .. } => true,
        Statement::Break { .. } => true,
        Statement::Return { expr, .. } => optional_settled(all, this, expr),
        Statement::Var { typed, array, assign, .. } => typed_settled(all, this, typed)
            && optional_settled(all, this, array) && optional_settled(all, this, assign),
        Statement::For { e1, e2, e3, body } => boxed_settled(all, this, e1@) && boxed_settled(
            all,
            this,
            e2@,
        ) && boxed_settled(all, this, e3@) && block_settled(all, this, body),
        Statement::Cond { expr, body, .. } => optional_settled(all, this, expr) && block_settled(
            all,
            this,
            body,
        ),
        Statement::Block(b) => block_settled(all, this, *b),
    }
}

pub open spec fn block_settled(all: Seq<Exports>, this: Seq<Seq<char>>, b: Block) -> bool
    decreases b, 0nat,
{
    stmts_settled(all, this, b.statements@)
}

pub open spec fn stmts_settled(all: Seq<Exports>, this: Seq<Seq<char>>, stmts: Seq<Statement>) -> bool
    decreases stmts, 1nat,
{
    forall|i: int| 0 <= i < stmts.len() ==> stmt_settled(all, this, #[trigger] stmts[i])
}

pub open spec fn boxed_settled(all: Seq<Exports>, this: Seq<Seq<char>>, stmts: Seq<Box<Statement>>) -> bool
    decreases stmts, 1nat,
{
    forall|i: int| 0 <= i < stmts.len() ==> stmt_settled(all, this, *#[trigger] stmts[i])
}

pub open spec fn ret_settled(all: Seq<Exports>, this: Seq<Seq<char>>, ret: Option<AnonArg>) -> bool {
    match ret {
        Some(a) => typed_settled(all, this, a.typed),
        None => true,
    }
}

pub open spec fn args_settled(all: Seq<Exports>, this: Seq<Seq<char>>, args: Seq<NamedArg>) -> bool {
    forall|i: int| 0 <= i < args.len() ==> typed_settled(all, this, (#[trigger] args[i]).typed)
}

pub open spec fn field_settled(all: Seq<Exports>, this: Seq<Seq<char>>, f: Field) -> bool {
    typed_settled(all, this, f.typed) && (match f.array {
        Array::Sized(e) => expr_settled(all, this, e),
        _ => true,
    })
}

pub open spec fn fields_settled(all: Seq<Exports>, this: Seq<Seq<char>>, fields: Seq<Field>) -> bool {
    forall|i: int| 0 <= i < fields.len() ==> field_settled(all, this, #[trigger] fields[i])
}

/// Whether every type reference in a definition is settled.
pub open spec fn def_settled(all: Seq<Exports>, this: Seq<Seq<char>>, d: Def) -> bool {
    match d {
        Def::Static { typed, expr, .. } => typed_settled(all, this, typed) && expr_settled(
            all,
            this,
            expr,
        ),
        Def::Const { typed, expr } => typed_settled(all, this, typed) && expr_settled(
            all,
            this,
            expr,
        ),
        Def::Function { ret, args, body, .. } => ret_settled(all, this, ret) && args_settled(
            all,
            this,
            args@,
        ) && block_settled(all, this, body),
        Def::Struct { fields, .. } => fields_settled(all, this, fields@),
        Def::Enum { .. } => true,
        Def::Closure { ret, args, .. } => ret_settled(all, this, ret) && args_settled(
            all,
            this,
            args@,
        ),
        Def::Macro { body, .. } => block_settled(all, this, body),
    }
}

/// Whether every type reference in every definition of a module is settled:
/// unless it is a placeholder, its name is absolute and is not private to
/// another module.
pub open spec fn module_settled(all: Seq<Exports>, m: Module) -> bool {
    forall|i: int| 0 <= i < m.locals@.len() ==> def_settled(all, m.name@, (#[trigger] m.locals@[i]).def)
}

/// Whether a scope can only give settled names: the module's own name is
/// absolute, every import target is absolute, and every imported symbol is one
/// that the module may use.
pub open spec fn scope_settled(ctx: Scope) -> bool {
    is_absolute_name(ctx.this) && forall|i: int|
        0 <= i < ctx.bindings.len() ==> is_absolute_name((#[trigger] ctx.bindings[i]).1) && (
        !ctx.bindings[i].2 ==> access(ctx.all, ctx.this, ctx.bindings[i].1) == Access::Granted)
}

pub open spec fn bindings_settled(all: Seq<Exports>, this: Seq<Seq<char>>, b: Seq<Bound>) -> bool {
    forall|i: int|
        0 <= i < b.len() ==> is_absolute_name((#[trigger] b[i]).1) && (!b[i].2 ==> access(
            all,
            this,
            b[i].1,
        ) == Access::Granted)
}

proof fn lemma_add_binding(all: Seq<Exports>, this: Seq<Seq<char>>, acc: Seq<Bound>, b: Bound, loc: Location)
    requires
        bindings_settled(all, this, acc),
        is_absolute_name(b.1),
        !b.2 ==> access(all, this, b.1) == Access::Granted,
    ensures
        add_binding(acc, b, loc) matches Ok(next) ==> bindings_settled(all, this, next),
{
}

proof fn lemma_pick_bindings(
    all: Seq<Exports>,
    this: Seq<Seq<char>>,
    acc: Seq<Bound>,
    target: Seq<Seq<char>>,
    picks: Seq<(String, Option<String>)>,
    loc: Location,
    n: nat,
)
    requires
        bindings_settled(all, this, acc),
        is_absolute_name(target),
    ensures
        pick_bindings(all, this, acc, target, picks, loc, n) matches Ok(next) ==> bindings_settled(
            all,
            this,
            next,
        ),
    decreases n,
{
    if n == 0 || n > picks.len() {
    } else {
        lemma_pick_bindings(all, this, acc, target, picks, loc, (n - 1) as nat);
        match pick_bindings(all, this, acc, target, picks, loc, (n - 1) as nat) {
            Ok(sofar) => {
                let pick = picks[n - 1];
                let symbol = target.push(pick.0@);
                if access(all, this, symbol) == Access::Granted {
                    lemma_add_binding(
                        all,
                        this,
                        sofar,
                        (
                            match pick.1 {
                                Some(a) => a@,
                                None => pick.0@,
                            },
                            symbol,
                            false,
                        ),
                        loc,
                    );
                }
            },
            Err(_) => {},
        }
    }
}

/// Every import target is absolute.
proof fn lemma_import_target(all: Seq<Exports>, this: Seq<Seq<char>>, n: Seq<Seq<char>>)
    ensures
        is_absolute_name(import_target(all, this, n)),
{
}

/// What the imports of a module bind is settled.
pub proof fn lemma_bindings_settled(
    all: Seq<Exports>,
    this: Seq<Seq<char>>,
    imports: Seq<crate::ast::Import>,
    n: nat,
)
    ensures
        all_bindings(all, this, imports, n) matches Ok(b) ==> bindings_settled(all, this, b),
    decreases n,
{
    if n == 0 || n > imports.len() {
    } else {
        lemma_bindings_settled(all, this, imports, (n - 1) as nat);
        match all_bindings(all, this, imports, (n - 1) as nat) {
            Ok(acc) => {
                let import = imports[n - 1];
                let target = import_target(all, this, import.name@);
                lemma_import_target(all, this, import.name@);
                lemma_pick_bindings(
                    all,
                    this,
                    acc,
                    target,
                    import.local@,
                    import.loc,
                    import.local@.len(),
                );
                let ident = match import.alias {
                    Some(a) => a@,
                    None => target.last(),
                };
                lemma_add_binding(all, this, acc, (ident, target, true), import.loc);
                if access(all, this, target) == Access::Granted {
                    lemma_add_binding(all, this, acc, (ident, target, false), import.loc);
                }
            },
            Err(_) => {},
        }
    }
}

/// A name that resolves in a settled scope resolves to a settled name.
pub proof fn lemma_name_settled(ctx: Scope, vars: Seq<Seq<char>>, n: Seq<Seq<char>>)
    requires
        scope_settled(ctx),
        resolve_name(ctx, vars, n) is Ok,
    ensures
        name_settled(ctx.all, ctx.this, resolve_name(ctx, vars, n)->Ok_0.0),
{
    if !is_absolute_name(n) && !vars.contains(n[0]) {
        lemma_binding_from(ctx.bindings, n[0], 0);
        match binding_from(ctx.bindings, n[0], 0) {
            Some(b) => {},
            None => {
                if ctx.own.contains(n[0]) {
                    assert(ctx.this.push(n[0]).drop_last() == ctx.this);
                }
            },
        }
    }
}

proof fn lemma_typed_settled(ctx: Scope, vars: Seq<Seq<char>>, old: Typed, new: Typed)
    requires
        scope_settled(ctx),
        typed_resolved(ctx, vars, old, new),
    ensures
        typed_settled(ctx.all, ctx.this, new),
{
    if !is_placeholder(old.t) {
        lemma_name_settled(ctx, vars, old.name@);
    }
}

proof fn lemma_expr_settled(ctx: Scope, vars: Seq<Seq<char>>, old: Expression, new: Expression)
    requires
        scope_settled(ctx),
        expr_resolved(ctx, vars, old, new),
    ensures
        expr_settled(ctx.all, ctx.this, new),
    decreases old, 0nat,
{
    match old {
        Expression::Name(t) => {
            lemma_typed_settled(ctx, vars, t, new->Name_0);
        },
        Expression::MemberAccess { lhs, .. } => {
            match new {
                Expression::MemberAccess { lhs: h2, .. } => {
                    lemma_expr_settled(ctx, vars, *lhs, *h2);
                },
                _ => {},
            }
        },
        Expression::ArrayAccess { lhs, rhs, .. } => {
            match new {
                Expression::ArrayAccess { lhs: h2, rhs: r2, .. } => {
                    lemma_expr_settled(ctx, vars, *lhs, *h2);
                    lemma_expr_settled(ctx, vars, *rhs, *r2);
                },
                _ => {},
            }
        },
        Expression::Literal { .. } => {},
        Expression::LiteralString { .. } => {},
        Expression::LiteralChar { .. } => {},
        Expression::Call { name, args, .. } => {
            match new {
                Expression::Call { name: n2, args: a2, .. } => {
                    lemma_typed_settled(ctx, vars, name, n2);
                    lemma_exprs_settled(ctx, vars, args@, a2@);
                },
                _ => {},
            }
        },
        Expression::InfixOperation { lhs, rhs, .. } => {
            match new {
                Expression::InfixOperation { lhs: h2, rhs: r2, .. } => {
                    lemma_expr_settled(ctx, vars, *lhs, *h2);
                    lemma_chain_settled(ctx, vars, rhs@, r2@);
                },
                _ => {},
            }
        },
        Expression::Cast { into, expr, .. } => {
            match new {
                Expression::Cast { into: i2, expr: e2, .. } => {
                    lemma_typed_settled(ctx, vars, into, i2);
                    lemma_expr_settled(ctx, vars, *expr, *e2);
                },
                _ => {},
            }
        },
        Expression::UnaryPost { expr, .. } => {
            match new {
                Expression::UnaryPost { expr: e2, .. } => {
                    lemma_expr_settled(ctx, vars, *expr, *e2);
                },
                _ => {},
            }
        },
        Expression::UnaryPre { expr, .. } => {
            match new {
                Expression::UnaryPre { expr: e2, .. } => {
                    lemma_expr_settled(ctx, vars, *expr, *e2);
                },
                _ => {},
            }
        },
        Expression::StructInit { typed, fields, .. } => {
            match new {
                Expression::StructInit { typed: t2, fields: f2, .. } => {
                    lemma_typed_settled(ctx, vars, typed, t2);
                    lemma_inits_settled(ctx, vars, fields@, f2@);
                },
                _ => {},
            }
        },
        Expression::ArrayInit { fields, .. } => {
            match new {
                Expression::ArrayInit { fields: f2, .. } => {
                    lemma_exprs_settled(ctx, vars, fields@, f2@);
                },
                _ => {},
            }
        },
        Expression::MacroCall { name, args, .. } => {
            match new {
                Expression::MacroCall { name: n2, args: a2, .. } => {
                    lemma_name_settled(ctx, vars, name@);
                    lemma_exprs_settled(ctx, vars, args@, a2@);
                },
                _ => {},
            }
        },
    }
}

proof fn lemma_exprs_settled(
    ctx: Scope,
    vars: Seq<Seq<char>>,
    old: Seq<Box<Expression>>,
    new: Seq<Box<Expression>>,
)
    requires
        scope_settled(ctx),
        exprs_resolved(ctx, vars, old, new),
    ensures
        exprs_settled(ctx.all, ctx.this, new),
    decreases old, 1nat,
{
    assert forall|i: int| 0 <= i < new.len() implies expr_settled(
        ctx.all,
        ctx.this,
        *#[trigger] new[i],
    ) by {
        lemma_expr_settled(ctx, vars, *old[i], *new[i]);
    }
}

proof fn lemma_chain_settled(
    ctx: Scope,
    vars: Seq<Seq<char>>,
    old: Seq<((InfixOperator, Location), Box<Expression>)>,
    new: Seq<((InfixOperator, Location), Box<Expression>)>,
)
    requires
        scope_settled(ctx),
        chain_resolved(ctx, vars, old, new),
    ensures
        chain_settled(ctx.all, ctx.this, new),
    decreases old, 1nat,
{
    assert forall|i: int| 0 <= i < new.len() implies expr_settled(
        ctx.all,
        ctx.this,
        *(#[trigger] new[i]).1,
    ) by {
        lemma_expr_settled(ctx, vars, *old[i].1, *new[i].1);
    }
}

proof fn lemma_inits_settled(
    ctx: Scope,
    vars: Seq<Seq<char>>,
    old: Seq<(String, Box<Expression>)>,
    new: Seq<(String, Box<Expression>)>,
)
    requires
        scope_settled(ctx),
        inits_resolved(ctx, vars, old, new),
    ensures
        inits_settled(ctx.all, ctx.this, new),
    decreases old, 1nat,
{
    assert forall|i: int| 0 <= i < new.len() implies expr_settled(
        ctx.all,
        ctx.this,
        *(#[trigger] new[i]).1,
    ) by {
        lemma_expr_settled(ctx, vars, *old[i].1, *new[i].1);
    }
}

proof fn lemma_optional_settled(
    ctx: Scope,
    vars: Seq<Seq<char>>,
    old: Option<Expression>,
    new: Option<Expression>,
)
    requires
        scope_settled(ctx),
        optional_resolved(ctx, vars, old, new),
    ensures
        optional_settled(ctx.all, ctx.this, new),
{
    match old {
        Some(x) => {
            lemma_expr_settled(ctx, vars, x, new->0);
        },
        None => {},
    }
}

proof fn lemma_stmt_settled(ctx: Scope, vars: Seq<Seq<char>>, old: Statement, new: Statement)
    requires
        scope_settled(ctx),
        stmt_resolved(ctx, vars, old, new),
    ensures
        stmt_settled(ctx.all, ctx.this, new),
    decreases old, 0nat,
{
    match old {
        Statement::Mark { lhs, .. } => {
            match new {
                Statement::Mark { lhs: h2, .. } => {
                    lemma_expr_settled(ctx, vars, lhs, h2);
                },
                _ => {},
            }
        },
        Statement::Label { .. } => {},
        Statement::Goto { .. } => {},
        Statement::Assign { lhs, rhs, .. } => {
            match new {
                Statement::Assign { lhs: h2, rhs: r2, .. } => {
                    lemma_expr_settled(ctx, vars, lhs, h2);
                    lemma_expr_settled(ctx, vars, rhs, r2);
                },
                _ => {},
            }
        },
        Statement::Expr { expr, .. } => {
            match new {
                Statement::Expr { expr: e2, .. } => {
                    lemma_expr_settled(ctx, vars, expr, e2);
                },
                _ => {},
            }
        },
        Statement::Continue { .. } => {},
        Statement::Break { .. } => {},
        Statement::Return { expr, .. } => {
            match new {
                Statement::Return { expr: e2, .. } => {
                    lemma_optional_settled(ctx, vars, expr, e2);
                },
                _ => {},
            }
        },
        Statement::Var { typed, array, assign, .. } => {
            match new {
                Statement::Var { typed: t2, array: a2, assign: sg2, .. } => {
                    lemma_typed_settled(ctx, vars, typed, t2);
                    lemma_optional_settled(ctx, vars, array, a2);
                    lemma_optional_settled(ctx, vars, assign, sg2);
                },
                _ => {},
            }
        },
        Statement::For { e1, e2, e3, body } => {
            match new {
                Statement::For { e1: a1, e2: a2, e3: a3, body: b2 } => {
                    let inner = boxed_vars(e1@, vars, e1@.len());
                    lemma_boxed_settled(ctx, vars, e1@, a1@);
                    lemma_boxed_settled(ctx, inner, e2@, a2@);
                    lemma_boxed_settled(ctx, inner, e3@, a3@);
                    lemma_block_settled(ctx, inner, body, b2);
                },
                _ => {},
            }
        },
        Statement::Cond { expr, body, .. } => {
            match new {
                Statement::Cond { expr: e2, body: b2, .. } => {
                    lemma_optional_settled(ctx, vars, expr, e2);
                    lemma_block_settled(ctx, vars, body, b2);
                },
                _ => {},
            }
        },
        Statement::Block(b) => {
            match new {
                Statement::Block(b2) => {
                    lemma_block_settled(ctx, vars, *b, *b2);
                },
                _ => {},
            }
        },
    }
}

proof fn lemma_block_settled(ctx: Scope, vars: Seq<Seq<char>>, old: Block, new: Block)
    requires
        scope_settled(ctx),
        block_resolved(ctx, vars, old, new),
    ensures
        block_settled(ctx.all, ctx.this, new),
    decreases old, 2nat,
{
    lemma_stmts_settled(ctx, vars, old.statements@, new.statements@);
}

proof fn lemma_stmts_settled(ctx: Scope, vars: Seq<Seq<char>>, old: Seq<Statement>, new: Seq<Statement>)
    requires
        scope_settled(ctx),
        stmts_resolved(ctx, vars, old, new),
    ensures
        stmts_settled(ctx.all, ctx.this, new),
    decreases old, 1nat,
{
    assert forall|i: int| 0 <= i < new.len() implies stmt_settled(
        ctx.all,
        ctx.this,
        #[trigger] new[i],
    ) by {
        lemma_stmt_settled(ctx, stmts_vars(old, vars, i as nat), old[i], new[i]);
    }
}

proof fn lemma_boxed_settled(
    ctx: Scope,
    vars: Seq<Seq<char>>,
    old: Seq<Box<Statement>>,
    new: Seq<Box<Statement>>,
)
    requires
        scope_settled(ctx),
        boxed_resolved(ctx, vars, old, new),
    ensures
        boxed_settled(ctx.all, ctx.this, new),
    decreases old, 1nat,
{
    assert forall|i: int| 0 <= i < new.len() implies stmt_settled(
        ctx.all,
        ctx.this,
        *#[trigger] new[i],
    ) by {
        lemma_stmt_settled(ctx, boxed_vars(old, vars, i as nat), *old[i], *new[i]);
    }
}

proof fn lemma_ret_settled(ctx: Scope, old: Option<AnonArg>, new: Option<AnonArg>)
    requires
        scope_settled(ctx),
        ret_resolved(ctx, old, new),
    ensures
        ret_settled(ctx.all, ctx.this, new),
{
    match old {
        Some(a) => {
            lemma_typed_settled(ctx, no_vars(), a.typed, new->0.typed);
        },
        None => {},
    }
}

proof fn lemma_args_settled(ctx: Scope, old: Seq<NamedArg>, new: Seq<NamedArg>)
    requires
        scope_settled(ctx),
        args_resolved(ctx, old, new),
    ensures
        args_settled(ctx.all, ctx.this, new),
{
    assert forall|i: int| 0 <= i < new.len() implies typed_settled(
        ctx.all,
        ctx.this,
        (#[trigger] new[i]).typed,
    ) by {
        lemma_typed_settled(ctx, no_vars(), old[i].typed, new[i].typed);
    }
}

proof fn lemma_fields_settled(ctx: Scope, old: Seq<Field>, new: Seq<Field>)
    requires
        scope_settled(ctx),
        fields_resolved(ctx, old, new),
    ensures
        fields_settled(ctx.all, ctx.this, new),
{
    assert forall|i: int| 0 <= i < new.len() implies field_settled(
        ctx.all,
        ctx.this,
        #[trigger] new[i],
    ) by {
        lemma_typed_settled(ctx, no_vars(), old[i].typed, new[i].typed);
        match old[i].array {
            Array::Sized(e) => {
                lemma_expr_settled(ctx, no_vars(), e, new[i].array->Sized_0);
            },
            _ => {},
        }
    }
}

proof fn lemma_def_settled(ctx: Scope, old: Def, new: Def)
    requires
        scope_settled(ctx),
        def_resolved(ctx, old, new),
    ensures
        def_settled(ctx.all, ctx.this, new),
{
    match old {
        Def::Static { typed, expr, .. } => {
            match new {
                Def::Static { typed: t2, expr: e2, .. } => {
                    lemma_typed_settled(ctx, no_vars(), typed, t2);
                    lemma_expr_settled(ctx, no_vars(), expr, e2);
                },
                _ => {},
            }
        },
        Def::Const { typed, expr } => {
            match new {
                Def::Const { typed: t2, expr: e2 } => {
                    lemma_typed_settled(ctx, no_vars(), typed, t2);
                    lemma_expr_settled(ctx, no_vars(), expr, e2);
                },
                _ => {},
            }
        },
        Def::Function { ret, args, body, .. } => {
            match new {
                Def::Function { ret: r2, args: a2, body: b2, .. } => {
                    lemma_ret_settled(ctx, ret, r2);
                    lemma_args_settled(ctx, args@, a2@);
                    lemma_block_settled(ctx, arg_names(args@), body, b2);
                },
                _ => {},
            }
        },
        Def::Struct { fields, .. } => {
            match new {
                Def::Struct { fields: f2, .. } => {
                    lemma_fields_settled(ctx, fields@, f2@);
                },
                _ => {},
            }
        },
        Def::Enum { .. } => {},
        Def::Closure { ret, args, .. } => {
            match new {
                Def::Closure { ret: r2, args: a2, .. } => {
                    lemma_ret_settled(ctx, ret, r2);
                    lemma_args_settled(ctx, args@, a2@);
                },
                _ => {},
            }
        },
        Def::Macro { args, body } => {
            match new {
                Def::Macro { body: b2, .. } => {
                    lemma_block_settled(ctx, strs(args@), body, b2);
                },
                _ => {},
            }
        },
    }
}

/// After the resolver, every type reference in every definition of a module
/// with an absolute name carries an absolute name, unless it is a placeholder,
/// and none names a definition that is private to another module.
pub proof fn lemma_resolved_is_settled(all: Seq<Exports>, old: Module, new: Module)
    requires
        is_absolute_name(old.name@),
        module_resolved(all, old, new),
    ensures
        module_settled(all, new),
{
    reveal(module_resolved);
    let b = all_bindings(all, old.name@, old.imports@, old.imports@.len())->Ok_0;
    lemma_bindings_settled(all, old.name@, old.imports@, old.imports@.len());
    let ctx = module_scope(all, old, b);
    assert(scope_settled(ctx));
    assert forall|i: int| 0 <= i < new.locals@.len() implies def_settled(
        all,
        new.name@,
        (#[trigger] new.locals@[i]).def,
    ) by {
        lemma_def_settled(ctx, old.locals@[i].def, new.locals@[i].def);
    }
}

} // verus!
