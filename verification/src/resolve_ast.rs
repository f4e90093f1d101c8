//! Resolution of a syntax tree: every type reference in expressions,
//! statements and definitions is rewritten to the absolute name it stands for.

use vstd::prelude::*;
use vstd::string::*;
use crate::ast::{
    is_placeholder, AnonArg, Array, Block, Def, Expression, Field, InfixOperator, Local, Location,
    NamedArg, Statement, Tags, Type, Typed, Visibility,
};
use crate::name::{is_absolute_name, Name};
use crate::resolver::{resolve, resolve_name, Access, Context, ResolveError, Scope};
use crate::text::{copy_strings, strs};

verus! {

/// The error for a name that stands for nothing, or for something private.
pub open spec fn fault_of(a: Access, loc: Location) -> ResolveError {
    if a == Access::Private {
        ResolveError::VisibilityViolation(loc)
    } else {
        ResolveError::UnknownSymbol(loc)
    }
}

/// The first of two optional faults.
pub open spec fn first(a: Option<ResolveError>, b: Option<ResolveError>) -> Option<ResolveError> {
    if a is Some {
        a
    } else {
        b
    }
}

/// What `r` must be for a step that fails with `fault` or else gives a value
/// that `good` accepts.
pub open spec fn outcome<T>(
    r: Result<T, ResolveError>,
    fault: Option<ResolveError>,
    good: spec_fn(T) -> bool,
) -> bool {
    match fault {
        Some(e) => r == Err::<T, ResolveError>(e),
        None => r is Ok && good(r->Ok_0),
    }
}

/// Why a name written at `loc` cannot be resolved, if it cannot.
pub open spec fn name_fault(ctx: Scope, vars: Seq<Seq<char>>, n: Seq<Seq<char>>, loc: Location) -> Option<
    ResolveError,
> {
    match resolve_name(ctx, vars, n) {
        Ok(_) => None,
        Err(a) => Some(fault_of(a, loc)),
    }
}

/// Why a type reference cannot be resolved, if it cannot. A placeholder is
/// left alone and never fails.
pub open spec fn typed_fault(ctx: Scope, vars: Seq<Seq<char>>, t: Typed) -> Option<ResolveError> {
    if is_placeholder(t.t) {
        None
    } else {
        name_fault(ctx, vars, t.name@, t.loc)
    }
}

/// Whether `new` is `old` resolved: a placeholder is unchanged; any other
/// reference carries the absolute name that its name stands for, the kind of a
/// built-in type where it names one, and everything else as before.
pub open spec fn typed_resolved(ctx: Scope, vars: Seq<Seq<char>>, old: Typed, new: Typed) -> bool {
    if is_placeholder(old.t) {
        new == old
    } else {
        resolve_name(ctx, vars, old.name@) matches Ok(p) && new.name@ == p.0 && new.t == (if p.1
            == Type::Other {
            old.t
        } else {
            p.1
        }) && new.loc == old.loc && new.ptr == old.ptr
    }
}

/// Resolves one type reference.
pub fn resolve_typed(ctx: &Context, vars: &Vec<String>, t: Typed) -> (r: Result<Typed, ResolveError>)
    ensures
        outcome(
            r,
            typed_fault(ctx@, strs(vars@), t),
            |new: Typed| typed_resolved(ctx@, strs(vars@), t, new),
        ),
{
    match t.t {
        Type::ILiteral | Type::ULiteral | Type::Elided | Type::New | Type::Typeid => {
            return Ok(t);
        },
        _ => {},
    }
    match resolve(ctx, vars, &t.name) {
        Err(Access::Private) => Err(ResolveError::VisibilityViolation(t.loc)),
        Err(_) => Err(ResolveError::UnknownSymbol(t.loc)),
        Ok((name, kind)) => {
            let kept = match kind {
                Type::Other => t.t,
                k => k,
            };
            Ok(Typed { name, t: kept, loc: t.loc, ptr: t.ptr })
        },
    }
}

/// Why an expression cannot be resolved, if it cannot: the fault of the first
/// name in it, read left to right, that cannot.
pub open spec fn expr_fault(ctx: Scope, vars: Seq<Seq<char>>, e: Expression) -> Option<ResolveError>
    decreases e, 0nat,
{
    match e {
        Expression::Name(t) => typed_fault(ctx, vars, t),
        Expression::MemberAccess { lhs, .. } => expr_fault(ctx, vars, *lhs),
        Expression::ArrayAccess { lhs, rhs, .. } => first(
            expr_fault(ctx, vars, *lhs),
            expr_fault(ctx, vars, *rhs),
        ),
        Expression::Literal { .. } => None,
        Expression::LiteralString { .. } => None,
        Expression::LiteralChar { .. } => None,
        Expression::Call { name, args, .. } => first(
            typed_fault(ctx, vars, name),
            exprs_fault(ctx, vars, args@, args@.len()),
        ),
        Expression::InfixOperation { lhs, rhs, .. } => first(
            expr_fault(ctx, vars, *lhs),
            chain_fault(ctx, vars, rhs@, rhs@.len()),
        ),
        Expression::Cast { into, expr, .. } => first(
            typed_fault(ctx, vars, into),
            expr_fault(ctx, vars, *expr),
        ),
        Expression::UnaryPost { expr, .. } => expr_fault(ctx, vars, *expr),
        Expression::UnaryPre { expr, .. } => expr_fault(ctx, vars, *expr),
        Expression::StructInit { typed, fields, .. } => first(
            typed_fault(ctx, vars, typed),
            inits_fault(ctx, vars, fields@, fields@.len()),
        ),
        Expression::ArrayInit { fields, .. } => exprs_fault(ctx, vars, fields@, fields@.len()),
        Expression::MacroCall { loc, name, args } => first(
            name_fault(ctx, vars, name@, loc),
            exprs_fault(ctx, vars, args@, args@.len()),
        ),
    }
}

/// The first fault among the first `n` expressions.
pub open spec fn exprs_fault(ctx: Scope, vars: Seq<Seq<char>>, items: Seq<Box<Expression>>, n: nat) -> Option<
    ResolveError,
>
    decreases items, n,
{
    if n == 0 || n > items.len() {
        None
    } else {
        first(exprs_fault(ctx, vars, items, (n - 1) as nat), expr_fault(ctx, vars, *items[n - 1]))
    }
}

/// The first fault among the operands of the first `n` links of a chain.
pub open spec fn chain_fault(
    ctx: Scope,
    vars: Seq<Seq<char>>,
    items: Seq<((InfixOperator, Location), Box<Expression>)>,
    n: nat,
) -> Option<ResolveError>
    decreases items, n,
{
    if n == 0 || n > items.len() {
        None
    } else {
        first(
            chain_fault(ctx, vars, items, (n - 1) as nat),
            expr_fault(ctx, vars, *items[n - 1].1),
        )
    }
}

/// The first fault among the values of the first `n` field initialisers.
pub open spec fn inits_fault(
    ctx: Scope,
    vars: Seq<Seq<char>>,
    items: Seq<(String, Box<Expression>)>,
    n: nat,
) -> Option<ResolveError>
    decreases items, n,
{
    if n == 0 || n > items.len() {
        None
    } else {
        first(
            inits_fault(ctx, vars, items, (n - 1) as nat),
            expr_fault(ctx, vars, *items[n - 1].1),
        )
    }
}

/// Whether `new` is `old` resolved: the same tree, with every type reference
/// and macro name resolved.
pub open spec fn expr_resolved(ctx: Scope, vars: Seq<Seq<char>>, old: Expression, new: Expression) -> bool
    decreases old, 0nat,
{
    match old {
        Expression::Name(t) => new is Name && typed_resolved(ctx, vars, t, new->Name_0),
        Expression::MemberAccess { loc, lhs, op, rhs } => new matches Expression::MemberAccess {
            loc: l2,
            lhs: h2,
            op: o2,
            rhs: r2,
        } && l2 == loc && o2 == op && r2 == rhs && expr_resolved(ctx, vars, *lhs, *h2),
        Expression::ArrayAccess { loc, lhs, rhs } => new matches Expression::ArrayAccess {
            loc: l2,
            lhs: h2,
            rhs: r2,
        } && l2 == loc && expr_resolved(ctx, vars, *lhs, *h2) && expr_resolved(
            ctx,
            vars,
            *rhs,
            *r2,
        ),
        Expression::Literal { .. } => new == old,
        Expression::LiteralString { .. } => new == old,
        Expression::LiteralChar { .. } => new == old,
        Expression::Call { loc, name, args } => new matches Expression::Call {
            loc: l2,
            name: n2,
            args: a2,
        } && l2 == loc && typed_resolved(ctx, vars, name, n2) && exprs_resolved(
            ctx,
            vars,
            args@,
            a2@,
        ),
        Expression::InfixOperation { loc, lhs, rhs } => new matches Expression::InfixOperation {
            loc: l2,
            lhs: h2,
            rhs: r2,
        } && l2 == loc && expr_resolved(ctx, vars, *lhs, *h2) && chain_resolved(
            ctx,
            vars,
            rhs@,
            r2@,
        ),
        Expression::Cast { loc, into, expr } => new matches Expression::Cast {
            loc: l2,
            into: i2,
            expr: e2,
        } && l2 == loc && typed_resolved(ctx, vars, into, i2) && expr_resolved(
            ctx,
            vars,
            *expr,
            *e2,
        ),
        Expression::UnaryPost { loc, op, expr } => new matches Expression::UnaryPost {
            loc: l2,
            op: o2,
            expr: e2,
        } && l2 == loc && o2 == op && expr_resolved(ctx, vars, *expr, *e2),
        Expression::UnaryPre { loc, op, expr } => new matches Expression::UnaryPre {
            loc: l2,
            op: o2,
            expr: e2,
        } && l2 == loc && o2 == op && expr_resolved(ctx, vars, *expr, *e2),
        Expression::StructInit { loc, typed, fields } => new matches Expression::StructInit {
            loc: l2,
            typed: t2,
            fields: f2,
        } && l2 == loc && typed_resolved(ctx, vars, typed, t2) && inits_resolved(
            ctx,
            vars,
            fields@,
            f2@,
        ),
        Expression::ArrayInit { loc, fields } => new matches Expression::ArrayInit {
            loc: l2,
            fields: f2,
        } && l2 == loc && exprs_resolved(ctx, vars, fields@, f2@),
        Expression::MacroCall { loc, name, args } => new matches Expression::MacroCall {
            loc: l2,
            name: n2,
            args: a2,
        } && l2 == loc && resolve_name(ctx, vars, name@) is Ok && n2@ == resolve_name(
            ctx,
            vars,
            name@,
        )->Ok_0.0 && exprs_resolved(ctx, vars, args@, a2@),
    }
}

pub open spec fn exprs_resolved(
    ctx: Scope,
    vars: Seq<Seq<char>>,
    old: Seq<Box<Expression>>,
    new: Seq<Box<Expression>>,
) -> bool
    decreases old, 1nat,
{
    old.len() == new.len() && forall|i: int|
        0 <= i < old.len() ==> expr_resolved(ctx, vars, *old[i], *#[trigger] new[i])
}

pub open spec fn chain_resolved(
    ctx: Scope,
    vars: Seq<Seq<char>>,
    old: Seq<((InfixOperator, Location), Box<Expression>)>,
    new: Seq<((InfixOperator, Location), Box<Expression>)>,
) -> bool
    decreases old, 1nat,
{
    old.len() == new.len() && forall|i: int|
        0 <= i < old.len() ==> old[i].0 == (#[trigger] new[i]).0 && expr_resolved(
            ctx,
            vars,
            *old[i].1,
            *new[i].1,
        )
}

pub open spec fn inits_resolved(
    ctx: Scope,
    vars: Seq<Seq<char>>,
    old: Seq<(String, Box<Expression>)>,
    new: Seq<(String, Box<Expression>)>,
) -> bool
    decreases old, 1nat,
{
    old.len() == new.len() && forall|i: int|
        0 <= i < old.len() ==> old[i].0 == (#[trigger] new[i]).0 && expr_resolved(
            ctx,
            vars,
            *old[i].1,
            *new[i].1,
        )
}

proof fn lemma_exprs_fault(ctx: Scope, vars: Seq<Seq<char>>, items: Seq<Box<Expression>>, k: nat, n: nat)
    requires
        k <= n <= items.len(),
        exprs_fault(ctx, vars, items, k) is Some,
    ensures
        exprs_fault(ctx, vars, items, n) == exprs_fault(ctx, vars, items, k),
    decreases n,
{
    if k < n {
        lemma_exprs_fault(ctx, vars, items, k, (n - 1) as nat);
    }
}

proof fn lemma_chain_fault(
    ctx: Scope,
    vars: Seq<Seq<char>>,
    items: Seq<((InfixOperator, Location), Box<Expression>)>,
    k: nat,
    n: nat,
)
    requires
        k <= n <= items.len(),
        chain_fault(ctx, vars, items, k) is Some,
    ensures
        chain_fault(ctx, vars, items, n) == chain_fault(ctx, vars, items, k),
    decreases n,
{
    if k < n {
        lemma_chain_fault(ctx, vars, items, k, (n - 1) as nat);
    }
}

proof fn lemma_inits_fault(
    ctx: Scope,
    vars: Seq<Seq<char>>,
    items: Seq<(String, Box<Expression>)>,
    k: nat,
    n: nat,
)
    requires
        k <= n <= items.len(),
        inits_fault(ctx, vars, items, k) is Some,
    ensures
        inits_fault(ctx, vars, items, n) == inits_fault(ctx, vars, items, k),
    decreases n,
{
    if k < n {
        lemma_inits_fault(ctx, vars, items, k, (n - 1) as nat);
    }
}

fn resolve_exprs(ctx: &Context, vars: &Vec<String>, items: Vec<Box<Expression>>) -> (r: Result<
    Vec<Box<Expression>>,
    ResolveError,
>)
    ensures
        outcome(
            r,
            exprs_fault(ctx@, strs(vars@), items@, items@.len()),
            |new: Vec<Box<Expression>>| exprs_resolved(ctx@, strs(vars@), items@, new@),
        ),
    decreases items, 1nat,
{
    let mut out: Vec<Box<Expression>> = Vec::new();
    for item in it: items
        invariant
            out@.len() == it.index(),
            it.seq() == items@,
            exprs_fault(ctx@, strs(vars@), items@, it.index() as nat) is None,
            forall|i: int|
                0 <= i < out@.len() ==> expr_resolved(
                    ctx@,
                    strs(vars@),
                    *items@[i],
                    *#[trigger] out@[i],
                ),
    {
        match resolve_expr(ctx, vars, *item) {
            Err(e) => {
                proof {
                    lemma_exprs_fault(
                        ctx@,
                        strs(vars@),
                        items@,
                        (it.index() + 1) as nat,
                        items@.len(),
                    );
                }
                return Err(e);
            },
            Ok(x) => {
                out.push(Box::new(x));
            },
        }
    }
    Ok(out)
}

fn resolve_chain(
    ctx: &Context,
    vars: &Vec<String>,
    items: Vec<((InfixOperator, Location), Box<Expression>)>,
) -> (r: Result<Vec<((InfixOperator, Location), Box<Expression>)>, ResolveError>)
    ensures
        outcome(
            r,
            chain_fault(ctx@, strs(vars@), items@, items@.len()),
            |new: Vec<((InfixOperator, Location), Box<Expression>)>|
                chain_resolved(ctx@, strs(vars@), items@, new@),
        ),
    decreases items, 1nat,
{
    let mut out: Vec<((InfixOperator, Location), Box<Expression>)> = Vec::new();
    for item in it: items
        invariant
            out@.len() == it.index(),
            it.seq() == items@,
            chain_fault(ctx@, strs(vars@), items@, it.index() as nat) is None,
            forall|i: int|
                0 <= i < out@.len() ==> items@[i].0 == (#[trigger] out@[i]).0 && expr_resolved(
                    ctx@,
                    strs(vars@),
                    *items@[i].1,
                    *out@[i].1,
                ),
    {
        let (op, operand) = item;
        match resolve_expr(ctx, vars, *operand) {
            Err(e) => {
                proof {
                    lemma_chain_fault(
                        ctx@,
                        strs(vars@),
                        items@,
                        (it.index() + 1) as nat,
                        items@.len(),
                    );
                }
                return Err(e);
            },
            Ok(x) => {
                out.push((op, Box::new(x)));
            },
        }
    }
    Ok(out)
}

fn resolve_inits(ctx: &Context, vars: &Vec<String>, items: Vec<(String, Box<Expression>)>) -> (r: Result<
    Vec<(String, Box<Expression>)>,
    ResolveError,
>)
    ensures
        outcome(
            r,
            inits_fault(ctx@, strs(vars@), items@, items@.len()),
            |new: Vec<(String, Box<Expression>)>| inits_resolved(ctx@, strs(vars@), items@, new@),
        ),
    decreases items, 1nat,
{
    let mut out: Vec<(String, Box<Expression>)> = Vec::new();
    for item in it: items
        invariant
            out@.len() == it.index(),
            it.seq() == items@,
            inits_fault(ctx@, strs(vars@), items@, it.index() as nat) is None,
            forall|i: int|
                0 <= i < out@.len() ==> items@[i].0 == (#[trigger] out@[i]).0 && expr_resolved(
                    ctx@,
                    strs(vars@),
                    *items@[i].1,
                    *out@[i].1,
                ),
    {
        let (field, value) = item;
        match resolve_expr(ctx, vars, *value) {
            Err(e) => {
                proof {
                    lemma_inits_fault(
                        ctx@,
                        strs(vars@),
                        items@,
                        (it.index() + 1) as nat,
                        items@.len(),
                    );
                }
                return Err(e);
            },
            Ok(x) => {
                out.push((field, Box::new(x)));
            },
        }
    }
    Ok(out)
}

/// Resolves an expression; see [`expr_fault`] and [`expr_resolved`].
pub fn resolve_expr(ctx: &Context, vars: &Vec<String>, e: Expression) -> (r: Result<
    Expression,
    ResolveError,
>)
    ensures
        outcome(
            r,
            expr_fault(ctx@, strs(vars@), e),
            |new: Expression| expr_resolved(ctx@, strs(vars@), e, new),
        ),
    decreases e, 0nat,
{
    match e {
        Expression::Name(t) => {
            match resolve_typed(ctx, vars, t) {
                Err(e) => Err(e),
                Ok(t) => Ok(Expression::Name(t)),
            }
        },
        Expression::MemberAccess { loc, lhs, op, rhs } => {
            match resolve_expr(ctx, vars, *lhs) {
                Err(e) => Err(e),
                Ok(l) => Ok(Expression::MemberAccess { loc, lhs: Box::new(l), op, rhs }),
            }
        },
        Expression::ArrayAccess { loc, lhs, rhs } => {
            let l = match resolve_expr(ctx, vars, *lhs) {
                Err(e) => {
                    return Err(e);
                },
                Ok(l) => l,
            };
            match resolve_expr(ctx, vars, *rhs) {
                Err(e) => Err(e),
                Ok(r) => Ok(Expression::ArrayAccess { loc, lhs: Box::new(l), rhs: Box::new(r) }),
            }
        },
        Expression::Literal { loc, v } => Ok(Expression::Literal { loc, v }),
        Expression::LiteralString { loc, v } => Ok(Expression::LiteralString { loc, v }),
        Expression::LiteralChar { loc, v } => Ok(Expression::LiteralChar { loc, v }),
        Expression::Call { loc, name, args } => {
            let name = match resolve_typed(ctx, vars, name) {
                Err(e) => {
                    return Err(e);
                },
                Ok(n) => n,
            };
            match resolve_exprs(ctx, vars, args) {
                Err(e) => Err(e),
                Ok(args) => Ok(Expression::Call { loc, name, args }),
            }
        },
        Expression::InfixOperation { loc, lhs, rhs } => {
            let l = match resolve_expr(ctx, vars, *lhs) {
                Err(e) => {
                    return Err(e);
                },
                Ok(l) => l,
            };
            match resolve_chain(ctx, vars, rhs) {
                Err(e) => Err(e),
                Ok(rhs) => Ok(Expression::InfixOperation { loc, lhs: Box::new(l), rhs }),
            }
        },
        Expression::Cast { loc, into, expr } => {
            let into = match resolve_typed(ctx, vars, into) {
                Err(e) => {
                    return Err(e);
                },
                Ok(t) => t,
            };
            match resolve_expr(ctx, vars, *expr) {
                Err(e) => Err(e),
                Ok(x) => Ok(Expression::Cast { loc, into, expr: Box::new(x) }),
            }
        },
        Expression::UnaryPost { loc, op, expr } => {
            match resolve_expr(ctx, vars, *expr) {
                Err(e) => Err(e),
                Ok(x) => Ok(Expression::UnaryPost { loc, op, expr: Box::new(x) }),
            }
        },
        Expression::UnaryPre { loc, op, expr } => {
            match resolve_expr(ctx, vars, *expr) {
                Err(e) => Err(e),
                Ok(x) => Ok(Expression::UnaryPre { loc, op, expr: Box::new(x) }),
            }
        },
        Expression::StructInit { loc, typed, fields } => {
            let typed = match resolve_typed(ctx, vars, typed) {
                Err(e) => {
                    return Err(e);
                },
                Ok(t) => t,
            };
            match resolve_inits(ctx, vars, fields) {
                Err(e) => Err(e),
                Ok(fields) => Ok(Expression::StructInit { loc, typed, fields }),
            }
        },
        Expression::ArrayInit { loc, fields } => {
            match resolve_exprs(ctx, vars, fields) {
                Err(e) => Err(e),
                Ok(fields) => Ok(Expression::ArrayInit { loc, fields }),
            }
        },
        Expression::MacroCall { loc, name, args } => {
            let name = match resolve(ctx, vars, &name) {
                Err(Access::Private) => {
                    return Err(ResolveError::VisibilityViolation(loc));
                },
                Err(_) => {
                    return Err(ResolveError::UnknownSymbol(loc));
                },
                Ok((n, _)) => n,
            };
            match resolve_exprs(ctx, vars, args) {
                Err(e) => Err(e),
                Ok(args) => Ok(Expression::MacroCall { loc, name, args }),
            }
        },
    }
}

/// Whether tags hold a storage class.
pub open spec fn has_storage_class(tags: Tags) -> bool {
    tags@.contains_key("thread_local"@) || tags@.contains_key("atomic"@)
}

/// The fault of a storage class on something that is not a static variable.
pub open spec fn storage_fault(tags: Tags, loc: Location) -> Option<ResolveError> {
    if has_storage_class(tags) {
        Some(ResolveError::IllegalStorage(loc))
    } else {
        None
    }
}

fn check_storage(tags: &Tags, loc: &Location) -> (r: Result<(), ResolveError>)
    ensures
        outcome(r, storage_fault(*tags, *loc), |u: ()| true),
{
    if tags.contains_key("thread_local") || tags.contains_key("atomic") {
        Err(ResolveError::IllegalStorage(loc.clone()))
    } else {
        Ok(())
    }
}

pub open spec fn optional_fault(ctx: Scope, vars: Seq<Seq<char>>, e: Option<Expression>) -> Option<
    ResolveError,
> {
    match e {
        Some(x) => expr_fault(ctx, vars, x),
        None => None,
    }
}

pub open spec fn optional_resolved(
    ctx: Scope,
    vars: Seq<Seq<char>>,
    old: Option<Expression>,
    new: Option<Expression>,
) -> bool {
    match old {
        Some(x) => new is Some && expr_resolved(ctx, vars, x, new->0),
        None => new is None,
    }
}

fn resolve_optional(ctx: &Context, vars: &Vec<String>, e: Option<Expression>) -> (r: Result<
    Option<Expression>,
    ResolveError,
>)
    ensures
        outcome(
            r,
            optional_fault(ctx@, strs(vars@), e),
            |new: Option<Expression>| optional_resolved(ctx@, strs(vars@), e, new),
        ),
{
    match e {
        None => Ok(None),
        Some(x) => match resolve_expr(ctx, vars, x) {
            Err(e) => Err(e),
            Ok(y) => Ok(Some(y)),
        },
    }
}

/// The variables in scope after a statement: a declaration adds its name.
pub open spec fn stmt_vars(s: Statement, vars: Seq<Seq<char>>) -> Seq<Seq<char>> {
    match s {
        Statement::Var { name, .. } => vars.push(name@),
        _ => vars,
    }
}

/// The variables in scope after the first `n` statements.
pub open spec fn stmts_vars(stmts: Seq<Statement>, vars: Seq<Seq<char>>, n: nat) -> Seq<Seq<char>>
    decreases n,
{
    if n == 0 || n > stmts.len() {
        vars
    } else {
        stmt_vars(stmts[n - 1], stmts_vars(stmts, vars, (n - 1) as nat))
    }
}

/// The variables in scope after the first `n` statements of a loop header.
pub open spec fn boxed_vars(stmts: Seq<Box<Statement>>, vars: Seq<Seq<char>>, n: nat) -> Seq<
    Seq<char>,
>
    decreases n,
{
    if n == 0 || n > stmts.len() {
        vars
    } else {
        stmt_vars(*stmts[n - 1], boxed_vars(stmts, vars, (n - 1) as nat))
    }
}

/// Why a statement cannot be resolved, if it cannot. A declaration's type and
/// initialiser are read before its name comes into scope; what a block or a
/// loop declares is in scope to its end; what the first clause of a loop
/// header declares is in scope in the other clauses and in the body.
pub open spec fn stmt_fault(ctx: Scope, vars: Seq<Seq<char>>, s: Statement) -> Option<ResolveError>
    decreases s, 0nat,
{
    match s {
        Statement::Mark { lhs, .. } => expr_fault(ctx, vars, lhs),
        Statement::Label { .. } => None,
        Statement::Goto { .. } => None,
        Statement::Assign { lhs, rhs, .. } => first(
            expr_fault(ctx, vars, lhs),
            expr_fault(ctx, vars, rhs),
        ),
        Statement::Expr { expr, .. } => expr_fault(ctx, vars, expr),
        Statement::Continue { .. } => None,
        Statement::Break { .. } => None,
        Statement::Return { expr, .. } => optional_fault(ctx, vars, expr),
        Statement::Var { loc, typed, tags, array, assign, .. } => first(
            first(
                first(storage_fault(tags, loc), typed_fault(ctx, vars, typed)),
                optional_fault(ctx, vars, array),
            ),
            optional_fault(ctx, vars, assign),
        ),
        Statement::For { e1, e2, e3, body } => {
            let inner = boxed_vars(e1@, vars, e1@.len());
            first(
                first(
                    first(
                        boxed_fault(ctx, vars, e1@, e1@.len()),
                        boxed_fault(ctx, inner, e2@, e2@.len()),
                    ),
                    boxed_fault(ctx, inner, e3@, e3@.len()),
                ),
                block_fault(ctx, inner, body),
            )
        },
        Statement::Cond { expr, body, .. } => first(
            optional_fault(ctx, vars, expr),
            block_fault(ctx, vars, body),
        ),
        Statement::Block(b) => block_fault(ctx, vars, *b),
    }
}

pub open spec fn block_fault(ctx: Scope, vars: Seq<Seq<char>>, b: Block) -> Option<ResolveError>
    decreases b, 0nat,
{
    stmts_fault(ctx, vars, b.statements@, b.statements@.len())
}

/// The first fault among the first `n` statements, each read in the scope that
/// the ones before it leave.
pub open spec fn stmts_fault(ctx: Scope, vars: Seq<Seq<char>>, stmts: Seq<Statement>, n: nat) -> Option<
    ResolveError,
>
    decreases stmts, n,
{
    if n == 0 || n > stmts.len() {
        None
    } else {
        first(
            stmts_fault(ctx, vars, stmts, (n - 1) as nat),
            stmt_fault(ctx, stmts_vars(stmts, vars, (n - 1) as nat), stmts[n - 1]),
        )
    }
}

pub open spec fn boxed_fault(ctx: Scope, vars: Seq<Seq<char>>, stmts: Seq<Box<Statement>>, n: nat) -> Option<
    ResolveError,
>
    decreases stmts, n,
{
    if n == 0 || n > stmts.len() {
        None
    } else {
        first(
            boxed_fault(ctx, vars, stmts, (n - 1) as nat),
            stmt_fault(ctx, boxed_vars(stmts, vars, (n - 1) as nat), *stmts[n - 1]),
        )
    }
}

/// Whether `new` is `old` resolved in the scope `vars`.
pub open spec fn stmt_resolved(ctx: Scope, vars: Seq<Seq<char>>, old: Statement, new: Statement) -> bool
    decreases old, 0nat,
{
    match old {
        Statement::Mark { lhs, loc, key, value } => new matches Statement::Mark {
            lhs: h2,
            loc: l2,
            key: k2,
            value: v2,
        } && l2 == loc && k2 == key && v2 == value && expr_resolved(ctx, vars, lhs, h2),
        Statement::Label { .. } => new == old,
        Statement::Goto { .. } => new == old,
        Statement::Assign { loc, lhs, op, rhs } => new matches Statement::Assign {
            loc: l2,
            lhs: h2,
            op: o2,
            rhs: r2,
        } && l2 == loc && o2 == op && expr_resolved(ctx, vars, lhs, h2) && expr_resolved(
            ctx,
            vars,
            rhs,
            r2,
        ),
        Statement::Expr { loc, expr } => new matches Statement::Expr { loc: l2, expr: e2 } && l2
            == loc && expr_resolved(ctx, vars, expr, e2),
        Statement::Continue { .. } => new == old,
        Statement::Break { .. } => new == old,
        Statement::Return { loc, expr } => new matches Statement::Return { loc: l2, expr: e2 }
            && l2 == loc && optional_resolved(ctx, vars, expr, e2),
        Statement::Var { loc, typed, tags, name, array, assign } => new matches Statement::Var {
            loc: l2,
            typed: t2,
            tags: g2,
            name: n2,
            array: a2,
            assign: sg2,
        } && l2 == loc && g2 == tags && n2 == name && typed_resolved(ctx, vars, typed, t2)
            && optional_resolved(ctx, vars, array, a2) && optional_resolved(
            ctx,
            vars,
            assign,
            sg2,
        ),
        Statement::For { e1, e2, e3, body } => new matches Statement::For {
            e1: a1,
            e2: a2,
            e3: a3,
            body: b2,
        } && boxed_resolved(ctx, vars, e1@, a1@) && boxed_resolved(
            ctx,
            boxed_vars(e1@, vars, e1@.len()),
            e2@,
            a2@,
        ) && boxed_resolved(ctx, boxed_vars(e1@, vars, e1@.len()), e3@, a3@) && block_resolved(
            ctx,
            boxed_vars(e1@, vars, e1@.len()),
            body,
            b2,
        ),
        Statement::Cond { op, expr, body } => new matches Statement::Cond {
            op: o2,
            expr: e2,
            body: b2,
        } && o2 == op && optional_resolved(ctx, vars, expr, e2) && block_resolved(
            ctx,
            vars,
            body,
            b2,
        ),
        Statement::Block(b) => new is Block && block_resolved(ctx, vars, *b, *new->Block_0),
    }
}

pub open spec fn block_resolved(ctx: Scope, vars: Seq<Seq<char>>, old: Block, new: Block) -> bool
    decreases old, 0nat,
{
    new.end == old.end && stmts_resolved(ctx, vars, old.statements@, new.statements@)
}

pub open spec fn stmts_resolved(
    ctx: Scope,
    vars: Seq<Seq<char>>,
    old: Seq<Statement>,
    new: Seq<Statement>,
) -> bool
    decreases old, 1nat,
{
    old.len() == new.len() && forall|i: int|
        0 <= i < old.len() ==> stmt_resolved(
            ctx,
            stmts_vars(old, vars, i as nat),
            old[i],
            #[trigger] new[i],
        )
}

pub open spec fn boxed_resolved(
    ctx: Scope,
    vars: Seq<Seq<char>>,
    old: Seq<Box<Statement>>,
    new: Seq<Box<Statement>>,
) -> bool
    decreases old, 1nat,
{
    old.len() == new.len() && forall|i: int|
        0 <= i < old.len() ==> stmt_resolved(
            ctx,
            boxed_vars(old, vars, i as nat),
            *old[i],
            *#[trigger] new[i],
        )
}

proof fn lemma_stmts_fault(ctx: Scope, vars: Seq<Seq<char>>, stmts: Seq<Statement>, k: nat, n: nat)
    requires
        k <= n <= stmts.len(),
        stmts_fault(ctx, vars, stmts, k) is Some,
    ensures
        stmts_fault(ctx, vars, stmts, n) == stmts_fault(ctx, vars, stmts, k),
    decreases n,
{
    if k < n {
        lemma_stmts_fault(ctx, vars, stmts, k, (n - 1) as nat);
    }
}

proof fn lemma_boxed_fault(ctx: Scope, vars: Seq<Seq<char>>, stmts: Seq<Box<Statement>>, k: nat, n: nat)
    requires
        k <= n <= stmts.len(),
        boxed_fault(ctx, vars, stmts, k) is Some,
    ensures
        boxed_fault(ctx, vars, stmts, n) == boxed_fault(ctx, vars, stmts, k),
    decreases n,
{
    if k < n {
        lemma_boxed_fault(ctx, vars, stmts, k, (n - 1) as nat);
    }
}

/// Resolves the statements of a loop header clause, and extends `vars` by
/// what they declare.
fn resolve_boxed(ctx: &Context, vars: &mut Vec<String>, stmts: Vec<Box<Statement>>) -> (r: Result<
    Vec<Box<Statement>>,
    ResolveError,
>)
    ensures
        outcome(
            r,
            boxed_fault(ctx@, strs(old(vars)@), stmts@, stmts@.len()),
            |new: Vec<Box<Statement>>|
                boxed_resolved(ctx@, strs(old(vars)@), stmts@, new@) && strs(final(vars)@)
                    == boxed_vars(stmts@, strs(old(vars)@), stmts@.len()),
        ),
    decreases stmts, 1nat,
{
    let mut out: Vec<Box<Statement>> = Vec::new();
    for item in it: stmts
        invariant
            out@.len() == it.index(),
            it.seq() == stmts@,
            boxed_fault(ctx@, strs(old(vars)@), stmts@, it.index() as nat) is None,
            strs(vars@) == boxed_vars(stmts@, strs(old(vars)@), it.index() as nat),
            forall|i: int|
                0 <= i < out@.len() ==> stmt_resolved(
                    ctx@,
                    boxed_vars(stmts@, strs(old(vars)@), i as nat),
                    *stmts@[i],
                    *#[trigger] out@[i],
                ),
    {
        match resolve_statement(ctx, vars, *item) {
            Err(e) => {
                proof {
                    lemma_boxed_fault(
                        ctx@,
                        strs(old(vars)@),
                        stmts@,
                        (it.index() + 1) as nat,
                        stmts@.len(),
                    );
                }
                return Err(e);
            },
            Ok(x) => {
                out.push(Box::new(x));
            },
        }
    }
    Ok(out)
}

/// Resolves a block in the scope `vars`; what it declares goes out of scope
/// at its end.
pub fn resolve_block(ctx: &Context, vars: &Vec<String>, b: Block) -> (r: Result<Block, ResolveError>)
    ensures
        outcome(
            r,
            block_fault(ctx@, strs(vars@), b),
            |new: Block| block_resolved(ctx@, strs(vars@), b, new),
        ),
    decreases b, 1nat,
{
    let mut inner = copy_strings(vars);
    let Block { end, statements } = b;
    let mut out: Vec<Statement> = Vec::new();
    for item in it: statements
        invariant
            out@.len() == it.index(),
            it.seq() == statements@,
            statements == b.statements,
            stmts_fault(ctx@, strs(vars@), statements@, it.index() as nat) is None,
            strs(inner@) == stmts_vars(statements@, strs(vars@), it.index() as nat),
            forall|i: int|
                0 <= i < out@.len() ==> stmt_resolved(
                    ctx@,
                    stmts_vars(statements@, strs(vars@), i as nat),
                    statements@[i],
                    #[trigger] out@[i],
                ),
    {
        match resolve_statement(ctx, &mut inner, item) {
            Err(e) => {
                proof {
                    lemma_stmts_fault(
                        ctx@,
                        strs(vars@),
                        statements@,
                        (it.index() + 1) as nat,
                        statements@.len(),
                    );
                }
                return Err(e);
            },
            Ok(x) => {
                out.push(x);
            },
        }
    }
    Ok(Block { end, statements: out })
}

/// Resolves a statement in the scope `vars`, and extends `vars` by what it
/// declares; see [`stmt_fault`] and [`stmt_resolved`].
pub fn resolve_statement(ctx: &Context, vars: &mut Vec<String>, s: Statement) -> (r: Result<
    Statement,
    ResolveError,
>)
    ensures
        outcome(
            r,
            stmt_fault(ctx@, strs(old(vars)@), s),
            |new: Statement|
                stmt_resolved(ctx@, strs(old(vars)@), s, new) && strs(final(vars)@) == stmt_vars(
                    s,
                    strs(old(vars)@),
                ),
        ),
    decreases s, 0nat,
{
    match s {
        Statement::Mark { lhs, loc, key, value } => {
            match resolve_expr(ctx, vars, lhs) {
                Err(e) => Err(e),
                Ok(lhs) => Ok(Statement::Mark { lhs, loc, key, value }),
            }
        },
        Statement::Label { loc, label } => Ok(Statement::Label { loc, label }),
        Statement::Goto { loc, label } => Ok(Statement::Goto { loc, label }),
        Statement::Assign { loc, lhs, op, rhs } => {
            let lhs = match resolve_expr(ctx, vars, lhs) {
                Err(e) => {
                    return Err(e);
                },
                Ok(x) => x,
            };
            match resolve_expr(ctx, vars, rhs) {
                Err(e) => Err(e),
                Ok(rhs) => Ok(Statement::Assign { loc, lhs, op, rhs }),
            }
        },
        Statement::Expr { loc, expr } => {
            match resolve_expr(ctx, vars, expr) {
                Err(e) => Err(e),
                Ok(expr) => Ok(Statement::Expr { loc, expr }),
            }
        },
        Statement::Continue { loc } => Ok(Statement::Continue { loc }),
        Statement::Break { loc } => Ok(Statement::Break { loc }),
        Statement::Return { loc, expr } => {
            match resolve_optional(ctx, vars, expr) {
                Err(e) => Err(e),
                Ok(expr) => Ok(Statement::Return { loc, expr }),
            }
        },
        Statement::Var { loc, typed, tags, name, array, assign } => {
            match check_storage(&tags, &loc) {
                Err(e) => {
                    return Err(e);
                },
                Ok(()) => {},
            }
            let typed = match resolve_typed(ctx, vars, typed) {
                Err(e) => {
                    return Err(e);
                },
                Ok(t) => t,
            };
            let array = match resolve_optional(ctx, vars, array) {
                Err(e) => {
                    return Err(e);
                },
                Ok(a) => a,
            };
            let assign = match resolve_optional(ctx, vars, assign) {
                Err(e) => {
                    return Err(e);
                },
                Ok(a) => a,
            };
            let ghost before = strs(vars@);
            vars.push(name.clone());
            proof {
                assert(strs(vars@) =~= before.push(name@));
            }
            Ok(Statement::Var { loc, typed, tags, name, array, assign })
        },
        Statement::For { e1, e2, e3, body } => {
            let mut inner = copy_strings(vars);
            let e1 = match resolve_boxed(ctx, &mut inner, e1) {
                Err(e) => {
                    return Err(e);
                },
                Ok(x) => x,
            };
            let mut second = copy_strings(&inner);
            let e2 = match resolve_boxed(ctx, &mut second, e2) {
                Err(e) => {
                    return Err(e);
                },
                Ok(x) => x,
            };
            let mut third = copy_strings(&inner);
            let e3 = match resolve_boxed(ctx, &mut third, e3) {
                Err(e) => {
                    return Err(e);
                },
                Ok(x) => x,
            };
            match resolve_block(ctx, &inner, body) {
                Err(e) => Err(e),
                Ok(body) => Ok(Statement::For { e1, e2, e3, body }),
            }
        },
        Statement::Cond { op, expr, body } => {
            let expr = match resolve_optional(ctx, vars, expr) {
                Err(e) => {
                    return Err(e);
                },
                Ok(x) => x,
            };
            match resolve_block(ctx, vars, body) {
                Err(e) => Err(e),
                Ok(body) => Ok(Statement::Cond { op, expr, body }),
            }
        },
        Statement::Block(b) => {
            match resolve_block(ctx, vars, *b) {
                Err(e) => Err(e),
                Ok(b) => Ok(Statement::Block(Box::new(b))),
            }
        },
    }
}

/// The scope of a definition's signature: no variable.
pub open spec fn no_vars() -> Seq<Seq<char>> {
    Seq::empty()
}

/// The names of the arguments.
pub open spec fn arg_names(args: Seq<NamedArg>) -> Seq<Seq<char>> {
    Seq::new(args.len(), |i: int| args[i].name@)
}

pub open spec fn arg_fault(ctx: Scope, arg: NamedArg) -> Option<ResolveError> {
    first(storage_fault(arg.tags, arg.loc), typed_fault(ctx, no_vars(), arg.typed))
}

pub open spec fn arg_resolved(ctx: Scope, old: NamedArg, new: NamedArg) -> bool {
    new.name == old.name && new.tags == old.tags && new.loc == old.loc && typed_resolved(
        ctx,
        no_vars(),
        old.typed,
        new.typed,
    )
}

pub open spec fn args_fault(ctx: Scope, args: Seq<NamedArg>, n: nat) -> Option<ResolveError>
    decreases n,
{
    if n == 0 || n > args.len() {
        None
    } else {
        first(args_fault(ctx, args, (n - 1) as nat), arg_fault(ctx, args[n - 1]))
    }
}

pub open spec fn args_resolved(ctx: Scope, old: Seq<NamedArg>, new: Seq<NamedArg>) -> bool {
    old.len() == new.len() && forall|i: int|
        0 <= i < old.len() ==> arg_resolved(ctx, old[i], #[trigger] new[i])
}

pub open spec fn ret_fault(ctx: Scope, ret: Option<AnonArg>) -> Option<ResolveError> {
    match ret {
        Some(a) => typed_fault(ctx, no_vars(), a.typed),
        None => None,
    }
}

pub open spec fn ret_resolved(ctx: Scope, old: Option<AnonArg>, new: Option<AnonArg>) -> bool {
    match old {
        Some(a) => new is Some && typed_resolved(ctx, no_vars(), a.typed, new->0.typed),
        None => new is None,
    }
}

pub open spec fn array_fault(ctx: Scope, a: Array) -> Option<ResolveError> {
    match a {
        Array::Sized(e) => expr_fault(ctx, no_vars(), e),
        _ => None,
    }
}

pub open spec fn array_resolved(ctx: Scope, old: Array, new: Array) -> bool {
    match old {
        Array::Sized(e) => new is Sized && expr_resolved(ctx, no_vars(), e, new->Sized_0),
        Array::Unsized => new is Unsized,
        Array::Absent => new is Absent,
    }
}

pub open spec fn field_fault(ctx: Scope, f: Field) -> Option<ResolveError> {
    first(
        first(storage_fault(f.tags, f.loc), typed_fault(ctx, no_vars(), f.typed)),
        array_fault(ctx, f.array),
    )
}

pub open spec fn field_resolved(ctx: Scope, old: Field, new: Field) -> bool {
    new.name == old.name && new.tags == old.tags && new.loc == old.loc && typed_resolved(
        ctx,
        no_vars(),
        old.typed,
        new.typed,
    ) && array_resolved(ctx, old.array, new.array)
}

pub open spec fn fields_fault(ctx: Scope, fields: Seq<Field>, n: nat) -> Option<ResolveError>
    decreases n,
{
    if n == 0 || n > fields.len() {
        None
    } else {
        first(fields_fault(ctx, fields, (n - 1) as nat), field_fault(ctx, fields[n - 1]))
    }
}

pub open spec fn fields_resolved(ctx: Scope, old: Seq<Field>, new: Seq<Field>) -> bool {
    old.len() == new.len() && forall|i: int|
        0 <= i < old.len() ==> field_resolved(ctx, old[i], #[trigger] new[i])
}

/// Why a definition of visibility `vis`, declared at `loc`, cannot be
/// resolved, if it cannot. A static variable must keep to its object file;
/// arguments, fields and local variables take no storage class; the body of a
/// function or macro is read with the arguments in scope.
pub open spec fn def_fault(ctx: Scope, vis: Visibility, loc: Location, d: Def) -> Option<ResolveError> {
    match d {
        Def::Static { typed, expr, .. } => first(
            first(
                if vis != Visibility::Object {
                    Some(ResolveError::IllegalStorage(loc))
                } else {
                    None
                },
                typed_fault(ctx, no_vars(), typed),
            ),
            expr_fault(ctx, no_vars(), expr),
        ),
        Def::Const { typed, expr } => first(
            typed_fault(ctx, no_vars(), typed),
            expr_fault(ctx, no_vars(), expr),
        ),
        Def::Function { ret, args, body, .. } => first(
            first(ret_fault(ctx, ret), args_fault(ctx, args@, args@.len())),
            block_fault(ctx, arg_names(args@), body),
        ),
        Def::Struct { fields, .. } => fields_fault(ctx, fields@, fields@.len()),
        Def::Enum { .. } => None,
        Def::Closure { ret, args, .. } => first(
            ret_fault(ctx, ret),
            args_fault(ctx, args@, args@.len()),
        ),
        Def::Macro { args, body } => block_fault(ctx, strs(args@), body),
    }
}

/// Whether `new` is the definition `old` resolved.
pub open spec fn def_resolved(ctx: Scope, old: Def, new: Def) -> bool {
    match old {
        Def::Static { tags, typed, expr, storage } => new matches Def::Static {
            tags: g2,
            typed: t2,
            expr: e2,
            storage: sg2,
        } && g2 == tags && sg2 == storage && typed_resolved(ctx, no_vars(), typed, t2)
            && expr_resolved(ctx, no_vars(), expr, e2),
        Def::Const { typed, expr } => new matches Def::Const { typed: t2, expr: e2 }
            && typed_resolved(ctx, no_vars(), typed, t2) && expr_resolved(
            ctx,
            no_vars(),
            expr,
            e2,
        ),
        Def::Function { ret, args, body, vararg } => new matches Def::Function {
            ret: r2,
            args: a2,
            body: b2,
            vararg: v2,
        } && v2 == vararg && ret_resolved(ctx, ret, r2) && args_resolved(ctx, args@, a2@)
            && block_resolved(ctx, arg_names(args@), body, b2),
        Def::Struct { fields, packed, tail, union } => new matches Def::Struct {
            fields: f2,
            packed: pk2,
            tail: t2,
            union: u2,
        } && pk2 == packed && t2 == tail && u2 == union && fields_resolved(ctx, fields@, f2@),
        Def::Enum { .. } => new == old,
        Def::Closure { ret, args, attr } => new matches Def::Closure {
            ret: r2,
            args: a2,
            attr: t2,
        } && t2 == attr && ret_resolved(ctx, ret, r2) && args_resolved(ctx, args@, a2@),
        Def::Macro { args, body } => new matches Def::Macro { args: a2, body: b2 } && a2 == args
            && block_resolved(ctx, strs(args@), body, b2),
    }
}

pub open spec fn local_fault(ctx: Scope, l: Local) -> Option<ResolveError> {
    def_fault(ctx, l.vis, l.loc, l.def)
}

pub open spec fn local_resolved(ctx: Scope, old: Local, new: Local) -> bool {
    new.name == old.name && new.export_as == old.export_as && new.vis == old.vis && new.loc
        == old.loc && def_resolved(ctx, old.def, new.def)
}

pub open spec fn locals_fault(ctx: Scope, locals: Seq<Local>, n: nat) -> Option<ResolveError>
    decreases n,
{
    if n == 0 || n > locals.len() {
        None
    } else {
        first(locals_fault(ctx, locals, (n - 1) as nat), local_fault(ctx, locals[n - 1]))
    }
}

pub open spec fn locals_resolved(ctx: Scope, old: Seq<Local>, new: Seq<Local>) -> bool {
    old.len() == new.len() && forall|i: int|
        0 <= i < old.len() ==> local_resolved(ctx, old[i], #[trigger] new[i])
}

proof fn lemma_args_fault(ctx: Scope, args: Seq<NamedArg>, k: nat, n: nat)
    requires
        k <= n <= args.len(),
    ensures
        args_fault(ctx, args, k) is Some ==> args_fault(ctx, args, n) == args_fault(ctx, args, k),
    decreases n,
{
    if k < n {
        lemma_args_fault(ctx, args, k, (n - 1) as nat);
    }
}

proof fn lemma_fields_fault(ctx: Scope, fields: Seq<Field>, k: nat, n: nat)
    requires
        k <= n <= fields.len(),
    ensures
        fields_fault(ctx, fields, k) is Some ==> fields_fault(ctx, fields, n) == fields_fault(
            ctx,
            fields,
            k,
        ),
    decreases n,
{
    if k < n {
        lemma_fields_fault(ctx, fields, k, (n - 1) as nat);
    }
}

pub proof fn lemma_locals_fault(ctx: Scope, locals: Seq<Local>, k: nat, n: nat)
    requires
        k <= n <= locals.len(),
        locals_fault(ctx, locals, k) is Some,
    ensures
        locals_fault(ctx, locals, n) == locals_fault(ctx, locals, k),
    decreases n,
{
    if k < n {
        lemma_locals_fault(ctx, locals, k, (n - 1) as nat);
    }
}

fn empty_scope() -> (v: Vec<String>)
    ensures
        strs(v@) == no_vars(),
{
    let v: Vec<String> = Vec::new();
    proof {
        assert(strs(v@) =~= no_vars());
    }
    v
}

fn resolve_args(ctx: &Context, args: Vec<NamedArg>) -> (r: Result<Vec<NamedArg>, ResolveError>)
    ensures
        outcome(
            r,
            args_fault(ctx@, args@, args@.len()),
            |new: Vec<NamedArg>| args_resolved(ctx@, args@, new@),
        ),
{
    let none = empty_scope();
    let mut out: Vec<NamedArg> = Vec::new();
    for arg in it: args
        invariant
            out@.len() == it.index(),
            it.seq() == args@,
            strs(none@) == no_vars(),
            args_fault(ctx@, args@, it.index() as nat) is None,
            forall|i: int| 0 <= i < out@.len() ==> arg_resolved(ctx@, args@[i], #[trigger] out@[i]),
    {
        let NamedArg { typed, name, tags, loc } = arg;
        proof {
            lemma_args_fault(ctx@, args@, (it.index() + 1) as nat, args@.len());
        }
        match check_storage(&tags, &loc) {
            Err(e) => {
                return Err(e);
            },
            Ok(()) => {},
        }
        match resolve_typed(ctx, &none, typed) {
            Err(e) => {
                return Err(e);
            },
            Ok(typed) => {
                out.push(NamedArg { typed, name, tags, loc });
            },
        }
    }
    Ok(out)
}

fn resolve_ret(ctx: &Context, ret: Option<AnonArg>) -> (r: Result<Option<AnonArg>, ResolveError>)
    ensures
        outcome(r, ret_fault(ctx@, ret), |new: Option<AnonArg>| ret_resolved(ctx@, ret, new)),
{
    let none = empty_scope();
    match ret {
        None => Ok(None),
        Some(a) => match resolve_typed(ctx, &none, a.typed) {
            Err(e) => Err(e),
            Ok(typed) => Ok(Some(AnonArg { typed })),
        },
    }
}

fn resolve_fields(ctx: &Context, fields: Vec<Field>) -> (r: Result<Vec<Field>, ResolveError>)
    ensures
        outcome(
            r,
            fields_fault(ctx@, fields@, fields@.len()),
            |new: Vec<Field>| fields_resolved(ctx@, fields@, new@),
        ),
{
    let none = empty_scope();
    let mut out: Vec<Field> = Vec::new();
    for field in it: fields
        invariant
            out@.len() == it.index(),
            it.seq() == fields@,
            strs(none@) == no_vars(),
            fields_fault(ctx@, fields@, it.index() as nat) is None,
            forall|i: int|
                0 <= i < out@.len() ==> field_resolved(ctx@, fields@[i], #[trigger] out@[i]),
    {
        let Field { typed, name, array, tags, loc } = field;
        proof {
            lemma_fields_fault(ctx@, fields@, (it.index() + 1) as nat, fields@.len());
        }
        match check_storage(&tags, &loc) {
            Err(e) => {
                return Err(e);
            },
            Ok(()) => {},
        }
        let typed = match resolve_typed(ctx, &none, typed) {
            Err(e) => {
                return Err(e);
            },
            Ok(t) => t,
        };
        let array = match array {
            Array::Sized(e) => match resolve_expr(ctx, &none, e) {
                Err(e) => {
                    return Err(e);
                },
                Ok(x) => Array::Sized(x),
            },
            Array::Unsized => Array::Unsized,
            Array::Absent => Array::Absent,
        };
        out.push(Field { typed, name, array, tags, loc });
    }
    Ok(out)
}

fn names_of_args(args: &Vec<NamedArg>) -> (names: Vec<String>)
    ensures
        strs(names@) == arg_names(args@),
{
    let mut names: Vec<String> = Vec::new();
    let mut i: usize = 0;
    while i < args.len()
        invariant
            i <= args.len(),
            names@.len() == i,
            forall|k: int| 0 <= k < i ==> names@[k]@ == args@[k].name@,
        decreases args.len() - i,
    {
        names.push(args[i].name.clone());
        i = i + 1;
    }
    proof {
        assert(strs(names@) =~= arg_names(args@));
    }
    names
}

/// Resolves a top-level declaration; see [`def_fault`] and [`def_resolved`].
pub fn resolve_local(ctx: &Context, l: Local) -> (r: Result<Local, ResolveError>)
    ensures
        outcome(r, local_fault(ctx@, l), |new: Local| local_resolved(ctx@, l, new)),
{
    let Local { name, export_as, vis, loc, def } = l;
    let none = empty_scope();
    let def = match def {
        Def::Static { tags, typed, expr, storage } => {
            match vis {
                Visibility::Object => {},
                _ => {
                    return Err(ResolveError::IllegalStorage(loc));
                },
            }
            let typed = match resolve_typed(ctx, &none, typed) {
                Err(e) => {
                    return Err(e);
                },
                Ok(t) => t,
            };
            match resolve_expr(ctx, &none, expr) {
                Err(e) => {
                    return Err(e);
                },
                Ok(expr) => Def::Static { tags, typed, expr, storage },
            }
        },
        Def::Const { typed, expr } => {
            let typed = match resolve_typed(ctx, &none, typed) {
                Err(e) => {
                    return Err(e);
                },
                Ok(t) => t,
            };
            match resolve_expr(ctx, &none, expr) {
                Err(e) => {
                    return Err(e);
                },
                Ok(expr) => Def::Const { typed, expr },
            }
        },
        Def::Function { ret, args, body, vararg } => {
            let ret = match resolve_ret(ctx, ret) {
                Err(e) => {
                    return Err(e);
                },
                Ok(r) => r,
            };
            let vars = names_of_args(&args);
            let args = match resolve_args(ctx, args) {
                Err(e) => {
                    return Err(e);
                },
                Ok(a) => a,
            };
            match resolve_block(ctx, &vars, body) {
                Err(e) => {
                    return Err(e);
                },
                Ok(body) => Def::Function { ret, args, body, vararg },
            }
        },
        Def::Struct { fields, packed, tail, union } => {
            match resolve_fields(ctx, fields) {
                Err(e) => {
                    return Err(e);
                },
                Ok(fields) => Def::Struct { fields, packed, tail, union },
            }
        },
        Def::Enum { names } => Def::Enum { names },
        Def::Closure { ret, args, attr } => {
            let ret = match resolve_ret(ctx, ret) {
                Err(e) => {
                    return Err(e);
                },
                Ok(r) => r,
            };
            match resolve_args(ctx, args) {
                Err(e) => {
                    return Err(e);
                },
                Ok(args) => Def::Closure { ret, args, attr },
            }
        },
        Def::Macro { args, body } => {
            match resolve_block(ctx, &args, body) {
                Err(e) => {
                    return Err(e);
                },
                Ok(body) => Def::Macro { args, body },
            }
        },
    };
    Ok(Local { name, export_as, vis, loc, def })
}

/// Resolves the top-level declarations of a module, in order.
pub fn resolve_locals(ctx: &Context, locals: Vec<Local>) -> (r: Result<Vec<Local>, ResolveError>)
    ensures
        outcome(
            r,
            locals_fault(ctx@, locals@, locals@.len()),
            |new: Vec<Local>| locals_resolved(ctx@, locals@, new@),
        ),
{
    let mut out: Vec<Local> = Vec::new();
    for l in it: locals
        invariant
            out@.len() == it.index(),
            it.seq() == locals@,
            locals_fault(ctx@, locals@, it.index() as nat) is None,
            forall|i: int| 0 <= i < out@.len() ==> local_resolved(ctx@, locals@[i], #[trigger] out@[i]),
    {
        match resolve_local(ctx, l) {
            Err(e) => {
                proof {
                    lemma_locals_fault(ctx@, locals@, (it.index() + 1) as nat, locals@.len());
                }
                return Err(e);
            },
            Ok(x) => {
                out.push(x);
            },
        }
    }
    Ok(out)
}

} // verus!
