//! Macros: telling whether call-sites are left that expansion has yet to replace.

use vstd::prelude::*;
use crate::ast::{
    Array, Block, Def, Expression, Field, InfixOperator, Local, Location, Module, Statement,
};

verus! {

/// Whether an expression holds a macro call-site.
pub open spec fn expr_has_call(e: Expression) -> bool
    decreases e, 0nat,
{
    match e {
        Expression::Name(_) => false,
        Expression::MemberAccess { lhs, .. } => expr_has_call(*lhs),
        Expression::ArrayAccess { lhs, rhs, .. } => expr_has_call(*lhs) || expr_has_call(*rhs),
        Expression::Literal { .. } => false,
        Expression::LiteralString { .. } => false,
        Expression::LiteralChar { .. } => false,
        Expression::Call { args, .. } => exprs_have_call(args@, args@.len()),
        Expression::InfixOperation { lhs, rhs, .. } => expr_has_call(*lhs) || chain_has_call(
            rhs@,
            rhs@.len(),
        ),
        Expression::Cast { expr, .. } => expr_has_call(*expr),
        Expression::UnaryPost { expr, .. } => expr_has_call(*expr),
        Expression::UnaryPre { expr, .. } => expr_has_call(*expr),
        Expression::StructInit { fields, .. } => inits_have_call(fields@, fields@.len()),
        Expression::ArrayInit { fields, .. } => exprs_have_call(fields@, fields@.len()),
        Expression::MacroCall { .. } => true,
    }
}

pub open spec fn exprs_have_call(items: Seq<Box<Expression>>, n: nat) -> bool
    decreases items, n,
{
    if n == 0 || n > items.len() {
        false
    } else {
        exprs_have_call(items, (n - 1) as nat) || expr_has_call(*items[n - 1])
    }
}

pub open spec fn chain_has_call(items: Seq<((InfixOperator, Location), Box<Expression>)>, n: nat) -> bool
    decreases items, n,
{
    if n == 0 || n > items.len() {
        false
    } else {
        chain_has_call(items, (n - 1) as nat) || expr_has_call(*items[n - 1].1)
    }
}

pub open spec fn inits_have_call(items: Seq<(String, Box<Expression>)>, n: nat) -> bool
    decreases items, n,
{
    if n == 0 || n > items.len() {
        false
    } else {
        inits_have_call(items, (n - 1) as nat) || expr_has_call(*items[n - 1].1)
    }
}

pub open spec fn optional_has_call(e: Option<Expression>) -> bool {
    match e {
        Some(x) => expr_has_call(x),
        None => false,
    }
}

/// Whether a statement holds a macro call-site.
pub open spec fn stmt_has_call(s: Statement) -> bool
    decreases s, 0nat,
{
    match s {
        Statement::Mark { lhs, .. } => expr_has_call(lhs),
        Statement::Label { .. } => false,
        Statement::Goto { .. } => false,
        Statement::Assign { lhs, rhs, .. } => expr_has_call(lhs) || expr_has_call(rhs),
        Statement::Expr { expr, .. } => expr_has_call(expr),
        Statement::Continue { .. } => false,
        Statement::Break { .. } => false,
        Statement::Return { expr, .. } => optional_has_call(expr),
        Statement::Var { array, assign, .. } => optional_has_call(array) || optional_has_call(
            assign,
        ),
        Statement::For { e1, e2, e3, body } => boxed_have_call(e1@, e1@.len()) || boxed_have_call(
            e2@,
            e2@.len(),
        ) || boxed_have_call(e3@, e3@.len()) || block_has_call(body),
        Statement::Cond { expr, body, .. } => optional_has_call(expr) || block_has_call(body),
        Statement::Block(b) => block_has_call(*b),
    }
}

pub open spec fn block_has_call(b: Block) -> bool
    decreases b, 0nat,
{
    stmts_have_call(b.statements@, b.statements@.len())
}

pub open spec fn stmts_have_call(stmts: Seq<Statement>, n: nat) -> bool
    decreases stmts, n,
{
    if n == 0 || n > stmts.len() {
        false
    } else {
        stmts_have_call(stmts, (n - 1) as nat) || stmt_has_call(stmts[n - 1])
    }
}

pub open spec fn boxed_have_call(stmts: Seq<Box<Statement>>, n: nat) -> bool
    decreases stmts, n,
{
    if n == 0 || n > stmts.len() {
        false
    } else {
        boxed_have_call(stmts, (n - 1) as nat) || stmt_has_call(*stmts[n - 1])
    }
}

pub open spec fn field_has_call(f: Field) -> bool {
    match f.array {
        Array::Sized(e) => expr_has_call(e),
        _ => false,
    }
}

pub open spec fn fields_have_call(fields: Seq<Field>, n: nat) -> bool
    decreases n,
{
    if n == 0 || n > fields.len() {
        false
    } else {
        fields_have_call(fields, (n - 1) as nat) || field_has_call(fields[n - 1])
    }
}

/// Whether a definition holds a macro call-site.
pub open spec fn def_has_call(d: Def) -> bool {
    match d {
        Def::Static { expr, .. } => expr_has_call(expr),
        Def::Const { expr, .. } => expr_has_call(expr),
        Def::Function { body, .. } => block_has_call(body),
        Def::Struct { fields, .. } => fields_have_call(fields@, fields@.len()),
        Def::Enum { .. } => false,
        Def::Closure { .. } => false,
        Def::Macro { body, .. } => block_has_call(body),
    }
}

pub open spec fn locals_have_call(locals: Seq<Local>, n: nat) -> bool
    decreases n,
{
    if n == 0 || n > locals.len() {
        false
    } else {
        locals_have_call(locals, (n - 1) as nat) || def_has_call(locals[n - 1].def)
    }
}

/// Whether a module holds a macro call-site.
pub open spec fn module_has_call(m: Module) -> bool {
    locals_have_call(m.locals@, m.locals@.len())
}

proof fn lemma_exprs_call(items: Seq<Box<Expression>>, k: nat, n: nat)
    requires
        k <= n <= items.len(),
    ensures
        exprs_have_call(items, k) ==> exprs_have_call(items, n),
    decreases n,
{
    if k < n {
        lemma_exprs_call(items, k, (n - 1) as nat);
    }
}

proof fn lemma_chain_call(items: Seq<((InfixOperator, Location), Box<Expression>)>, k: nat, n: nat)
    requires
        k <= n <= items.len(),
    ensures
        chain_has_call(items, k) ==> chain_has_call(items, n),
    decreases n,
{
    if k < n {
        lemma_chain_call(items, k, (n - 1) as nat);
    }
}

proof fn lemma_inits_call(items: Seq<(String, Box<Expression>)>, k: nat, n: nat)
    requires
        k <= n <= items.len(),
    ensures
        inits_have_call(items, k) ==> inits_have_call(items, n),
    decreases n,
{
    if k < n {
        lemma_inits_call(items, k, (n - 1) as nat);
    }
}

proof fn lemma_stmts_call(stmts: Seq<Statement>, k: nat, n: nat)
    requires
        k <= n <= stmts.len(),
    ensures
        stmts_have_call(stmts, k) ==> stmts_have_call(stmts, n),
    decreases n,
{
    if k < n {
        lemma_stmts_call(stmts, k, (n - 1) as nat);
    }
}

proof fn lemma_boxed_call(stmts: Seq<Box<Statement>>, k: nat, n: nat)
    requires
        k <= n <= stmts.len(),
    ensures
        boxed_have_call(stmts, k) ==> boxed_have_call(stmts, n),
    decreases n,
{
    if k < n {
        lemma_boxed_call(stmts, k, (n - 1) as nat);
    }
}

proof fn lemma_fields_call(fields: Seq<Field>, k: nat, n: nat)
    requires
        k <= n <= fields.len(),
    ensures
        fields_have_call(fields, k) ==> fields_have_call(fields, n),
    decreases n,
{
    if k < n {
        lemma_fields_call(fields, k, (n - 1) as nat);
    }
}

proof fn lemma_locals_call(locals: Seq<Local>, k: nat, n: nat)
    requires
        k <= n <= locals.len(),
    ensures
        locals_have_call(locals, k) ==> locals_have_call(locals, n),
    decreases n,
{
    if k < n {
        lemma_locals_call(locals, k, (n - 1) as nat);
    }
}

fn exprs_call(items: &Vec<Box<Expression>>) -> (b: bool)
    ensures
        b == exprs_have_call(items@, items@.len()),
    decreases items, 1nat,
{
    let mut i: usize = 0;
    while i < items.len()
        invariant
            i <= items.len(),
            !exprs_have_call(items@, i as nat),
        decreases items.len() - i,
    {
        if has_call(&*items[i]) {
            proof {
                lemma_exprs_call(items@, (i + 1) as nat, items@.len());
            }
            return true;
        }
        i = i + 1;
    }
    false
}

fn chain_call(items: &Vec<((InfixOperator, Location), Box<Expression>)>) -> (b: bool)
    ensures
        b == chain_has_call(items@, items@.len()),
    decreases items, 1nat,
{
    let mut i: usize = 0;
    while i < items.len()
        invariant
            i <= items.len(),
            !chain_has_call(items@, i as nat),
        decreases items.len() - i,
    {
        if has_call(&*items[i].1) {
            proof {
                lemma_chain_call(items@, (i + 1) as nat, items@.len());
            }
            return true;
        }
        i = i + 1;
    }
    false
}

fn inits_call(items: &Vec<(String, Box<Expression>)>) -> (b: bool)
    ensures
        b == inits_have_call(items@, items@.len()),
    decreases items, 1nat,
{
    let mut i: usize = 0;
    while i < items.len()
        invariant
            i <= items.len(),
            !inits_have_call(items@, i as nat),
        decreases items.len() - i,
    {
        if has_call(&*items[i].1) {
            proof {
                lemma_inits_call(items@, (i + 1) as nat, items@.len());
            }
            return true;
        }
        i = i + 1;
    }
    false
}

/// Whether an expression holds a macro call-site.
pub fn has_call(e: &Expression) -> (b: bool)
    ensures
        b == expr_has_call(*e),
    decreases e, 0nat,
{
    match e {
        Expression::Name(_) => false,
        Expression::MemberAccess { lhs, .. } => has_call(&**lhs),
        Expression::ArrayAccess { lhs, rhs, .. } => has_call(&**lhs) || has_call(&**rhs),
        Expression::Literal { .. } => false,
        Expression::LiteralString { .. } => false,
        Expression::LiteralChar { .. } => false,
        Expression::Call { args, .. } => exprs_call(args),
        Expression::InfixOperation { lhs, rhs, .. } => has_call(&**lhs) || chain_call(rhs),
        Expression::Cast { expr, .. } => has_call(&**expr),
        Expression::UnaryPost { expr, .. } => has_call(&**expr),
        Expression::UnaryPre { expr, .. } => has_call(&**expr),
        Expression::StructInit { fields, .. } => inits_call(fields),
        Expression::ArrayInit { fields, .. } => exprs_call(fields),
        Expression::MacroCall { .. } => true,
    }
}

fn optional_call(e: &Option<Expression>) -> (b: bool)
    ensures
        b == optional_has_call(*e),
{
    match e {
        Some(x) => has_call(x),
        None => false,
    }
}

fn boxed_call(stmts: &Vec<Box<Statement>>) -> (b: bool)
    ensures
        b == boxed_have_call(stmts@, stmts@.len()),
    decreases stmts, 1nat,
{
    let mut i: usize = 0;
    while i < stmts.len()
        invariant
            i <= stmts.len(),
            !boxed_have_call(stmts@, i as nat),
        decreases stmts.len() - i,
    {
        if statement_has_call(&*stmts[i]) {
            proof {
                lemma_boxed_call(stmts@, (i + 1) as nat, stmts@.len());
            }
            return true;
        }
        i = i + 1;
    }
    false
}

fn block_call(b: &Block) -> (found: bool)
    ensures
        found == block_has_call(*b),
    decreases b, 1nat,
{
    let mut i: usize = 0;
    while i < b.statements.len()
        invariant
            i <= b.statements.len(),
            !stmts_have_call(b.statements@, i as nat),
        decreases b.statements.len() - i,
    {
        if statement_has_call(&b.statements[i]) {
            proof {
                lemma_stmts_call(b.statements@, (i + 1) as nat, b.statements@.len());
            }
            return true;
        }
        i = i + 1;
    }
    false
}

/// Whether a statement holds a macro call-site.
pub fn statement_has_call(s: &Statement) -> (b: bool)
    ensures
        b == stmt_has_call(*s),
    decreases s, 0nat,
{
    match s {
        Statement::Mark { lhs, .. } => has_call(lhs),
        Statement::Label { .. } => false,
        Statement::Goto { .. } => false,
        Statement::Assign { lhs, rhs, .. } => has_call(lhs) || has_call(rhs),
        Statement::Expr { expr, .. } => has_call(expr),
        Statement::Continue { .. } => false,
        Statement::Break { .. } => false,
        Statement::Return { expr, .. } => optional_call(expr),
        Statement::Var { array, assign, .. } => optional_call(array) || optional_call(assign),
        Statement::For { e1, e2, e3, body } => boxed_call(e1) || boxed_call(e2) || boxed_call(e3)
            || block_call(body),
        Statement::Cond { expr, body, .. } => optional_call(expr) || block_call(body),
        Statement::Block(b) => block_call(&**b),
    }
}

fn fields_call(fields: &Vec<Field>) -> (b: bool)
    ensures
        b == fields_have_call(fields@, fields@.len()),
{
    let mut i: usize = 0;
    while i < fields.len()
        invariant
            i <= fields.len(),
            !fields_have_call(fields@, i as nat),
        decreases fields.len() - i,
    {
        let found = match &fields[i].array {
            Array::Sized(e) => has_call(e),
            _ => false,
        };
        if found {
            proof {
                lemma_fields_call(fields@, (i + 1) as nat, fields@.len());
            }
            return true;
        }
        i = i + 1;
    }
    false
}

fn definition_has_call(d: &Def) -> (b: bool)
    ensures
        b == def_has_call(*d),
{
    match d {
        Def::Static { expr, .. } => has_call(expr),
        Def::Const { expr, .. } => has_call(expr),
        Def::Function { body, .. } => block_call(body),
        Def::Struct { fields, .. } => fields_call(fields),
        Def::Enum { .. } => false,
        Def::Closure { .. } => false,
        Def::Macro { body, .. } => block_call(body),
    }
}

/// Whether a module holds a macro call-site, and so has to wait for the macro
/// stage.
pub fn uses_macros(m: &Module) -> (b: bool)
    ensures
        b == module_has_call(*m),
{
    let mut i: usize = 0;
    while i < m.locals.len()
        invariant
            i <= m.locals.len(),
            !locals_have_call(m.locals@, i as nat),
        decreases m.locals.len() - i,
    {
        if definition_has_call(&m.locals[i].def) {
            proof {
                lemma_locals_call(m.locals@, (i + 1) as nat, m.locals@.len());
            }
            return true;
        }
        i = i + 1;
    }
    false
}

} // verus!
