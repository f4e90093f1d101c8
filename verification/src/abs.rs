//! The resolver's entry point: one module, resolved against the exports of
//! all modules.

use vstd::prelude::*;
use vstd::string::*;
use crate::ast::{Local, Module};
use crate::makro::{module_has_call, uses_macros};
use crate::alias::{alias_table, aliases_ok};
use crate::name::Name;
use crate::resolve_ast::{locals_fault, locals_resolved, resolve_locals};
use crate::resolver::{all_bindings, bind_imports, Bound, Context, Exports, ResolveError, Scope};
use crate::text::{copy_strings, strs};

verus! {

/// The identifiers of a module's own definitions.
pub open spec fn own_names(locals: Seq<Local>) -> Seq<Seq<char>> {
    Seq::new(locals.len(), |i: int| locals[i].name@)
}

/// What the names in a module are resolved against.
pub open spec fn module_scope(all: Seq<Exports>, m: Module, bindings: Seq<Bound>) -> Scope {
    Scope { all, this: m.name@, bindings, own: own_names(m.locals@) }
}

/// Why a module cannot be resolved, if it cannot: the fault of its first
/// import that fails, or else of its first definition that does.
#[verifier::opaque]
pub open spec fn module_fault(all: Seq<Exports>, m: Module) -> Option<ResolveError> {
    match all_bindings(all, m.name@, m.imports@, m.imports@.len()) {
        Err(e) => Some(e),
        Ok(b) => locals_fault(module_scope(all, m, b), m.locals@, m.locals@.len()),
    }
}

/// An alias table as plain values: external name and local identifier.
pub open spec fn alias_views(aliases: Seq<(Name, String)>) -> Seq<(Seq<Seq<char>>, Seq<char>)> {
    Seq::new(aliases.len(), |i: int| (aliases[i].0@, aliases[i].1@))
}

/// Whether `new` is `old` resolved: every definition resolved against the
/// module's imports and its own definitions, the alias table filled with the
/// outside names that the resolved definitions use, and the rest as before.
#[verifier::opaque]
pub open spec fn module_resolved(all: Seq<Exports>, old: Module, new: Module) -> bool {
    &&& all_bindings(all, old.name@, old.imports@, old.imports@.len()) is Ok
    &&& new.name == old.name
    &&& new.source == old.source
    &&& new.imports == old.imports
    &&& new.includes == old.includes
    &&& new.sources == old.sources
    &&& locals_resolved(
        module_scope(
            all,
            old,
            all_bindings(all, old.name@, old.imports@, old.imports@.len())->Ok_0,
        ),
        old.locals@,
        new.locals@,
    )
    &&& aliases_ok(new.name@, new.locals@, alias_views(new.aliases@))
}

/// What the resolver reports of one module.
#[derive(Debug, PartialEq)]
pub enum Resolution {
    /// Every name in the module is resolved.
    Complete(Module),
    /// The module holds macro call-sites and the macro stage has not run: it
    /// is handed back as it came.
    Pending(Module),
}

fn names_of_locals(locals: &Vec<Local>) -> (names: Vec<String>)
    ensures
        strs(names@) == own_names(locals@),
{
    let mut names: Vec<String> = Vec::new();
    let mut i: usize = 0;
    while i < locals.len()
        invariant
            i <= locals.len(),
            names@.len() == i,
            forall|k: int| 0 <= k < i ==> names@[k]@ == locals@[k].name@,
        decreases locals.len() - i,
    {
        names.push(locals[i].name.clone());
        i = i + 1;
    }
    proof {
        assert(strs(names@) =~= own_names(locals@));
    }
    names
}

/// Resolves one module against the exports of all modules.
///
/// A module that holds macro call-sites while the macro stage has not run is
/// pending, and handed back unchanged. Any other module is either resolved, or
/// fails with the fault of its first import or definition that cannot be
/// resolved.
pub fn abs(module: Module, all: &Vec<Exports>, macros_available: bool) -> (r: Result<
    Resolution,
    ResolveError,
>)
    ensures
        !macros_available && module_has_call(module) ==> r == Ok::<Resolution, ResolveError>(
            Resolution::Pending(module),
        ),
        macros_available || !module_has_call(module) ==> (match module_fault(all@, module) {
            Some(e) => r == Err::<Resolution, ResolveError>(e),
            None => r matches Ok(Resolution::Complete(m)) && module_resolved(all@, module, m),
        }),
{
    proof {
        reveal(module_fault);
        reveal(module_resolved);
    }
    if !macros_available && uses_macros(&module) {
        return Ok(Resolution::Pending(module));
    }
    let bindings = match bind_imports(all, &module.name, &module.imports) {
        Err(e) => {
            return Err(e);
        },
        Ok(b) => b,
    };
    let own = names_of_locals(&module.locals);
    let ctx = Context { all, this: module.name.clone(), bindings, own };
    let Module { name, source, locals, imports, includes, sources, aliases: _ } = module;
    let out = match resolve_locals(&ctx, locals) {
        Err(e) => {
            return Err(e);
        },
        Ok(x) => x,
    };
    let aliases = alias_table(&name, &out);
    Ok(Resolution::Complete(Module { name, source, locals: out, imports, includes, sources, aliases }))
}

} // verus!
