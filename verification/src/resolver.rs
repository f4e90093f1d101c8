//! Name resolution: every name in a module is rewritten to its absolute form,
//! imports are looked up and checked for visibility, and each outside name gets
//! a local alias.

use vstd::prelude::*;
use vstd::string::*;
use crate::assoc::str_eq;
use crate::ast::{Import, Location, Module, Type, Visibility};
use crate::name::{is_absolute_name, Name};
use crate::text::{copy_strings, strs};

verus! {

/// What a module shows to the others: its absolute name and, for each of its
/// top-level definitions, the identifier and the visibility. A foreign module
/// is a C header, whose symbols are not listed.
#[derive(Clone, Debug, PartialEq)]
pub struct Exports {
    pub name: Name,
    pub foreign: bool,
    pub symbols: Vec<(String, Visibility)>,
}

/// Why a module could not be resolved.
#[derive(Debug, PartialEq)]
pub enum ResolveError {
    /// A name refers to nothing that is in scope, imported, declared or built in.
    UnknownSymbol(Location),
    /// A name refers to a definition that only its own module may use.
    VisibilityViolation(Location),
    /// Two imports give the same identifier two meanings.
    Ambiguous(Location),
    /// A storage class stands where the language has none.
    IllegalStorage(Location),
    /// A whole pass resolved no module while this one was still pending.
    UnresolvedReference(Name),
}

/// The position of the first module named `n` at or after `from`.
pub open spec fn exports_from(all: Seq<Exports>, n: Seq<Seq<char>>, from: int) -> Option<int>
    decreases all.len() - from,
{
    if from < 0 || from >= all.len() {
        None
    } else if all[from].name@ == n {
        Some(from)
    } else {
        exports_from(all, n, from + 1)
    }
}

/// The visibility of the first definition called `ident` at or after `from`.
pub open spec fn visibility_from(symbols: Seq<(String, Visibility)>, ident: Seq<char>, from: int) -> Option<
    Visibility,
>
    decreases symbols.len() - from,
{
    if from < 0 || from >= symbols.len() {
        None
    } else if symbols[from].0@ == ident {
        Some(symbols[from].1)
    } else {
        visibility_from(symbols, ident, from + 1)
    }
}

/// Whether a module may use a name.
#[derive(Clone, Copy, Debug, PartialEq, Eq, Structural)]
pub enum Access {
    Granted,
    Unknown,
    Private,
}

/// Whether the module `this` may use the absolute name `target`.
///
/// A name under `::ext` belongs to foreign code and is granted. Any other name
/// is a symbol of the module that its leading segments name: it must have at
/// least three segments, the module must be known, and the symbol must be one
/// of its definitions (a foreign module's symbols are not listed, and are
/// granted). A definition of `Object` visibility is private to its module.
pub open spec fn access(all: Seq<Exports>, this: Seq<Seq<char>>, target: Seq<Seq<char>>) -> Access {
    if target.len() >= 2 && target[1] == "ext"@ {
        Access::Granted
    } else if target.len() < 3 {
        Access::Unknown
    } else {
        match exports_from(all, target.drop_last(), 0) {
            None => Access::Unknown,
            Some(i) => if all[i].foreign {
                Access::Granted
            } else {
                match visibility_from(all[i].symbols@, target.last(), 0) {
                    None => Access::Unknown,
                    Some(v) => if v == Visibility::Object && target.drop_last() != this {
                        Access::Private
                    } else {
                        Access::Granted
                    },
                }
            },
        }
    }
}

/// The position of the module named `n`, if it is known.
pub fn find_exports(all: &Vec<Exports>, n: &Vec<String>, len: usize) -> (at: Option<usize>)
    requires
        len <= n.len(),
    ensures
        (match at {
            Some(i) => Some(i as int),
            None => None,
        }) == exports_from(all@, strs(n@).subrange(0, len as int), 0),
        at matches Some(i) ==> i < all.len(),
{
    let ghost want = strs(n@).subrange(0, len as int);
    let mut i: usize = 0;
    while i < all.len()
        invariant
            i <= all.len(),
            len <= n.len(),
            want == strs(n@).subrange(0, len as int),
            exports_from(all@, want, 0) == exports_from(all@, want, i as int),
        decreases all.len() - i,
    {
        if same_prefix(&all[i].name.0, n, len) {
            return Some(i);
        }
        i = i + 1;
    }
    None
}

/// Whether `a` is the first `len` strings of `b`.
pub fn same_prefix(a: &Vec<String>, b: &Vec<String>, len: usize) -> (same: bool)
    requires
        len <= b.len(),
    ensures
        same == (strs(a@) == strs(b@).subrange(0, len as int)),
{
    if a.len() != len {
        proof {
            assert(strs(a@).len() != strs(b@).subrange(0, len as int).len());
        }
        return false;
    }
    let mut i: usize = 0;
    while i < len
        invariant
            a.len() == len,
            len <= b.len(),
            i <= len,
            forall|k: int| 0 <= k < i ==> a@[k]@ == b@[k]@,
        decreases len - i,
    {
        if a[i] != b[i] {
            proof {
                assert(strs(a@)[i as int] != strs(b@).subrange(0, len as int)[i as int]);
            }
            return false;
        }
        i = i + 1;
    }
    proof {
        assert(strs(a@) =~= strs(b@).subrange(0, len as int));
    }
    true
}

/// The visibility of the definition called `ident`, if there is one.
pub fn find_visibility(symbols: &Vec<(String, Visibility)>, ident: &str) -> (v: Option<Visibility>)
    ensures
        v == visibility_from(symbols@, ident@, 0),
{
    let mut i: usize = 0;
    while i < symbols.len()
        invariant
            i <= symbols.len(),
            visibility_from(symbols@, ident@, 0) == visibility_from(symbols@, ident@, i as int),
        decreases symbols.len() - i,
    {
        if str_eq(symbols[i].0.as_str(), ident) {
            return Some(symbols[i].1);
        }
        i = i + 1;
    }
    None
}

/// Whether the module `this` may use the absolute name `target`; see
/// [`access`].
pub fn check_access(all: &Vec<Exports>, this: &Name, target: &Name) -> (a: Access)
    ensures
        a == access(all@, this@, target@),
{
    let n = target.0.len();
    if n >= 2 && str_eq(target.0[1].as_str(), "ext") {
        return Access::Granted;
    }
    if n < 3 {
        return Access::Unknown;
    }
    proof {
        assert(target@.drop_last() == strs(target.0@).subrange(0, n - 1));
    }
    match find_exports(all, &target.0, n - 1) {
        None => Access::Unknown,
        Some(i) => {
            if all[i].foreign {
                return Access::Granted;
            }
            match find_visibility(&all[i].symbols, target.0[n - 1].as_str()) {
                None => Access::Unknown,
                Some(v) => {
                    let own = same_prefix(&this.0, &target.0, n - 1);
                    match v {
                        Visibility::Object => if own {
                            Access::Granted
                        } else {
                            Access::Private
                        },
                        _ => Access::Granted,
                    }
                },
            }
        },
    }
}

/// What an identifier stands for through an import: a module, whose symbols
/// are then reached as `ident::symbol`, or a single symbol.
#[derive(Clone, Debug, PartialEq)]
pub struct Binding {
    pub ident: String,
    pub target: Name,
    pub module: bool,
}

/// A binding as plain values: identifier, target, and whether the target is a
/// module.
pub type Bound = (Seq<char>, Seq<Seq<char>>, bool);

pub open spec fn bound(b: Binding) -> Bound {
    (b.ident@, b.target@, b.module)
}

pub open spec fn bounds(v: Seq<Binding>) -> Seq<Bound> {
    Seq::new(v.len(), |i: int| bound(v[i]))
}

/// The first binding of `ident` at or after `from`.
pub open spec fn binding_from(bindings: Seq<Bound>, ident: Seq<char>, from: int) -> Option<Bound>
    decreases bindings.len() - from,
{
    if from < 0 || from >= bindings.len() {
        None
    } else if bindings[from].0 == ident {
        Some(bindings[from])
    } else {
        binding_from(bindings, ident, from + 1)
    }
}

/// The namespace a module lives in: its name without the last segment.
pub open spec fn namespace(this: Seq<Seq<char>>) -> Seq<Seq<char>> {
    if this.len() > 0 {
        this.drop_last()
    } else {
        this
    }
}

/// Whether an absolute name is a known module or a name that `this` may or
/// may not use, as opposed to nothing at all.
pub open spec fn known(all: Seq<Exports>, this: Seq<Seq<char>>, t: Seq<Seq<char>>) -> bool {
    exports_from(all, t, 0) is Some || access(all, this, t) != Access::Unknown
}

/// The absolute name that an import path stands for: itself where it is
/// absolute; else the path inside the importing module's namespace where that
/// is known; else the path from the root, which reaches other projects.
pub open spec fn import_target(all: Seq<Exports>, this: Seq<Seq<char>>, n: Seq<Seq<char>>) -> Seq<
    Seq<char>,
> {
    if is_absolute_name(n) {
        n
    } else if is_absolute_name(namespace(this) + n) && known(all, this, namespace(this) + n) {
        namespace(this) + n
    } else {
        seq![Seq::<char>::empty()] + n
    }
}

/// The bindings after one more: unchanged where the identifier already has
/// this meaning, an error where it has another.
pub open spec fn add_binding(acc: Seq<Bound>, b: Bound, loc: Location) -> Result<
    Seq<Bound>,
    ResolveError,
> {
    match binding_from(acc, b.0, 0) {
        None => Ok(acc.push(b)),
        Some(x) => if x == b {
            Ok(acc)
        } else {
            Err(ResolveError::Ambiguous(loc))
        },
    }
}

/// The bindings after the first `n` picks `{a, b as c}` of an import of the
/// module `target`.
pub open spec fn pick_bindings(
    all: Seq<Exports>,
    this: Seq<Seq<char>>,
    acc: Seq<Bound>,
    target: Seq<Seq<char>>,
    picks: Seq<(String, Option<String>)>,
    loc: Location,
    n: nat,
) -> Result<Seq<Bound>, ResolveError>
    decreases n,
{
    if n == 0 || n > picks.len() {
        Ok(acc)
    } else {
        match pick_bindings(all, this, acc, target, picks, loc, (n - 1) as nat) {
            Err(e) => Err(e),
            Ok(sofar) => {
                let pick = picks[n - 1];
                let symbol = target.push(pick.0@);
                match access(all, this, symbol) {
                    Access::Unknown => Err(ResolveError::UnknownSymbol(loc)),
                    Access::Private => Err(ResolveError::VisibilityViolation(loc)),
                    Access::Granted => add_binding(
                        sofar,
                        (
                            match pick.1 {
                                Some(a) => a@,
                                None => pick.0@,
                            },
                            symbol,
                            false,
                        ),
                        loc,
                    ),
                }
            },
        }
    }
}

/// The bindings after one import.
///
/// With picks, the path must name a known module, and each pick a symbol that
/// the importer may use. Without, the path names a module, bound under its last
/// segment or the alias, or a symbol that the importer may use.
pub open spec fn import_bindings(
    all: Seq<Exports>,
    this: Seq<Seq<char>>,
    acc: Seq<Bound>,
    import: Import,
) -> Result<Seq<Bound>, ResolveError> {
    let target = import_target(all, this, import.name@);
    if target.len() == 0 {
        Err(ResolveError::UnknownSymbol(import.loc))
    } else if import.local@.len() > 0 {
        if exports_from(all, target, 0) is None {
            Err(ResolveError::UnknownSymbol(import.loc))
        } else {
            pick_bindings(all, this, acc, target, import.local@, import.loc, import.local@.len())
        }
    } else {
        let ident = match import.alias {
            Some(a) => a@,
            None => target.last(),
        };
        if exports_from(all, target, 0) is Some {
            add_binding(acc, (ident, target, true), import.loc)
        } else {
            match access(all, this, target) {
                Access::Unknown => Err(ResolveError::UnknownSymbol(import.loc)),
                Access::Private => Err(ResolveError::VisibilityViolation(import.loc)),
                Access::Granted => add_binding(acc, (ident, target, false), import.loc),
            }
        }
    }
}

/// The bindings after the first `n` imports of a module.
pub open spec fn all_bindings(all: Seq<Exports>, this: Seq<Seq<char>>, imports: Seq<Import>, n: nat) -> Result<
    Seq<Bound>,
    ResolveError,
>
    decreases n,
{
    if n == 0 || n > imports.len() {
        Ok(Seq::empty())
    } else {
        match all_bindings(all, this, imports, (n - 1) as nat) {
            Err(e) => Err(e),
            Ok(acc) => import_bindings(all, this, acc, imports[n - 1]),
        }
    }
}

/// The kind of a built-in type name.
pub open spec fn builtin_kind(ident: Seq<char>) -> Option<Type> {
    if ident == "u8"@ {
        Some(Type::U8)
    } else if ident == "u16"@ {
        Some(Type::U16)
    } else if ident == "u32"@ {
        Some(Type::U32)
    } else if ident == "u64"@ {
        Some(Type::U64)
    } else if ident == "u128"@ {
        Some(Type::U128)
    } else if ident == "i8"@ {
        Some(Type::I8)
    } else if ident == "i16"@ {
        Some(Type::I16)
    } else if ident == "i32"@ {
        Some(Type::I32)
    } else if ident == "i64"@ {
        Some(Type::I64)
    } else if ident == "i128"@ {
        Some(Type::I128)
    } else if ident == "int"@ {
        Some(Type::Int)
    } else if ident == "uint"@ {
        Some(Type::UInt)
    } else if ident == "isize"@ {
        Some(Type::ISize)
    } else if ident == "usize"@ {
        Some(Type::USize)
    } else if ident == "bool"@ {
        Some(Type::Bool)
    } else if ident == "f32"@ {
        Some(Type::F32)
    } else if ident == "f64"@ {
        Some(Type::F64)
    } else if ident == "char"@ {
        Some(Type::Char)
    } else if ident == "void"@ {
        Some(Type::Void)
    } else {
        None
    }
}

/// The absolute name of a built-in type.
pub open spec fn builtin_name(ident: Seq<char>) -> Seq<Seq<char>> {
    seq![Seq::<char>::empty(), "ext"@, "<builtin>"@, ident]
}

/// The absolute name of a local variable or argument.
pub open spec fn scoped_name(ident: Seq<char>) -> Seq<Seq<char>> {
    seq![Seq::<char>::empty(), ident]
}

/// What a module resolves names against: the exports of all modules, its own
/// name, what its imports bind, and the identifiers of its own definitions.
pub struct Context<'a> {
    pub all: &'a Vec<Exports>,
    pub this: Name,
    pub bindings: Vec<Binding>,
    pub own: Vec<String>,
}

/// A context as plain values.
pub struct Scope {
    pub all: Seq<Exports>,
    pub this: Seq<Seq<char>>,
    pub bindings: Seq<Bound>,
    pub own: Seq<Seq<char>>,
}

impl<'a> View for Context<'a> {
    type V = Scope;

    open spec fn view(&self) -> Scope {
        Scope {
            all: self.all@,
            this: self.this@,
            bindings: bounds(self.bindings@),
            own: strs(self.own@),
        }
    }
}

/// The absolute name and the kind that a name stands for, or why it stands for
/// nothing. `vars` holds the local variables and arguments in scope.
///
/// An absolute name stands for itself where the module may use it. A relative
/// one is looked up by its first segment: among the variables in scope, then
/// among the imports, then among the module's own definitions, then among the
/// built-in types. Only a name that starts with an imported module may have a
/// second segment, and none may have more.
pub open spec fn resolve_name(ctx: Scope, vars: Seq<Seq<char>>, n: Seq<Seq<char>>) -> Result<
    (Seq<Seq<char>>, Type),
    Access,
> {
    if n.len() == 0 {
        Err(Access::Unknown)
    } else if is_absolute_name(n) {
        match access(ctx.all, ctx.this, n) {
            Access::Granted => Ok((n, Type::Other)),
            a => Err(a),
        }
    } else if vars.contains(n[0]) {
        if n.len() == 1 {
            Ok((scoped_name(n[0]), Type::Other))
        } else {
            Err(Access::Unknown)
        }
    } else {
        match binding_from(ctx.bindings, n[0], 0) {
            Some(b) => if b.2 {
                if n.len() == 2 {
                    match access(ctx.all, ctx.this, b.1.push(n[1])) {
                        Access::Granted => Ok((b.1.push(n[1]), Type::Other)),
                        a => Err(a),
                    }
                } else {
                    Err(Access::Unknown)
                }
            } else {
                if n.len() == 1 {
                    Ok((b.1, Type::Other))
                } else {
                    Err(Access::Unknown)
                }
            },
            None => if n.len() != 1 {
                Err(Access::Unknown)
            } else if ctx.own.contains(n[0]) {
                Ok((ctx.this.push(n[0]), Type::Other))
            } else {
                match builtin_kind(n[0]) {
                    Some(k) => Ok((builtin_name(n[0]), k)),
                    None => Err(Access::Unknown),
                }
            },
        }
    }
}

/// A binding that is found is one of the bindings.
pub proof fn lemma_binding_from(bindings: Seq<Bound>, ident: Seq<char>, from: int)
    requires
        0 <= from,
    ensures
        binding_from(bindings, ident, from) matches Some(b) ==> exists|i: int|
            from <= i < bindings.len() && #[trigger] bindings[i] == b && b.0 == ident,
    decreases bindings.len() - from,
{
    if from < bindings.len() && bindings[from].0 != ident {
        lemma_binding_from(bindings, ident, from + 1);
    }
}

/// Whether `v` holds the text `s`.
pub fn holds(v: &Vec<String>, s: &str) -> (found: bool)
    ensures
        found == strs(v@).contains(s@),
{
    let mut i: usize = 0;
    while i < v.len()
        invariant
            i <= v.len(),
            forall|k: int| 0 <= k < i ==> v@[k]@ != s@,
        decreases v.len() - i,
    {
        if str_eq(v[i].as_str(), s) {
            proof {
                assert(strs(v@)[i as int] == s@);
            }
            return true;
        }
        i = i + 1;
    }
    proof {
        assert forall|k: int| 0 <= k < strs(v@).len() implies strs(v@)[k] != s@ by {}
    }
    false
}

/// The first binding of `ident`, by position.
fn find_binding(bindings: &Vec<Binding>, ident: &str) -> (at: Option<usize>)
    ensures
        (match at {
            Some(i) => Some(bound(bindings@[i as int])),
            None => None,
        }) == binding_from(bounds(bindings@), ident@, 0),
        at matches Some(i) ==> i < bindings.len(),
{
    let mut i: usize = 0;
    while i < bindings.len()
        invariant
            i <= bindings.len(),
            binding_from(bounds(bindings@), ident@, 0) == binding_from(
                bounds(bindings@),
                ident@,
                i as int,
            ),
        decreases bindings.len() - i,
    {
        if str_eq(bindings[i].ident.as_str(), ident) {
            return Some(i);
        }
        i = i + 1;
    }
    None
}

/// The kind of a built-in type name; see [`builtin_kind`].
pub fn builtin(ident: &str) -> (k: Option<Type>)
    ensures
        k == builtin_kind(ident@),
{
    if str_eq(ident, "u8") {
        Some(Type::U8)
    } else if str_eq(ident, "u16") {
        Some(Type::U16)
    } else if str_eq(ident, "u32") {
        Some(Type::U32)
    } else if str_eq(ident, "u64") {
        Some(Type::U64)
    } else if str_eq(ident, "u128") {
        Some(Type::U128)
    } else if str_eq(ident, "i8") {
        Some(Type::I8)
    } else if str_eq(ident, "i16") {
        Some(Type::I16)
    } else if str_eq(ident, "i32") {
        Some(Type::I32)
    } else if str_eq(ident, "i64") {
        Some(Type::I64)
    } else if str_eq(ident, "i128") {
        Some(Type::I128)
    } else if str_eq(ident, "int") {
        Some(Type::Int)
    } else if str_eq(ident, "uint") {
        Some(Type::UInt)
    } else if str_eq(ident, "isize") {
        Some(Type::ISize)
    } else if str_eq(ident, "usize") {
        Some(Type::USize)
    } else if str_eq(ident, "bool") {
        Some(Type::Bool)
    } else if str_eq(ident, "f32") {
        Some(Type::F32)
    } else if str_eq(ident, "f64") {
        Some(Type::F64)
    } else if str_eq(ident, "char") {
        Some(Type::Char)
    } else if str_eq(ident, "void") {
        Some(Type::Void)
    } else {
        None
    }
}

/// `base` with one more segment.
pub fn extended(base: &Name, segment: &String) -> (n: Name)
    ensures
        n@ == base@.push(segment@),
{
    let mut n = base.clone();
    let ghost before = n@;
    n.0.push(segment.clone());
    proof {
        assert(n@ =~= before.push(segment@));
    }
    n
}

/// What a name stands for; see [`resolve_name`].
pub fn resolve(ctx: &Context, vars: &Vec<String>, n: &Name) -> (r: Result<(Name, Type), Access>)
    ensures
        (match r {
            Ok(p) => Ok((p.0@, p.1)),
            Err(a) => Err(a),
        }) == resolve_name(ctx@, strs(vars@), n@),
{
    if n.0.len() == 0 {
        return Err(Access::Unknown);
    }
    if n.is_absolute() {
        return match check_access(ctx.all, &ctx.this, n) {
            Access::Granted => Ok((n.clone(), Type::Other)),
            a => Err(a),
        };
    }
    let head = &n.0[0];
    if holds(vars, head.as_str()) {
        if n.0.len() == 1 {
            let mut segs: Vec<String> = Vec::new();
            segs.push(String::new());
            segs.push(head.clone());
            let name = Name(segs);
            proof {
                assert(name@ =~= scoped_name(n@[0]));
            }
            return Ok((name, Type::Other));
        } else {
            return Err(Access::Unknown);
        }
    }
    match find_binding(&ctx.bindings, head.as_str()) {
        Some(i) => {
            let b = &ctx.bindings[i];
            if b.module {
                if n.0.len() == 2 {
                    let target = extended(&b.target, &n.0[1]);
                    match check_access(ctx.all, &ctx.this, &target) {
                        Access::Granted => Ok((target, Type::Other)),
                        a => Err(a),
                    }
                } else {
                    Err(Access::Unknown)
                }
            } else {
                if n.0.len() == 1 {
                    Ok((b.target.clone(), Type::Other))
                } else {
                    Err(Access::Unknown)
                }
            }
        },
        None => {
            if n.0.len() != 1 {
                Err(Access::Unknown)
            } else if holds(&ctx.own, head.as_str()) {
                Ok((extended(&ctx.this, head), Type::Other))
            } else {
                match builtin(head.as_str()) {
                    Some(k) => {
                        let mut segs: Vec<String> = Vec::new();
                        segs.push(String::new());
                        segs.push(String::from_str("ext"));
                        segs.push(String::from_str("<builtin>"));
                        segs.push(head.clone());
                        let name = Name(segs);
                        proof {
                            assert(name@ =~= builtin_name(n@[0]));
                        }
                        Ok((name, k))
                    },
                    None => Err(Access::Unknown),
                }
            }
        },
    }
}

/// The name made of the first `len` segments of `a`, then those of `b`.
fn joined_name(a: &Vec<String>, len: usize, b: &Vec<String>) -> (n: Name)
    requires
        len <= a.len(),
    ensures
        n@ == strs(a@).subrange(0, len as int) + strs(b@),
{
    let mut segs: Vec<String> = Vec::new();
    let mut i: usize = 0;
    while i < len
        invariant
            i <= len <= a.len(),
            segs@.len() == i,
            forall|k: int| 0 <= k < i ==> segs@[k]@ == a@[k]@,
        decreases len - i,
    {
        segs.push(a[i].clone());
        i = i + 1;
    }
    let mut j: usize = 0;
    while j < b.len()
        invariant
            j <= b.len(),
            len <= a.len(),
            segs@.len() == len + j,
            forall|k: int| 0 <= k < len ==> segs@[k]@ == a@[k]@,
            forall|k: int| 0 <= k < j ==> segs@[len + k]@ == b@[k]@,
        decreases b.len() - j,
    {
        segs.push(b[j].clone());
        j = j + 1;
    }
    let n = Name(segs);
    proof {
        assert(n@ =~= strs(a@).subrange(0, len as int) + strs(b@));
    }
    n
}

/// Whether an absolute name is known; see [`known`].
fn is_known(all: &Vec<Exports>, this: &Name, t: &Name) -> (b: bool)
    ensures
        b == known(all@, this@, t@),
{
    proof {
        assert(strs(t.0@).subrange(0, t.0@.len() as int) == t@);
    }
    if find_exports(all, &t.0, t.0.len()).is_some() {
        return true;
    }
    match check_access(all, this, t) {
        Access::Unknown => false,
        _ => true,
    }
}

/// The absolute name that an import path stands for; see [`import_target`].
pub fn target_of(all: &Vec<Exports>, this: &Name, n: &Name) -> (t: Name)
    ensures
        t@ == import_target(all@, this@, n@),
{
    if n.is_absolute() {
        return n.clone();
    }
    let keep: usize = if this.0.len() > 0 {
        this.0.len() - 1
    } else {
        0
    };
    let near = joined_name(&this.0, keep, &n.0);
    proof {
        assert(strs(this.0@).subrange(0, keep as int) =~= namespace(this@));
    }
    if near.is_absolute() && is_known(all, this, &near) {
        near
    } else {
        let mut root: Vec<String> = Vec::new();
        root.push(String::new());
        let far = joined_name(&root, 1, &n.0);
        proof {
            assert(strs(root@).subrange(0, 1) =~= seq![Seq::<char>::empty()]);
        }
        far
    }
}

fn bind(acc: &mut Vec<Binding>, b: Binding, loc: &Location) -> (r: Result<(), ResolveError>)
    ensures
        match add_binding(bounds(old(acc)@), bound(b), *loc) {
            Ok(next) => r is Ok && bounds(final(acc)@) == next,
            Err(e) => r == Err::<(), ResolveError>(e),
        },
{
    proof {
        lemma_binding_from(bounds(acc@), b.ident@, 0);
    }
    match find_binding(acc, b.ident.as_str()) {
        None => {
            acc.push(b);
            proof {
                assert(bounds(acc@) =~= bounds(old(acc)@).push(bound(b)));
            }
            Ok(())
        },
        Some(i) => {
            if acc[i].target == b.target && acc[i].module == b.module {
                Ok(())
            } else {
                Err(ResolveError::Ambiguous(loc.clone()))
            }
        },
    }
}

proof fn lemma_pick_error(
    all: Seq<Exports>,
    this: Seq<Seq<char>>,
    acc: Seq<Bound>,
    target: Seq<Seq<char>>,
    picks: Seq<(String, Option<String>)>,
    loc: Location,
    k: nat,
    n: nat,
)
    requires
        k <= n <= picks.len(),
        pick_bindings(all, this, acc, target, picks, loc, k) is Err,
    ensures
        pick_bindings(all, this, acc, target, picks, loc, n) == pick_bindings(
            all,
            this,
            acc,
            target,
            picks,
            loc,
            k,
        ),
    decreases n,
{
    if k < n {
        lemma_pick_error(all, this, acc, target, picks, loc, k, (n - 1) as nat);
    }
}

proof fn lemma_bindings_error(all: Seq<Exports>, this: Seq<Seq<char>>, imports: Seq<Import>, k: nat, n: nat)
    requires
        k <= n <= imports.len(),
        all_bindings(all, this, imports, k) is Err,
    ensures
        all_bindings(all, this, imports, n) == all_bindings(all, this, imports, k),
    decreases n,
{
    if k < n {
        lemma_bindings_error(all, this, imports, k, (n - 1) as nat);
    }
}

fn bind_import(all: &Vec<Exports>, this: &Name, acc: &mut Vec<Binding>, import: &Import) -> (r: Result<
    (),
    ResolveError,
>)
    ensures
        match import_bindings(all@, this@, bounds(old(acc)@), *import) {
            Ok(next) => r is Ok && bounds(final(acc)@) == next,
            Err(e) => r == Err::<(), ResolveError>(e),
        },
{
    let target = target_of(all, this, &import.name);
    let n = target.0.len();
    if n == 0 {
        return Err(ResolveError::UnknownSymbol(import.loc.clone()));
    }
    proof {
        assert(strs(target.0@).subrange(0, n as int) == target@);
    }
    let module = find_exports(all, &target.0, n);
    if import.local.len() > 0 {
        if module.is_none() {
            return Err(ResolveError::UnknownSymbol(import.loc.clone()));
        }
        let mut i: usize = 0;
        while i < import.local.len()
            invariant
                i <= import.local.len(),
                import.local@.len() > 0,
                target@ == import_target(all@, this@, import.name@),
                target@.len() > 0,
                exports_from(all@, target@, 0) is Some,
                pick_bindings(
                    all@,
                    this@,
                    bounds(old(acc)@),
                    target@,
                    import.local@,
                    import.loc,
                    i as nat,
                ) == Ok::<Seq<Bound>, ResolveError>(bounds(acc@)),
            decreases import.local.len() - i,
        {
            let pick = &import.local[i];
            let symbol = extended(&target, &pick.0);
            let ghost sofar = bounds(old(acc)@);
            match check_access(all, this, &symbol) {
                Access::Unknown => {
                    proof {
                        lemma_pick_error(
                            all@,
                            this@,
                            sofar,
                            target@,
                            import.local@,
                            import.loc,
                            (i + 1) as nat,
                            import.local@.len(),
                        );
                    }
                    return Err(ResolveError::UnknownSymbol(import.loc.clone()));
                },
                Access::Private => {
                    proof {
                        lemma_pick_error(
                            all@,
                            this@,
                            sofar,
                            target@,
                            import.local@,
                            import.loc,
                            (i + 1) as nat,
                            import.local@.len(),
                        );
                    }
                    return Err(ResolveError::VisibilityViolation(import.loc.clone()));
                },
                Access::Granted => {},
            }
            let ident = match &pick.1 {
                Some(a) => a.clone(),
                None => pick.0.clone(),
            };
            match bind(acc, Binding { ident, target: symbol, module: false }, &import.loc) {
                Err(e) => {
                    proof {
                        lemma_pick_error(
                            all@,
                            this@,
                            sofar,
                            target@,
                            import.local@,
                            import.loc,
                            (i + 1) as nat,
                            import.local@.len(),
                        );
                    }
                    return Err(e);
                },
                Ok(()) => {},
            }
            i = i + 1;
        }
        return Ok(());
    }
    let ident = match &import.alias {
        Some(a) => a.clone(),
        None => target.0[n - 1].clone(),
    };
    if module.is_some() {
        return bind(acc, Binding { ident, target, module: true }, &import.loc);
    }
    match check_access(all, this, &target) {
        Access::Unknown => Err(ResolveError::UnknownSymbol(import.loc.clone())),
        Access::Private => Err(ResolveError::VisibilityViolation(import.loc.clone())),
        Access::Granted => bind(acc, Binding { ident, target, module: false }, &import.loc),
    }
}

/// What the imports of the module `this` bind; see [`all_bindings`].
pub fn bind_imports(all: &Vec<Exports>, this: &Name, imports: &Vec<Import>) -> (r: Result<
    Vec<Binding>,
    ResolveError,
>)
    ensures
        match all_bindings(all@, this@, imports@, imports@.len()) {
            Ok(b) => r is Ok && bounds(r->Ok_0@) == b,
            Err(e) => r == Err::<Vec<Binding>, ResolveError>(e),
        },
{
    let mut acc: Vec<Binding> = Vec::new();
    let mut i: usize = 0;
    proof {
        assert(bounds(acc@) =~= Seq::<Bound>::empty());
    }
    while i < imports.len()
        invariant
            i <= imports.len(),
            all_bindings(all@, this@, imports@, i as nat) == Ok::<Seq<Bound>, ResolveError>(
                bounds(acc@),
            ),
        decreases imports.len() - i,
    {
        match bind_import(all, this, &mut acc, &imports[i]) {
            Err(e) => {
                proof {
                    lemma_bindings_error(all@, this@, imports@, (i + 1) as nat, imports@.len());
                }
                return Err(e);
            },
            Ok(()) => {},
        }
        i = i + 1;
    }
    Ok(acc)
}

/// What a module shows to the others.
pub fn exports_of(m: &Module) -> (e: Exports)
    ensures
        e.name@ == m.name@,
        !e.foreign,
        e.symbols@.len() == m.locals@.len(),
        forall|i: int|
            0 <= i < m.locals@.len() ==> (#[trigger] e.symbols@[i]).0@ == m.locals@[i].name@
                && e.symbols@[i].1 == m.locals@[i].vis,
{
    let mut symbols: Vec<(String, Visibility)> = Vec::new();
    let mut i: usize = 0;
    while i < m.locals.len()
        invariant
            i <= m.locals.len(),
            symbols@.len() == i,
            forall|k: int|
                0 <= k < i ==> (#[trigger] symbols@[k]).0@ == m.locals@[k].name@ && symbols@[k].1
                    == m.locals@[k].vis,
        decreases m.locals.len() - i,
    {
        symbols.push((m.locals[i].name.clone(), m.locals[i].vis));
        i = i + 1;
    }
    Exports { name: m.name.clone(), foreign: false, symbols }
}

} // verus!
