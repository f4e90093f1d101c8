//! What the loader registers: source modules and foreign C headers, each
//! under its absolute name.

use vstd::prelude::*;
use crate::ast;
use crate::name::Name;
use crate::order::{lemma_name_transitive, name_less, precedes};
use crate::resolver::{exports_of, Exports};
use crate::text::strs;

verus! {

/// A registered module: a C header, known by name and path only, or a source
/// module with its syntax tree.
#[derive(Clone, Debug, PartialEq)]
pub enum Module {
    C { name: Name, path: String },
    ZZ(ast::Module),
}

impl Module {
    /// The absolute name under which the module is registered.
    pub open spec fn name(self) -> Seq<Seq<char>> {
        match self {
            Module::C { name, .. } => name@,
            Module::ZZ(m) => m.name@,
        }
    }

    /// Whether the module is a C header.
    pub open spec fn foreign(self) -> bool {
        self is C
    }
}

/// Registers a parsed module under its absolute name: the project's name,
/// the directories that lead from the source root to the file, and the name
/// that the parser gave it. Everything else stays as it is.
pub fn register(project: &Name, dirs: &Vec<String>, tree: ast::Module) -> (m: Module)
    ensures
        m is ZZ,
        m->ZZ_0.name@ == project@ + strs(dirs@) + tree.name@,
        m->ZZ_0.source == tree.source,
        m->ZZ_0.locals == tree.locals,
        m->ZZ_0.imports == tree.imports,
        m->ZZ_0.includes == tree.includes,
        m->ZZ_0.sources == tree.sources,
        m->ZZ_0.aliases == tree.aliases,
{
    let ast::Module { name, source, locals, imports, includes, sources, aliases } = tree;
    let mut full = project.clone();
    let mut i: usize = 0;
    while i < dirs.len()
        invariant
            i <= dirs.len(),
            full@ == project@ + strs(dirs@).subrange(0, i as int),
        decreases dirs.len() - i,
    {
        let ghost before = full@;
        full.0.push(dirs[i].clone());
        proof {
            assert(full@ =~= before.push(dirs@[i as int]@));
            assert(full@ =~= project@ + strs(dirs@).subrange(0, i + 1));
        }
        i = i + 1;
    }
    let mut j: usize = 0;
    while j < name.0.len()
        invariant
            j <= name.0.len(),
            i == dirs.len(),
            full@ == project@ + strs(dirs@) + name@.subrange(0, j as int),
        decreases name.0.len() - j,
    {
        let ghost before = full@;
        full.0.push(name.0[j].clone());
        proof {
            assert(full@ =~= before.push(name.0@[j as int]@));
            assert(full@ =~= project@ + strs(dirs@) + name@.subrange(0, j + 1));
        }
        j = j + 1;
    }
    proof {
        assert(name@.subrange(0, j as int) =~= name@);
    }
    Module::ZZ(ast::Module { name: full, source, locals, imports, includes, sources, aliases })
}

/// Whether `e` is what the module `m` shows to the others: its name and, for a
/// source module, the identifier and visibility of each definition in order.
pub open spec fn shows(m: Module, e: Exports) -> bool {
    e.name@ == m.name() && e.foreign == m.foreign() && match m {
        Module::C { .. } => e.symbols@.len() == 0,
        Module::ZZ(tree) => e.symbols@.len() == tree.locals@.len() && forall|i: int|
            0 <= i < tree.locals@.len() ==> (#[trigger] e.symbols@[i]).0@ == tree.locals@[i].name@
                && e.symbols@[i].1 == tree.locals@[i].vis,
    }
}

/// What a module shows to the others.
pub fn exports(m: &Module) -> (e: Exports)
    ensures
        shows(*m, e),
{
    match m {
        Module::C { name, .. } => Exports { name: name.clone(), foreign: true, symbols: Vec::new() },
        Module::ZZ(tree) => exports_of(tree),
    }
}

/// What each of the modules shows to the others, in order.
pub fn all_exports(modules: &Vec<Module>) -> (all: Vec<Exports>)
    ensures
        all@.len() == modules@.len(),
        forall|i: int| 0 <= i < modules@.len() ==> shows(modules@[i], #[trigger] all@[i]),
{
    let mut all: Vec<Exports> = Vec::new();
    let mut i: usize = 0;
    while i < modules.len()
        invariant
            i <= modules.len(),
            all@.len() == i,
            forall|k: int| 0 <= k < i ==> shows(modules@[k], #[trigger] all@[k]),
        decreases modules.len() - i,
    {
        all.push(exports(&modules[i]));
        i = i + 1;
    }
    all
}

/// The name under which a module is registered.
pub fn name_of(m: &Module) -> (n: &Name)
    ensures
        n@ == m.name(),
{
    match m {
        Module::C { name, .. } => name,
        Module::ZZ(tree) => &tree.name,
    }
}

/// Whether the modules stand in the order of their names: none stands before
/// one whose name comes earlier.
pub open spec fn in_name_order(modules: Seq<Module>) -> bool {
    forall|i: int, j: int|
        0 <= i < j < modules.len() ==> !name_less(
            (#[trigger] modules[j]).name(),
            (#[trigger] modules[i]).name(),
        )
}

/// The place of a module called `name` among modules in name order, looked
/// for from position `p` on: before the first whose name comes later, so
/// behind every module of the same name.
pub open spec fn place_of(sorted: Seq<Module>, name: Seq<Seq<char>>, p: nat) -> nat
    decreases sorted.len() - p,
{
    if p >= sorted.len() || name_less(name, sorted[p as int].name()) {
        p
    } else {
        place_of(sorted, name, p + 1)
    }
}

/// The first `n` modules in name order: each put at its place among those
/// before it, so that modules of one name keep their order.
pub open spec fn sorted_upto(modules: Seq<Module>, n: nat) -> Seq<Module>
    decreases n,
{
    if n == 0 || n > modules.len() {
        Seq::empty()
    } else {
        sorted_upto(modules, (n - 1) as nat).insert(
            place_of(sorted_upto(modules, (n - 1) as nat), modules[n - 1].name(), 0) as int,
            modules[n - 1],
        )
    }
}

/// The modules in the order of their names, which is the order in which they
/// are resolved, flattened and emitted. Modules of one name keep their order;
/// see [`sorted_upto`].
pub fn sort_by_name(modules: Vec<Module>) -> (out: Vec<Module>)
    ensures
        out@ == sorted_upto(modules@, modules@.len()),
        in_name_order(out@),
        out@.to_multiset() == modules@.to_multiset(),
        out@.len() == modules@.len(),
{
    let mut out: Vec<Module> = Vec::new();
    proof {
        assert(modules@.take(0) =~= Seq::<Module>::empty());
    }
    for m in it: modules
        invariant
            it.seq() == modules@,
            out@.len() == it.index(),
            out@ == sorted_upto(modules@, it.index() as nat),
            in_name_order(out@),
            out@.to_multiset() == modules@.take(it.index() as int).to_multiset(),
    {
        let mut p: usize = 0;
        let mut go = true;
        while go && p < out.len()
            invariant
                p <= out.len(),
                forall|i: int| 0 <= i < p ==> !name_less(m.name(), (#[trigger] out@[i]).name()),
                !go ==> p < out.len() && name_less(m.name(), out@[p as int].name()),
                place_of(out@, m.name(), 0) == place_of(out@, m.name(), p as nat),
            decreases out.len() - p + (if go {
                1int
            } else {
                0int
            }),
        {
            if precedes(name_of(&m), name_of(&out[p])) {
                go = false;
            } else {
                p = p + 1;
            }
        }
        let ghost before = out@;
        let ghost taken = modules@.take(it.index() as int);
        out.insert(p, m);
        proof {
            let after = out@;
            assert forall|i: int, j: int| 0 <= i < j < after.len() implies !name_less(
                (#[trigger] after[j]).name(),
                (#[trigger] after[i]).name(),
            ) by {
                if j == p {
                    assert(after[i] == before[i]);
                } else if i == p {
                    assert(after[j] == before[j - 1]);
                    if name_less(after[j].name(), m.name()) {
                        lemma_name_transitive(after[j].name(), m.name(), before[p as int].name(), 0);
                        if j - 1 > p {
                            assert(!name_less(before[j - 1].name(), before[p as int].name()));
                        } else {
                            crate::order::lemma_name_irreflexive(before[p as int].name(), 0);
                        }
                    }
                } else {
                    let bi = if i < p {
                        i
                    } else {
                        i - 1
                    };
                    let bj = if j < p {
                        j
                    } else {
                        j - 1
                    };
                    assert(after[i] == before[bi] && after[j] == before[bj]);
                }
            }
            let head = before.subrange(0, p as int);
            let tail = before.subrange(p as int, before.len() as int);
            assert(before =~= head + tail);
            assert(after =~= head.push(m) + tail);
            vstd::seq_lib::lemma_multiset_commutative(head, tail);
            vstd::seq_lib::lemma_multiset_commutative(head.push(m), tail);
            head.to_multiset_ensures();
            taken.to_multiset_ensures();
            assert(modules@.take(it.index() + 1) =~= taken.push(m));
            assert(after.to_multiset() =~= before.to_multiset().insert(m));
        }
    }
    proof {
        assert(modules@.take(modules@.len() as int) =~= modules@);
    }
    out
}

} // verus!
