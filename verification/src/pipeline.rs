//! The build driver's decisions: which artifacts to build, what the resolver
//! still has to do, what to do with a checked module, which modules an
//! artifact needs, and when a cached descriptor can be used.

use vstd::prelude::*;
use vstd::string::*;
use crate::abs::{abs, module_fault, module_resolved, Resolution};
use crate::ast;
use crate::expand::{expand, module_expanded};
use crate::loader::{all_exports, in_name_order, shows, sort_by_name, sorted_upto, Module};
use crate::makro::module_has_call;
use crate::name::{is_absolute_name, Name};
use crate::project::{Artifact, ArtifactType, BuildSet, Config};
use crate::resolve_ast::first;
use crate::settled::{lemma_resolved_is_settled, module_settled};
use crate::resolver::{Exports, ResolveError};
use crate::text::{join, join_from, path_sep, split_path, strs};

verus! {

/// Whether an artifact kind is made for another build system or language.
pub open spec fn is_export_kind(t: ArtifactType) -> bool {
    t == ArtifactType::CBindingCrate || t == ArtifactType::JsBindings || t
        == ArtifactType::PyBindings || t == ArtifactType::CMake || t == ArtifactType::Esp32
}

/// Whether a build set asks for an artifact.
///
/// `Export` takes exactly the export kinds. `Named` takes the artifact of that
/// name, whatever its kind. Otherwise tests are built only for `Tests`,
/// executables always, and everything else unless the build is a `Run`.
pub open spec fn selects(buildset: BuildSet, name: Seq<char>, typ: ArtifactType) -> bool {
    match buildset {
        BuildSet::Export => is_export_kind(typ),
        BuildSet::Named(n) => n@ == name,
        BuildSet::Tests => true,
        BuildSet::Run => typ == ArtifactType::Exe,
        _ => typ != ArtifactType::Test,
    }
}

/// Whether `buildset` asks for `artifact`; see [`selects`].
pub fn is_selected(artifact: &Artifact, buildset: &BuildSet) -> (b: bool)
    ensures
        b == selects(*buildset, artifact.name@, artifact.typ),
{
    match buildset {
        BuildSet::Export => match artifact.typ {
            ArtifactType::CBindingCrate => true,
            ArtifactType::JsBindings => true,
            ArtifactType::PyBindings => true,
            ArtifactType::CMake => true,
            ArtifactType::Esp32 => true,
            _ => false,
        },
        BuildSet::Named(name) => artifact.name == *name,
        BuildSet::Tests => true,
        BuildSet::Run => match artifact.typ {
            ArtifactType::Exe => true,
            _ => false,
        },
        _ => match artifact.typ {
            ArtifactType::Test => false,
            _ => true,
        },
    }
}

/// Why an artifact could not be assembled.
#[derive(Debug, PartialEq)]
pub enum BuildError {
    /// A module that the artifact needs was not emitted.
    MissingModule(Name),
}

/// The positions in `artifacts`, among the first `n`, of those that
/// `buildset` asks for, in order.
pub open spec fn selection(artifacts: Seq<Artifact>, buildset: BuildSet, n: nat) -> Seq<usize>
    decreases n,
{
    if n == 0 || n > artifacts.len() {
        Seq::empty()
    } else if selects(buildset, artifacts[n - 1].name@, artifacts[n - 1].typ) {
        selection(artifacts, buildset, (n - 1) as nat).push((n - 1) as usize)
    } else {
        selection(artifacts, buildset, (n - 1) as nat)
    }
}

/// Whether a build can be planned: a build set that asks for an artifact by
/// name must find one of that name. Any other build set may select nothing.
pub open spec fn plannable(artifacts: Seq<Artifact>, buildset: BuildSet) -> bool {
    buildset is Named ==> selection(artifacts, buildset, artifacts.len()).len() > 0
}

fn choose_artifacts(artifacts: &Vec<Artifact>, buildset: &BuildSet) -> (chosen: Vec<usize>)
    ensures
        chosen@ == selection(artifacts@, *buildset, artifacts@.len()),
{
    let mut chosen: Vec<usize> = Vec::new();
    let mut i: usize = 0;
    while i < artifacts.len()
        invariant
            i <= artifacts.len(),
            chosen@ == selection(artifacts@, *buildset, i as nat),
        decreases artifacts.len() - i,
    {
        if is_selected(&artifacts[i], buildset) {
            chosen.push(i);
        }
        i = i + 1;
    }
    chosen
}

/// Whether a build can be planned; see [`plannable`].
pub fn can_plan(artifacts: &Vec<Artifact>, buildset: &BuildSet) -> (b: bool)
    ensures
        b == plannable(artifacts@, *buildset),
{
    match buildset {
        BuildSet::Named(_) => choose_artifacts(artifacts, buildset).len() > 0,
        _ => true,
    }
}

/// The artifacts to build, by position and in the project's order. A build
/// that asks by name for an artifact that the project does not have cannot be
/// planned.
pub fn plan(artifacts: &Vec<Artifact>, buildset: &BuildSet) -> (chosen: Vec<usize>)
    requires
        plannable(artifacts@, *buildset),
    ensures
        chosen@ == selection(artifacts@, *buildset, artifacts@.len()),
{
    choose_artifacts(artifacts, buildset)
}

/// The artifact that builds the macro module `name`: named by the module's
/// segments after the root joined by `_`, with the module as entry point.
pub fn macro_artifact(name: &Name) -> (a: Artifact)
    requires
        name@.len() >= 1,
    ensures
        a.name@ == join(name@.subrange(1, name@.len() as int), "_"@),
        a.main@ == join(name@, path_sep()),
        a.typ == ArtifactType::Macro,
{
    Artifact { name: join_from(&name.0, 1, "_"), main: name.to_string(), typ: ArtifactType::Macro }
}

/// The absolute form of an artifact's entry module: the root is put in front
/// of a relative name.
pub open spec fn rooted(n: Seq<Seq<char>>) -> Seq<Seq<char>> {
    if is_absolute_name(n) {
        n
    } else {
        seq![Seq::<char>::empty()] + n
    }
}

/// The absolute name of the module written as `main`.
pub fn main_module(main: &str) -> (n: Name)
    ensures
        n@ == rooted(split_path(main@)),
{
    let mut n = Name::parse(main);
    if !n.is_absolute() {
        let ghost before = n@;
        n.0.insert(0, String::new());
        proof {
            assert(n@ =~= seq![Seq::<char>::empty()] + before);
        }
    }
    n
}

/// What the driver does with a module after the symbolic check.
#[derive(Clone, Copy, Debug, PartialEq, Eq, Structural)]
pub enum Verdict {
    /// The check passed on a closed module: emit it.
    Emit,
    /// The check passed but the module is not closed yet: try again after
    /// further resolver passes.
    Retry,
    /// The check found a violation: report and stop emitting the artifact.
    Abort,
}

/// The verdict on a check that reported `(ok, complete)`.
pub fn after_check(ok: bool, complete: bool) -> (v: Verdict)
    ensures
        v == (if !ok {
            Verdict::Abort
        } else if complete {
            Verdict::Emit
        } else {
            Verdict::Retry
        }),
{
    if !ok {
        Verdict::Abort
    } else if complete {
        Verdict::Emit
    } else {
        Verdict::Retry
    }
}

/// What the emitter reports of one module: the file it wrote, the sources it
/// was made from, the modules it depends on, the symbols it refers to, and the
/// flags its compilation and linking need.
#[derive(Clone, Debug, PartialEq)]
pub struct CFile {
    pub name: Name,
    pub filepath: String,
    pub sources: Vec<String>,
    pub deps: Vec<Name>,
    pub symbols: Vec<Name>,
    pub cflags: Vec<String>,
    pub lflags: Vec<String>,
}

/// The descriptor of a foreign module: a C header, known by its path alone.
pub fn foreign_cfile(name: Name, path: String) -> (cf: CFile)
    ensures
        cf.name == name,
        cf.filepath == path,
        cf.sources@.len() == 0,
        cf.deps@.len() == 0,
        cf.symbols@.len() == 0,
        cf.cflags@.len() == 0,
        cf.lflags@.len() == 0,
{
    CFile {
        name,
        filepath: path,
        sources: Vec::new(),
        deps: Vec::new(),
        symbols: Vec::new(),
        cflags: Vec::new(),
        lflags: Vec::new(),
    }
}

/// Whether `i` is the position of the module named `n`: the first descriptor
/// with that name.
pub open spec fn module_at(cfiles: Seq<CFile>, n: Seq<Seq<char>>, i: int) -> bool {
    0 <= i < cfiles.len() && cfiles[i].name@ == n && forall|j: int|
        0 <= j < i ==> cfiles[j].name@ != n
}

/// Whether no descriptor has the name `n`.
pub open spec fn absent(cfiles: Seq<CFile>, n: Seq<Seq<char>>) -> bool {
    forall|j: int| 0 <= j < cfiles.len() ==> cfiles[j].name@ != n
}

/// Whether the module at `i` names the module at `j` among its dependencies.
pub open spec fn edge(cfiles: Seq<CFile>, i: int, j: int) -> bool {
    0 <= i < cfiles.len() && exists|k: int|
        0 <= k < cfiles[i].deps@.len() && module_at(cfiles, #[trigger] cfiles[i].deps@[k]@, j)
}

/// Whether `p` is a chain of dependencies that starts at the module `main`.
pub open spec fn is_route(cfiles: Seq<CFile>, main: Seq<Seq<char>>, p: Seq<int>) -> bool {
    p.len() >= 1 && module_at(cfiles, main, p[0]) && forall|k: int|
        0 <= k < p.len() - 1 ==> edge(cfiles, #[trigger] p[k], p[k + 1])
}

/// Whether the module at `i` is `main` or one that `main` depends on, directly
/// or through others.
pub open spec fn reach(cfiles: Seq<CFile>, main: Seq<Seq<char>>, i: int) -> bool {
    exists|p: Seq<int>| is_route(cfiles, main, p) && #[trigger] p.last() == i
}

/// Whether the artifact needs a module named `n`: it is `main`, or a module
/// that the artifact needs names it as a dependency.
pub open spec fn needed(cfiles: Seq<CFile>, main: Seq<Seq<char>>, n: Seq<Seq<char>>) -> bool {
    n == main || exists|i: int, k: int|
        reach(cfiles, main, i) && 0 <= k < cfiles[i].deps@.len() && #[trigger] cfiles[i].deps@[k]@
            == n
}

/// The number of `false` entries.
pub open spec fn count_false(v: Seq<bool>) -> nat
    decreases v.len(),
{
    if v.len() == 0 {
        0
    } else {
        count_false(v.drop_last()) + (if v.last() {
            0nat
        } else {
            1nat
        })
    }
}

proof fn lemma_count_false_update(v: Seq<bool>, i: int)
    requires
        0 <= i < v.len(),
        !v[i],
    ensures
        count_false(v.update(i, true)) + 1 == count_false(v),
    decreases v.len(),
{
    let w = v.update(i, true);
    if i == v.len() - 1 {
        assert(w.drop_last() == v.drop_last());
    } else {
        assert(w.drop_last() == v.drop_last().update(i, true));
        lemma_count_false_update(v.drop_last(), i);
    }
}

proof fn lemma_count_false_bound(v: Seq<bool>)
    ensures
        count_false(v) <= v.len(),
    decreases v.len(),
{
    if v.len() > 0 {
        lemma_count_false_bound(v.drop_last());
    }
}

proof fn lemma_count_false_zero(v: Seq<bool>)
    ensures
        count_false(v) == 0 <==> forall|i: int| 0 <= i < v.len() ==> v[i],
    decreases v.len(),
{
    if v.len() > 0 {
        lemma_count_false_zero(v.drop_last());
        if count_false(v) == 0 {
            assert forall|i: int| 0 <= i < v.len() implies v[i] by {
                if i < v.len() - 1 {
                    assert(v.drop_last()[i] == v[i]);
                }
            }
        } else if v.last() {
            let i = choose|i: int| 0 <= i < v.drop_last().len() && !v.drop_last()[i];
            assert(!v[i]);
        }
    }
}

proof fn lemma_count_false_all(v: Seq<bool>)
    ensures
        (forall|i: int| 0 <= i < v.len() ==> v[i]) ==> count_false(v) == 0,
{
    lemma_count_false_zero(v);
}

proof fn lemma_count_false_some(v: Seq<bool>)
    requires
        count_false(v) > 0,
    ensures
        exists|i: int| 0 <= i < v.len() && !v[i],
{
    lemma_count_false_zero(v);
}

/// Where every entry that is unset in `b` is unset in `a`, `b` has no more
/// unset entries than `a`.
proof fn lemma_count_false_monotone(a: Seq<bool>, b: Seq<bool>)
    requires
        a.len() == b.len(),
        forall|i: int| 0 <= i < a.len() && !b[i] ==> !a[i],
    ensures
        count_false(b) <= count_false(a),
    decreases a.len(),
{
    if a.len() > 0 {
        assert forall|i: int| 0 <= i < a.drop_last().len() && !b.drop_last()[i] implies
            !a.drop_last()[i] by {
            assert(b.drop_last()[i] == b[i] && a.drop_last()[i] == a[i]);
        }
        lemma_count_false_monotone(a.drop_last(), b.drop_last());
    }
}

/// The position of the module named `n`, if there is one.
pub fn find_module(cfiles: &Vec<CFile>, n: &Name) -> (at: Option<usize>)
    ensures
        at matches Some(i) ==> module_at(cfiles@, n@, i as int),
        at is None ==> absent(cfiles@, n@),
{
    let mut i: usize = 0;
    while i < cfiles.len()
        invariant
            i <= cfiles.len(),
            forall|j: int| 0 <= j < i ==> cfiles@[j].name@ != n@,
        decreases cfiles.len() - i,
    {
        if cfiles[i].name == *n {
            return Some(i);
        }
        i = i + 1;
    }
    None
}

/// What the driver has established while it walks the dependencies: `order`
/// holds distinct modules that `main` reaches, starting with `main`, each after
/// one that names it; `seen` marks exactly those; and every dependency of the
/// first `done` modules of `order` is in `order`.
pub open spec fn walked(
    cfiles: Seq<CFile>,
    main: Seq<Seq<char>>,
    order: Seq<usize>,
    seen: Seq<bool>,
    done: int,
) -> bool {
    &&& seen.len() == cfiles.len()
    &&& 0 <= done <= order.len()
    &&& order.len() >= 1
    &&& module_at(cfiles, main, order[0] as int)
    &&& forall|k: int| 0 <= k < order.len() ==> (#[trigger] order[k]) < cfiles.len()
    &&& forall|k: int, l: int| 0 <= k < l < order.len() ==> order[k] != order[l]
    &&& forall|j: int| 0 <= j < seen.len() ==> (#[trigger] seen[j] <==> order.contains(j as usize))
    &&& forall|k: int| 0 <= k < order.len() ==> reach(cfiles, main, #[trigger] order[k] as int)
    &&& forall|k: int|
        0 < k < order.len() ==> exists|j: int|
            0 <= j < k && edge(cfiles, order[j] as int, #[trigger] order[k] as int)
    &&& forall|k: int, d: int|
        0 <= k < done && 0 <= d < cfiles[order[k] as int].deps@.len() ==> exists|j: int|
            0 <= j < order.len() && module_at(
                cfiles,
                #[trigger] cfiles[order[k] as int].deps@[d]@,
                order[j] as int,
            )
}

/// Whether the module at position `i` is listed in `order`.
pub open spec fn in_order(order: Seq<usize>, i: int) -> bool {
    exists|w: int| 0 <= w < order.len() && #[trigger] order[w] as int == i
}

/// Whether `later` stands in `order` after a module that names it as a
/// dependency.
pub open spec fn discovered(cfiles: Seq<CFile>, order: Seq<usize>, later: int) -> bool {
    exists|j: int| 0 <= j < later && edge(cfiles, #[trigger] order[j] as int, order[later] as int)
}

/// What `collect_required` promises of a successful walk: `order` holds,
/// without repetition, exactly the modules that `main` reaches; it starts with
/// `main`, and every later module stands after one that names it as a
/// dependency.
pub open spec fn required_order(cfiles: Seq<CFile>, main: Seq<Seq<char>>, order: Seq<usize>) -> bool {
    &&& order.len() >= 1
    &&& module_at(cfiles, main, order[0] as int)
    &&& forall|k: int| 0 <= k < order.len() ==> (#[trigger] order[k]) < cfiles.len()
    &&& forall|k: int, l: int| 0 <= k < l < order.len() ==> order[k] != order[l]
    &&& forall|i: int| #[trigger] reach(cfiles, main, i) <==> in_order(order, i)
    &&& forall|k: int| 0 < k < order.len() ==> #[trigger] discovered(cfiles, order, k)
}

/// Whether dependency `d` of the module at `i` is listed in `order`.
pub open spec fn dep_found(cfiles: Seq<CFile>, order: Seq<usize>, i: int, d: int) -> bool {
    exists|j: int|
        0 <= j < order.len() && module_at(cfiles, cfiles[i].deps@[d]@, #[trigger] order[j] as int)
}

/// Whether `order` starts with `main` and holds every dependency of every
/// module it lists.
pub open spec fn closed_walk(cfiles: Seq<CFile>, main: Seq<Seq<char>>, order: Seq<usize>) -> bool {
    &&& order.len() >= 1
    &&& module_at(cfiles, main, order[0] as int)
    &&& forall|k: int| 0 <= k < order.len() ==> (#[trigger] order[k]) < cfiles.len()
    &&& forall|k: int, d: int|
        0 <= k < order.len() && 0 <= d < cfiles[order[k] as int].deps@.len() ==> #[trigger] dep_found(
            cfiles,
            order,
            order[k] as int,
            d,
        )
}

/// In a closed walk every module on a route from `main` is listed.
proof fn lemma_route_walked(cfiles: Seq<CFile>, main: Seq<Seq<char>>, order: Seq<usize>, p: Seq<int>, k: int)
    requires
        closed_walk(cfiles, main, order),
        is_route(cfiles, main, p),
        0 <= k < p.len(),
    ensures
        in_order(order, p[k]),
    decreases k,
{
    if k == 0 {
        assert(order[0] as int == p[0]);
    } else {
        lemma_route_walked(cfiles, main, order, p, k - 1);
        let a = p[k - 1];
        let w = choose|w: int| 0 <= w < order.len() && #[trigger] order[w] as int == a;
        assert(edge(cfiles, p[k - 1], p[k]));
        let d = choose|d: int|
            0 <= d < cfiles[a].deps@.len() && module_at(cfiles, #[trigger] cfiles[a].deps@[d]@, p[k]);
        assert(dep_found(cfiles, order, order[w] as int, d));
        let j = choose|j: int|
            0 <= j < order.len() && module_at(cfiles, cfiles[a].deps@[d]@, #[trigger] order[j] as int);
        assert(order[j] as int == p[k]);
    }
}

/// In a closed walk, every module that `main` reaches is listed, and no name
/// that the artifact needs is absent.
proof fn lemma_walk_complete(cfiles: Seq<CFile>, main: Seq<Seq<char>>, order: Seq<usize>)
    requires
        closed_walk(cfiles, main, order),
    ensures
        forall|i: int| #[trigger] reach(cfiles, main, i) ==> in_order(order, i),
        forall|n: Seq<Seq<char>>| needed(cfiles, main, n) ==> !absent(cfiles, n),
{
    assert forall|i: int| #[trigger] reach(cfiles, main, i) implies in_order(order, i) by {
        let p = choose|p: Seq<int>| is_route(cfiles, main, p) && #[trigger] p.last() == i;
        lemma_route_walked(cfiles, main, order, p, p.len() - 1);
    }
    assert forall|n: Seq<Seq<char>>| needed(cfiles, main, n) implies !absent(cfiles, n) by {
        if n != main {
            let (i, k) = choose|i: int, k: int|
                reach(cfiles, main, i) && 0 <= k < cfiles[i].deps@.len()
                    && #[trigger] cfiles[i].deps@[k]@ == n;
            assert(in_order(order, i));
            let w = choose|w: int| 0 <= w < order.len() && #[trigger] order[w] as int == i;
            assert(dep_found(cfiles, order, order[w] as int, k));
            let j = choose|j: int|
                0 <= j < order.len() && module_at(
                    cfiles,
                    cfiles[i].deps@[k]@,
                    #[trigger] order[j] as int,
                );
            assert(cfiles[order[j] as int].name@ == n);
        } else {
            assert(cfiles[order[0] as int].name@ == n);
        }
    }
}

/// The modules that an artifact with entry module `main` needs, by position
/// in `cfiles` and in the order in which they are built: `main` first, then
/// what it names, then what those name, each module once.
///
/// Fails iff a module that the artifact needs has no descriptor, and names one
/// such module.
#[verifier::spinoff_prover]
pub fn collect_required(main: &Name, cfiles: &Vec<CFile>) -> (r: Result<Vec<usize>, BuildError>)
    ensures
        r matches Ok(order) ==> required_order(cfiles@, main@, order@),
        r matches Err(e) ==> e matches BuildError::MissingModule(n) && needed(cfiles@, main@, n@)
            && absent(cfiles@, n@),
        r is Err <==> exists|n: Seq<Seq<char>>| needed(cfiles@, main@, n) && absent(cfiles@, n),
{
    let first = match find_module(cfiles, main) {
        None => {
            return Err(BuildError::MissingModule(main.clone()));
        },
        Some(i) => i,
    };
    let mut seen: Vec<bool> = Vec::new();
    let mut c: usize = 0;
    while c < cfiles.len()
        invariant
            c <= cfiles.len(),
            seen@.len() == c,
            forall|j: int| 0 <= j < c ==> !seen@[j],
            count_false(seen@) == c,
        decreases cfiles.len() - c,
    {
        proof {
            assert(seen@.push(false).drop_last() == seen@);
        }
        seen.push(false);
        c = c + 1;
    }
    let mut order: Vec<usize> = Vec::new();
    proof {
        lemma_count_false_update(seen@, first as int);
    }
    seen.set(first, true);
    order.push(first);
    proof {
        let p = seq![first as int];
        assert(is_route(cfiles@, main@, p) && p.last() == first as int);
        assert(order@[0] == first);
        assert forall|j: int| 0 <= j < seen@.len() implies (#[trigger] seen@[j] <==> order@.contains(
            j as usize,
        )) by {
            if j == first {
                assert(order@[0] == j as usize);
            }
        }
    }
    let mut head: usize = 0;
    while head < order.len()
        invariant
            walked(cfiles@, main@, order@, seen@, head as int),
            order@.len() + count_false(seen@) == cfiles@.len(),
        decreases cfiles.len() - head,
    {
        let i: usize = order[head];
        let deps = &cfiles[i].deps;
        let mut d: usize = 0;
        while d < deps.len()
            invariant
                0 <= d <= deps.len(),
                head < order.len(),
                i == order@[head as int],
                i < cfiles.len(),
                deps == &cfiles@[i as int].deps,
                walked(cfiles@, main@, order@, seen@, head as int),
                order@.len() + count_false(seen@) == cfiles@.len(),
                forall|e: int|
                    0 <= e < d ==> exists|j: int|
                        0 <= j < order@.len() && module_at(
                            cfiles@,
                            #[trigger] deps@[e]@,
                            order@[j] as int,
                        ),
            decreases deps.len() - d,
        {
            let ghost old_order = order@;
            let ghost old_seen = seen@;
            match find_module(cfiles, &deps[d]) {
                None => {
                    proof {
                        assert(reach(cfiles@, main@, i as int));
                        assert(cfiles@[i as int].deps@[d as int]@ == deps@[d as int]@);
                        assert(needed(cfiles@, main@, deps@[d as int]@));
                    }
                    return Err(BuildError::MissingModule(deps[d].clone()));
                },
                Some(j) => {
                    proof {
                        assert(edge(cfiles@, i as int, j as int)) by {
                            assert(module_at(cfiles@, cfiles@[i as int].deps@[d as int]@, j as int));
                        }
                    }
                    if !seen[j] {
                        proof {
                            lemma_count_false_update(seen@, j as int);
                            let p = choose|p: Seq<int>|
                                is_route(cfiles@, main@, p) && #[trigger] p.last() == i as int;
                            let q = p.push(j as int);
                            assert forall|k: int| 0 <= k < q.len() - 1 implies edge(
                                cfiles@,
                                #[trigger] q[k],
                                q[k + 1],
                            ) by {
                                if k < p.len() - 1 {
                                    assert(q[k] == p[k] && q[k + 1] == p[k + 1]);
                                }
                            }
                            assert(is_route(cfiles@, main@, q) && q.last() == j as int);
                            assert(reach(cfiles@, main@, j as int));
                        }
                        seen.set(j, true);
                        order.push(j);
                        proof {
                            let n = old_order.len() as int;
                            assert(order@[n] == j);
                            assert forall|k: int| 0 <= k < order@.len() implies reach(
                                cfiles@,
                                main@,
                                #[trigger] order@[k] as int,
                            ) by {
                                if k < n {
                                    assert(order@[k] == old_order[k]);
                                }
                            }
                            assert forall|k: int, l: int| 0 <= k < l < order@.len() implies order@[k]
                                != order@[l] by {
                                if l == n {
                                    assert(order@[k] == old_order[k]);
                                    assert(old_order.contains(order@[k]));
                                } else {
                                    assert(order@[k] == old_order[k] && order@[l] == old_order[l]);
                                }
                            }
                            assert forall|x: int| 0 <= x < seen@.len() implies (#[trigger] seen@[x]
                                <==> order@.contains(x as usize)) by {
                                if x == j {
                                    assert(order@[n] == x as usize);
                                } else {
                                    if old_order.contains(x as usize) {
                                        let w = choose|w: int|
                                            0 <= w < old_order.len() && old_order[w] == x as usize;
                                        assert(order@[w] == x as usize);
                                    }
                                    if order@.contains(x as usize) {
                                        let w = choose|w: int|
                                            0 <= w < order@.len() && order@[w] == x as usize;
                                        assert(w < n);
                                        assert(old_order[w] == x as usize);
                                    }
                                }
                            }
                            assert forall|k: int| 0 < k < order@.len() implies exists|w: int|
                                0 <= w < k && edge(cfiles@, order@[w] as int, #[trigger] order@[k] as int) by {
                                if k < n {
                                    let w = choose|w: int|
                                        0 <= w < k && edge(
                                            cfiles@,
                                            old_order[w] as int,
                                            old_order[k] as int,
                                        );
                                    assert(order@[w] == old_order[w] && order@[k] == old_order[k]);
                                    assert(edge(cfiles@, order@[w] as int, order@[k] as int));
                                } else {
                                    assert(order@[head as int] == i);
                                    assert(edge(cfiles@, order@[head as int] as int, order@[k] as int));
                                }
                            }
                            assert forall|k: int, e: int|
                                0 <= k < head && 0 <= e < cfiles@[order@[k] as int].deps@.len() implies exists|
                                w: int,
                            |
                                0 <= w < order@.len() && module_at(
                                    cfiles@,
                                    #[trigger] cfiles@[order@[k] as int].deps@[e]@,
                                    order@[w] as int,
                                ) by {
                                assert(order@[k] == old_order[k]);
                                let w = choose|w: int|
                                    0 <= w < old_order.len() && module_at(
                                        cfiles@,
                                        #[trigger] cfiles@[old_order[k] as int].deps@[e]@,
                                        old_order[w] as int,
                                    );
                                assert(order@[w] == old_order[w]);
                            }
                            assert forall|e: int| 0 <= e < d + 1 implies exists|w: int|
                                0 <= w < order@.len() && module_at(
                                    cfiles@,
                                    #[trigger] deps@[e]@,
                                    order@[w] as int,
                                ) by {
                                if e < d {
                                    let w = choose|w: int|
                                        0 <= w < old_order.len() && module_at(
                                            cfiles@,
                                            #[trigger] deps@[e]@,
                                            old_order[w] as int,
                                        );
                                    assert(order@[w] == old_order[w]);
                                } else {
                                    assert(module_at(cfiles@, deps@[e]@, order@[n] as int));
                                }
                            }
                        }
                    } else {
                        proof {
                            let w = choose|w: int| 0 <= w < order@.len() && order@[w] == j;
                            assert(module_at(cfiles@, deps@[d as int]@, order@[w] as int));
                        }
                    }
                },
            }
            d = d + 1;
        }
        proof {
            lemma_count_false_bound(seen@);
            assert forall|k: int, e: int|
                0 <= k < head + 1 && 0 <= e < cfiles@[order@[k] as int].deps@.len() implies exists|
                w: int,
            |
                0 <= w < order@.len() && module_at(
                    cfiles@,
                    #[trigger] cfiles@[order@[k] as int].deps@[e]@,
                    order@[w] as int,
                ) by {
                if k == head {
                    assert(cfiles@[order@[k] as int].deps@[e]@ == deps@[e]@);
                }
            }
        }
        head = head + 1;
    }
    proof {
        assert forall|k: int, d: int|
            0 <= k < order@.len() && 0 <= d < cfiles@[order@[k] as int].deps@.len() implies #[trigger] dep_found(
            cfiles@,
            order@,
            order@[k] as int,
            d,
        ) by {
            let j = choose|j: int|
                0 <= j < order@.len() && module_at(
                    cfiles@,
                    #[trigger] cfiles@[order@[k] as int].deps@[d]@,
                    order@[j] as int,
                );
            assert(module_at(cfiles@, cfiles@[order@[k] as int].deps@[d]@, order@[j] as int));
        }
        lemma_walk_complete(cfiles@, main@, order@);
        assert forall|i: int| in_order(order@, i) implies #[trigger] reach(cfiles@, main@, i) by {
            let w = choose|w: int| 0 <= w < order@.len() && #[trigger] order@[w] as int == i;
            assert(reach(cfiles@, main@, order@[w] as int));
        }
        assert forall|k: int| 0 < k < order@.len() implies #[trigger] discovered(
            cfiles@,
            order@,
            k,
        ) by {
            let j = choose|j: int|
                0 <= j < k && edge(cfiles@, order@[j] as int, #[trigger] order@[k] as int);
            assert(edge(cfiles@, order@[j] as int, order@[k] as int));
        }
    }
    Ok(order)
}

/// The driver's state: the project, the registered modules with what each
/// shows to the others, which of them the resolver has finished, and whether
/// the macro stage has run.
pub struct Pipeline {
    pub project: Config,
    pub variant: String,
    pub modules: Vec<Module>,
    pub exports: Vec<Exports>,
    pub completed_abs: Vec<bool>,
    pub macros_available: bool,
}

/// Whether a module that the resolver has not finished has to wait for the
/// macro stage.
pub open spec fn waits(macros: bool, m: Module) -> bool {
    !macros && m is ZZ && module_has_call(m->ZZ_0)
}

/// Why one pass fails on a module, if it does: a finished module, a C header
/// and a module that waits are passed over.
pub open spec fn module_pass_fault(all: Seq<Exports>, macros: bool, done: bool, m: Module) -> Option<
    ResolveError,
> {
    if done || m is C || waits(macros, m) {
        None
    } else {
        module_fault(all, m->ZZ_0)
    }
}

/// What one pass makes of a module: a finished module and a C header stay as
/// they are and count as finished; a module that waits stays as it is,
/// unfinished; any other module is resolved and finished.
pub open spec fn module_passed(
    all: Seq<Exports>,
    macros: bool,
    done: bool,
    old: Module,
    new: Module,
    finished: bool,
) -> bool {
    if done || old is C {
        new == old && finished
    } else if waits(macros, old) {
        new == old && !finished
    } else {
        finished && new is ZZ && module_resolved(all, old->ZZ_0, new->ZZ_0)
    }
}

/// A resolved module shows what it showed before.
proof fn lemma_resolved_shows(all: Seq<Exports>, old: ast::Module, new: ast::Module, x: Exports)
    requires
        module_resolved(all, old, new),
        shows(Module::ZZ(old), x),
    ensures
        shows(Module::ZZ(new), x),
{
    reveal(module_resolved);
    assert forall|i: int| 0 <= i < new.locals@.len() implies (#[trigger] x.symbols@[i]).0@
        == new.locals@[i].name@ && x.symbols@[i].1 == new.locals@[i].vis by {
        assert(crate::resolve_ast::local_resolved(
            crate::abs::module_scope(
                all,
                old,
                crate::resolver::all_bindings(all, old.name@, old.imports@, old.imports@.len())->Ok_0,
            ),
            old.locals@[i],
            new.locals@[i],
        ));
    }
}

/// One pass over one module; see [`module_passed`].
fn pass_module(m: Module, done: bool, all: &Vec<Exports>, macros: bool, Ghost(x): Ghost<Exports>) -> (r:
    Result<(Module, bool), ResolveError>)
    requires
        shows(m, x),
    ensures
        match module_pass_fault(all@, macros, done, m) {
            Some(e) => r == Err::<(Module, bool), ResolveError>(e),
            None => r matches Ok(p) && module_passed(all@, macros, done, m, p.0, p.1) && shows(p.0, x),
        },
{
    if done {
        return Ok((m, true));
    }
    match m {
        Module::C { name, path } => Ok((Module::C { name, path }, true)),
        Module::ZZ(tree) => {
            match abs(tree, all, macros) {
                Err(e) => Err(e),
                Ok(Resolution::Pending(tree)) => Ok((Module::ZZ(tree), false)),
                Ok(Resolution::Complete(next)) => {
                    proof {
                        lemma_resolved_shows(all@, tree, next, x);
                    }
                    Ok((Module::ZZ(next), true))
                },
            }
        },
    }
}

/// Whether `out` and `done` hold, at position `k`, what one pass over `p`
/// makes of the module at that position.
pub open spec fn stepped(p: Pipeline, out: Seq<Module>, done: Seq<bool>, k: int) -> bool {
    shows(out[k], p.exports@[k]) && module_passed(
        p.exports@,
        p.macros_available,
        p.completed_abs@[k],
        p.modules@[k],
        out[k],
        done[k],
    )
}

impl Pipeline {
    /// Whether every finished source module with an absolute name is settled:
    /// every type reference in it carries an absolute name, unless it is a
    /// placeholder, and none names a definition that is private to another
    /// module.
    pub open spec fn finished_settled(self) -> bool {
        forall|i: int|
            0 <= i < self.modules@.len() && i < self.completed_abs@.len() && self.completed_abs@[i] && (
            #[trigger] self.modules@[i]) is ZZ && is_absolute_name(self.modules@[i].name())
                ==> module_settled(self.exports@, self.modules@[i]->ZZ_0)
    }

    /// The state is well formed when the three lists run in parallel,
    /// `exports` holds what each module shows, and every finished source
    /// module is settled.
    pub open spec fn wf(self) -> bool {
        &&& self.exports@.len() == self.modules@.len()
        &&& self.completed_abs@.len() == self.modules@.len()
        &&& forall|i: int|
            0 <= i < self.modules@.len() ==> shows(self.modules@[i], #[trigger] self.exports@[i])
        &&& self.finished_settled()
    }

    /// A pass leaves every finished source module settled.
    pub proof fn lemma_pass_settles(self, next: Pipeline)
        requires
            self.finished_settled(),
            self.completed_abs@.len() == self.modules@.len(),
            self.passed(next),
        ensures
            next.finished_settled(),
    {
        assert forall|i: int|
            0 <= i < next.modules@.len() && i < next.completed_abs@.len() && next.completed_abs@[i] && (
            #[trigger] next.modules@[i]) is ZZ && is_absolute_name(
                next.modules@[i].name(),
            ) implies module_settled(next.exports@, next.modules@[i]->ZZ_0) by {
            assert(self.passed_at(next, i));
            let old = self.modules@[i];
            if self.completed_abs@[i] || old is C {
                assert(next.modules@[i] == old);
            } else if waits(self.macros_available, old) {
            } else {
                assert(module_resolved(self.exports@, old->ZZ_0, next.modules@[i]->ZZ_0));
                assert(old->ZZ_0.name == next.modules@[i]->ZZ_0.name) by {
                    reveal(module_resolved);
                }
                lemma_resolved_is_settled(self.exports@, old->ZZ_0, next.modules@[i]->ZZ_0);
            }
        }
    }

    /// The number of modules that the resolver has not finished.
    pub open spec fn pending(self) -> nat {
        count_false(self.completed_abs@)
    }

    /// The fault of the first module, among the first `n`, on which one pass
    /// fails.
    pub open spec fn pass_fault(self, n: nat) -> Option<ResolveError>
        decreases n,
    {
        if n == 0 || n > self.modules@.len() {
            None
        } else {
            first(
                self.pass_fault((n - 1) as nat),
                module_pass_fault(
                    self.exports@,
                    self.macros_available,
                    self.completed_abs@[n - 1],
                    self.modules@[n - 1],
                ),
            )
        }
    }

    /// Whether `new` is the state after one pass over `self`.
    pub open spec fn passed(self, new: Pipeline) -> bool {
        &&& new.project == self.project
        &&& new.variant == self.variant
        &&& new.exports == self.exports
        &&& new.macros_available == self.macros_available
        &&& new.modules@.len() == self.modules@.len()
        &&& new.completed_abs@.len() == self.completed_abs@.len()
        &&& forall|i: int| 0 <= i < self.modules@.len() ==> #[trigger] self.passed_at(new, i)
    }

    /// Whether `new` holds, at position `i`, what one pass makes of the module
    /// at that position.
    pub open spec fn passed_at(self, new: Pipeline, i: int) -> bool {
        module_passed(
            self.exports@,
            self.macros_available,
            self.completed_abs@[i],
            self.modules@[i],
            new.modules@[i],
            new.completed_abs@[i],
        )
    }

    /// Whether some unfinished module waits for the macro stage.
    pub open spec fn stuck(self) -> bool {
        exists|i: int|
            0 <= i < self.modules@.len() && !self.completed_abs@[i] && waits(
                self.macros_available,
                #[trigger] self.modules@[i],
            )
    }

    /// The state before any pass: the modules stand in the order of their
    /// names, which is the order in which every pass takes them; no module is
    /// finished, the macro stage has not run.
    pub fn new(project: Config, variant: String, modules: Vec<Module>) -> (p: Pipeline)
        ensures
            p.wf(),
            p.project == project,
            p.variant == variant,
            p.modules@ == sorted_upto(modules@, modules@.len()),
            in_name_order(p.modules@),
            p.modules@.to_multiset() == modules@.to_multiset(),
            p.modules@.len() == modules@.len(),
            !p.macros_available,
            forall|i: int| 0 <= i < modules@.len() ==> !p.completed_abs@[i],
    {
        let modules = sort_by_name(modules);
        let exports = all_exports(&modules);
        let mut completed_abs: Vec<bool> = Vec::new();
        let mut i: usize = 0;
        while i < modules.len()
            invariant
                i <= modules.len(),
                completed_abs@.len() == i,
                forall|k: int| 0 <= k < i ==> !completed_abs@[k],
            decreases modules.len() - i,
        {
            completed_abs.push(false);
            i = i + 1;
        }
        Pipeline { project, variant, modules, exports, completed_abs, macros_available: false }
    }

    /// Whether the project has what `buildset` asks for; see [`plannable`].
    pub fn can_build(&self, buildset: &BuildSet) -> (b: bool)
        ensures
            b == plannable(self.project.artifacts@, *buildset),
    {
        can_plan(&self.project.artifacts, buildset)
    }

    /// The artifacts that `buildset` asks for, by position in the project and
    /// in its order; see [`plan`].
    pub fn build(&self, buildset: &BuildSet) -> (chosen: Vec<usize>)
        requires
            plannable(self.project.artifacts@, *buildset),
        ensures
            chosen@ == selection(self.project.artifacts@, *buildset, self.project.artifacts@.len()),
    {
        plan(&self.project.artifacts, buildset)
    }

    /// Records that the macro stage has run: modules that waited for it can
    /// now be resolved.
    pub fn macros_done(&mut self)
        ensures
            final(self).macros_available,
            final(self).project == old(self).project,
            final(self).variant == old(self).variant,
            final(self).modules == old(self).modules,
            final(self).exports == old(self).exports,
            final(self).completed_abs == old(self).completed_abs,
    {
        self.macros_available = true;
    }

    /// Replaces the macro call-sites of the source module at `index` by the
    /// trees of `outs`, in order; see [`module_expanded`]. The module counts as
    /// unresolved again, since what was put in has yet to be resolved; nothing
    /// else changes.
    pub fn expand(self, index: usize, outs: Vec<ast::Expression>) -> (p: Pipeline)
        requires
            self.wf(),
            index < self.modules@.len(),
            self.modules@[index as int] is ZZ,
        ensures
            p.wf(),
            p.project == self.project,
            p.variant == self.variant,
            p.exports == self.exports,
            p.macros_available == self.macros_available,
            p.completed_abs@ == self.completed_abs@.update(index as int, false),
            p.modules@.len() == self.modules@.len(),
            forall|i: int|
                0 <= i < self.modules@.len() && i != index ==> #[trigger] p.modules@[i] == self.modules@[i],
            p.modules@[index as int] is ZZ,
            module_expanded(outs@, self.modules@[index as int]->ZZ_0, p.modules@[index as int]->ZZ_0),
    {
        let Pipeline { project, variant, modules, exports, completed_abs, macros_available } = self;
        let mut modules = modules;
        let mut completed_abs = completed_abs;
        let new = match modules.remove(index) {
            Module::ZZ(tree) => Module::ZZ(expand(tree, outs)),
            Module::C { name, path } => Module::C { name, path },
        };
        modules.insert(index, new);
        completed_abs.set(index, false);
        let p = Pipeline { project, variant, modules, exports, completed_abs, macros_available };
        proof {
            assert forall|i: int| 0 <= i < p.modules@.len() implies shows(
                p.modules@[i],
                #[trigger] p.exports@[i],
            ) by {
                assert(shows(self.modules@[i], self.exports@[i]));
            }
        }
        p
    }

    /// The number of modules that the resolver has not finished.
    pub fn pending_count(&self) -> (n: usize)
        ensures
            n == self.pending(),
            n <= self.completed_abs@.len(),
    {
        let mut n: usize = 0;
        let mut i: usize = 0;
        proof {
            assert(self.completed_abs@.subrange(0, 0) =~= Seq::<bool>::empty());
        }
        while i < self.completed_abs.len()
            invariant
                i <= self.completed_abs.len(),
                n <= i,
                n == count_false(self.completed_abs@.subrange(0, i as int)),
            decreases self.completed_abs.len() - i,
        {
            proof {
                let head = self.completed_abs@.subrange(0, i + 1);
                assert(head.drop_last() == self.completed_abs@.subrange(0, i as int));
                assert(head.last() == self.completed_abs@[i as int]);
            }
            if !self.completed_abs[i] {
                n = n + 1;
            }
            i = i + 1;
        }
        proof {
            assert(self.completed_abs@.subrange(0, i as int) == self.completed_abs@);
        }
        n
    }

    /// One resolver pass over every module that is not finished, in order.
    ///
    /// Fails with the fault of the first module that cannot be resolved;
    /// otherwise every module is finished but those that wait for the macro
    /// stage.
    pub fn do_abs(self) -> (r: Result<Pipeline, ResolveError>)
        requires
            self.wf(),
        ensures
            match self.pass_fault(self.modules@.len()) {
                Some(e) => r == Err::<Pipeline, ResolveError>(e),
                None => r matches Ok(p) && p.wf() && self.passed(p),
            },
    {
        let Pipeline { project, variant, modules, exports, completed_abs, macros_available } = self;
        let mut out: Vec<Module> = Vec::new();
        let mut done: Vec<bool> = Vec::new();
        let mut i: usize = 0;
        for m in it: modules
            invariant
                i == it.index(),
                i <= self.modules.len(),
                it.seq() == modules@,
                modules == self.modules,
                exports == self.exports,
                completed_abs == self.completed_abs,
                macros_available == self.macros_available,
                self.wf(),
                out@.len() == i,
                done@.len() == i,
                self.pass_fault(i as nat) is None,
                forall|k: int| 0 <= k < i ==> #[trigger] stepped(self, out@, done@, k),
        {
            let ghost old_out = out@;
            let ghost old_done = done@;
            proof {
                self.lemma_pass_fault((i + 1) as nat, modules@.len());
            }
            match pass_module(m, completed_abs[i], &exports, macros_available, Ghost(exports@[i as int])) {
                Err(e) => {
                    return Err(e);
                },
                Ok((next, finished)) => {
                    out.push(next);
                    done.push(finished);
                    proof {
                        assert forall|k: int| 0 <= k < i + 1 implies #[trigger] stepped(
                            self,
                            out@,
                            done@,
                            k,
                        ) by {
                            if k < i {
                                assert(stepped(self, old_out, old_done, k));
                            }
                        }
                    }
                },
            }
            proof {
                assert(i < self.modules.len());
            }
            i = i + 1;
        }
        let next = Pipeline {
            project,
            variant,
            modules: out,
            exports,
            completed_abs: done,
            macros_available,
        };
        proof {
            assert forall|k: int| 0 <= k < self.modules@.len() implies #[trigger] self.passed_at(
                next,
                k,
            ) && shows(next.modules@[k], next.exports@[k]) by {
                assert(stepped(self, out@, done@, k));
            }
            assert forall|k: int| 0 <= k < next.modules@.len() implies shows(
                next.modules@[k],
                #[trigger] next.exports@[k],
            ) by {
                assert(stepped(self, out@, done@, k));
            }
            self.lemma_pass_settles(next);
        }
        Ok(next)
    }

    /// The name of the first module that the resolver has not finished.
    pub fn first_pending(&self) -> (r: Option<Name>)
        requires
            self.wf(),
        ensures
            r is None <==> forall|i: int| 0 <= i < self.modules@.len() ==> self.completed_abs@[i],
            r matches Some(n) ==> exists|i: int|
                0 <= i < self.modules@.len() && !self.completed_abs@[i] && (
                #[trigger] self.modules@[i]).name() == n@,
    {
        let mut i: usize = 0;
        while i < self.modules.len()
            invariant
                self.wf(),
                i <= self.modules.len(),
                forall|k: int| 0 <= k < i ==> self.completed_abs@[k],
            decreases self.modules.len() - i,
        {
            if !self.completed_abs[i] {
                let n = match &self.modules[i] {
                    Module::C { name, .. } => name.clone(),
                    Module::ZZ(tree) => tree.name.clone(),
                };
                proof {
                    assert(self.modules@[i as int].name() == n@);
                }
                return Some(n);
            }
            i = i + 1;
        }
        None
    }

    /// Runs resolver passes until none finishes a module.
    ///
    /// Fails with the fault of the first module that cannot be resolved, or,
    /// where a pass finished nothing while modules were pending, with
    /// `UnresolvedReference` and the name of a pending module. Otherwise every
    /// module is finished. The number of passes is handed out with the state;
    /// it never exceeds the number of modules that were pending, and one pass
    /// is enough.
    pub fn resolve_all(self) -> (r: Result<(Pipeline, usize), ResolveError>)
        requires
            self.wf(),
        ensures
            match self.pass_fault(self.modules@.len()) {
                Some(e) => r == Err::<(Pipeline, usize), ResolveError>(e),
                None => if self.stuck() {
                    r is Err && r->Err_0 is UnresolvedReference && exists|i: int|
                        0 <= i < self.modules@.len() && !self.completed_abs@[i] && (
                        #[trigger] self.modules@[i]).name() == r->Err_0->UnresolvedReference_0@
                } else {
                    r matches Ok(p) && p.0.wf() && self.passed(p.0) && p.0.pending() == 0 && p.1 == (
                    if self.pending() == 0 {
                        0usize
                    } else {
                        1usize
                    })
                },
            },
            r matches Ok(p) ==> p.1 <= self.pending() <= self.modules@.len(),
    {
        let mut cur = self;
        let mut passes: usize = 0;
        proof {
            self.lemma_finished_has_no_fault(self.modules@.len());
            lemma_count_false_bound(self.completed_abs@);
        }
        loop
            invariant
                self.wf(),
                cur.wf(),
                passes <= 1,
                self.pending() <= self.modules@.len(),
                passes == 0 ==> cur == self,
                passes == 1 ==> self.pass_fault(self.modules@.len()) is None && self.passed(cur)
                    && self.pending() > 0,
            decreases cur.pending(),
        {
            let before = cur.pending_count();
            if before == 0 {
                proof {
                    lemma_count_false_zero(cur.completed_abs@);
                    if passes == 0 {
                        self.lemma_finished_has_no_fault(self.modules@.len());
                    } else {
                        assert(!self.stuck()) by {
                            if self.stuck() {
                                let i = choose|i: int|
                                    0 <= i < self.modules@.len() && !self.completed_abs@[i] && waits(
                                        self.macros_available,
                                        #[trigger] self.modules@[i],
                                    );
                                assert(self.passed_at(cur, i));
                                assert(!cur.completed_abs@[i]);
                            }
                        }
                    }
                }
                return Ok((cur, passes));
            }
            let ghost prior = cur;
            let name = cur.first_pending();
            proof {
                cur.lemma_waiting_passes(cur.modules@.len());
            }
            let next = match cur.do_abs() {
                Err(e) => {
                    proof {
                        if passes == 1 {
                            self.lemma_second_pass(prior);
                            prior.lemma_waiting_passes(prior.modules@.len());
                        }
                    }
                    return Err(e);
                },
                Ok(p) => p,
            };
            let after = next.pending_count();
            proof {
                prior.lemma_pass_keeps_or_finishes(next);
                if passes == 1 {
                    self.lemma_second_pass(prior);
                    prior.lemma_stuck_stays(next);
                }
            }
            if after == before {
                proof {
                    prior.lemma_no_progress_is_stuck(next);
                    if passes == 1 {
                        self.lemma_second_pass(prior);
                        let i = choose|i: int|
                            0 <= i < prior.modules@.len() && !prior.completed_abs@[i] && waits(
                                prior.macros_available,
                                #[trigger] prior.modules@[i],
                            );
                        assert(waits(self.macros_available, self.modules@[i]));
                    }
                }
                match name {
                    Some(n) => {
                        proof {
                            if passes == 1 {
                                let i = choose|i: int|
                                    0 <= i < prior.modules@.len() && !prior.completed_abs@[i] && (
                                    #[trigger] prior.modules@[i]).name() == n@;
                                assert(self.modules@[i].name() == n@);
                            }
                        }
                        return Err(ResolveError::UnresolvedReference(n));
                    },
                    None => {
                        proof {
                            lemma_count_false_all(prior.completed_abs@);
                        }
                        return Ok((next, passes));
                    },
                }
            }
            proof {
                assert(passes == 0);
            }
            cur = next;
            passes = passes + 1;
        }
    }

    /// Where every module is finished, a pass has no fault and nothing waits.
    pub proof fn lemma_finished_has_no_fault(self, n: nat)
        requires
            self.wf(),
            n <= self.modules@.len(),
        ensures
            self.pending() == 0 ==> self.pass_fault(n) is None && !self.stuck(),
        decreases n,
    {
        if self.pending() == 0 {
            lemma_count_false_zero(self.completed_abs@);
            if n > 0 {
                self.lemma_finished_has_no_fault((n - 1) as nat);
            }
        }
    }

    /// Where every unfinished module waits, a pass has no fault.
    pub proof fn lemma_waiting_passes(self, n: nat)
        requires
            self.wf(),
            n <= self.modules@.len(),
        ensures
            (forall|i: int|
                0 <= i < self.modules@.len() && !self.completed_abs@[i] ==> waits(
                    self.macros_available,
                    #[trigger] self.modules@[i],
                )) ==> self.pass_fault(n) is None,
        decreases n,
    {
        if n > 0 {
            self.lemma_waiting_passes((n - 1) as nat);
        }
    }

    /// After a pass, a module is unfinished only if it was before, and the
    /// number of unfinished modules has not grown.
    pub proof fn lemma_pass_keeps_or_finishes(self, next: Pipeline)
        requires
            self.wf(),
            self.passed(next),
        ensures
            next.pending() <= self.pending(),
            forall|i: int|
                0 <= i < self.modules@.len() && !next.completed_abs@[i] ==> !self.completed_abs@[i]
                    && waits(self.macros_available, #[trigger] self.modules@[i]) && next.modules@[i]
                    == self.modules@[i],
    {
        assert forall|i: int| 0 <= i < self.modules@.len() && !next.completed_abs@[i] implies
            !self.completed_abs@[i] && waits(self.macros_available, #[trigger] self.modules@[i])
            && next.modules@[i] == self.modules@[i] by {
            assert(self.passed_at(next, i));
        }
        assert forall|i: int| 0 <= i < self.completed_abs@.len() && !next.completed_abs@[i] implies
            !self.completed_abs@[i] by {
            assert(self.passed_at(next, i));
        }
        lemma_count_false_monotone(self.completed_abs@, next.completed_abs@);
    }

    /// A pass that leaves as many modules unfinished as it found leaves the
    /// same modules unfinished, and each of them waits.
    pub proof fn lemma_no_progress_is_stuck(self, next: Pipeline)
        requires
            self.wf(),
            self.passed(next),
            next.pending() == self.pending(),
            self.pending() > 0,
        ensures
            self.stuck(),
    {
        self.lemma_pass_keeps_or_finishes(next);
        lemma_count_false_some(next.completed_abs@);
        let i = choose|i: int| 0 <= i < next.completed_abs@.len() && !next.completed_abs@[i];
        assert(waits(self.macros_available, self.modules@[i]));
    }

    /// In the state after a first pass every unfinished module waits.
    pub proof fn lemma_second_pass(self, cur: Pipeline)
        requires
            self.wf(),
            self.passed(cur),
        ensures
            forall|i: int|
                0 <= i < cur.modules@.len() && !cur.completed_abs@[i] ==> waits(
                    cur.macros_available,
                    #[trigger] cur.modules@[i],
                ) && cur.modules@[i] == self.modules@[i] && !self.completed_abs@[i],
    {
        self.lemma_pass_keeps_or_finishes(cur);
        assert forall|i: int| 0 <= i < cur.modules@.len() && !cur.completed_abs@[i] implies waits(
            cur.macros_available,
            #[trigger] cur.modules@[i],
        ) && cur.modules@[i] == self.modules@[i] && !self.completed_abs@[i] by {
            assert(waits(self.macros_available, self.modules@[i]));
        }
    }

    /// Where every unfinished module waits, a pass finishes nothing.
    pub proof fn lemma_stuck_stays(self, next: Pipeline)
        requires
            self.wf(),
            self.passed(next),
            forall|i: int|
                0 <= i < self.modules@.len() && !self.completed_abs@[i] ==> waits(
                    self.macros_available,
                    #[trigger] self.modules@[i],
                ),
        ensures
            next.pending() == self.pending(),
    {
        assert forall|i: int| 0 <= i < self.modules@.len() implies next.completed_abs@[i]
            == self.completed_abs@[i] by {
            assert(self.passed_at(next, i));
        }
        assert(next.completed_abs@ =~= self.completed_abs@);
    }

    /// Two passes are enough where no name is unresolved: after one pass
    /// before the macro stage and one pass after it, no module is pending.
    pub proof fn lemma_two_passes_suffice(self, first: Pipeline, armed: Pipeline, second: Pipeline)
        requires
            self.wf(),
            self.passed(first),
            armed.macros_available,
            armed.modules == first.modules,
            armed.exports == first.exports,
            armed.completed_abs == first.completed_abs,
            armed.passed(second),
        ensures
            second.pending() == 0,
    {
        assert forall|i: int| 0 <= i < second.completed_abs@.len() implies second.completed_abs@[i] by {
            assert(self.passed_at(first, i));
            assert(armed.passed_at(second, i));
        }
        lemma_count_false_all(second.completed_abs@);
    }

    /// A fault among the first `k` modules is the fault of the whole pass.
    pub proof fn lemma_pass_fault(self, k: nat, n: nat)
        requires
            k <= n <= self.modules@.len(),
        ensures
            self.pass_fault(k) is Some ==> self.pass_fault(n) == self.pass_fault(k),
        decreases n,
    {
        if k < n {
            self.lemma_pass_fault(k, (n - 1) as nat);
        }
    }
}

/// Whether modules that had to wait are tried once more: some are waiting,
/// and either this was the first round or the round before made fewer wait
/// than it tried. So every round after the first tries fewer modules than the
/// one before, and the rounds end.
pub open spec fn retries(waiting: nat, tried: nat, round: nat) -> bool {
    waiting > 0 && (round == 0 || waiting < tried)
}

/// Whether the modules that had to wait in round `round`, `waiting` of the
/// `tried`, are tried once more after another resolver pass; see [`retries`].
pub fn tries_again(waiting: usize, tried: usize, round: usize) -> (b: bool)
    ensures
        b == retries(waiting as nat, tried as nat, round as nat),
{
    waiting > 0 && (round == 0 || waiting < tried)
}

/// Whether `a` is the artifact that builds the macro module `name`.
pub open spec fn builds_macro(a: Artifact, name: Seq<Seq<char>>) -> bool {
    a.name@ == join(name.subrange(1, name.len() as int), "_"@) && a.main@ == join(name, path_sep())
        && a.typ == ArtifactType::Macro
}

/// Whether `order` is the order in which a build takes its artifacts: first
/// the artifact of every macro module, in the order of `macros`, then the
/// artifacts of the project that `buildset` asks for, in the project's order.
/// So every macro is built before any artifact that may call it.
pub open spec fn scheduled(artifacts: Seq<Artifact>, buildset: BuildSet, macros: Seq<Name>, order: Seq<Artifact>) -> bool {
    &&& order.len() == macros.len() + selection(artifacts, buildset, artifacts.len()).len()
    &&& forall|k: int| 0 <= k < macros.len() ==> builds_macro(#[trigger] order[k], macros[k]@)
    &&& forall|k: int|
        0 <= k < selection(artifacts, buildset, artifacts.len()).len() ==> #[trigger] order[macros.len()
            + k] == artifacts[selection(artifacts, buildset, artifacts.len())[k] as int]
}

/// The order in which a build takes its artifacts; see [`scheduled`].
pub fn schedule(artifacts: &Vec<Artifact>, buildset: &BuildSet, macros: &Vec<Name>) -> (order: Vec<
    Artifact,
>)
    requires
        plannable(artifacts@, *buildset),
        forall|k: int| 0 <= k < macros@.len() ==> (#[trigger] macros@[k])@.len() >= 1,
    ensures
        scheduled(artifacts@, *buildset, macros@, order@),
{
    let mut order: Vec<Artifact> = Vec::new();
    let mut i: usize = 0;
    while i < macros.len()
        invariant
            i <= macros.len(),
            order@.len() == i,
            forall|k: int| 0 <= k < macros@.len() ==> (#[trigger] macros@[k])@.len() >= 1,
            forall|k: int| 0 <= k < i ==> builds_macro(#[trigger] order@[k], macros@[k]@),
        decreases macros.len() - i,
    {
        order.push(macro_artifact(&macros[i]));
        i = i + 1;
    }
    let chosen = plan(artifacts, buildset);
    proof {
        lemma_selection_in_range(artifacts@, *buildset, artifacts@.len());
    }
    let mut j: usize = 0;
    while j < chosen.len()
        invariant
            j <= chosen.len(),
            chosen@ == selection(artifacts@, *buildset, artifacts@.len()),
            forall|k: int| 0 <= k < chosen@.len() ==> (#[trigger] chosen@[k]) < artifacts@.len(),
            order@.len() == macros@.len() + j,
            forall|k: int| 0 <= k < macros@.len() ==> builds_macro(#[trigger] order@[k], macros@[k]@),
            forall|k: int|
                0 <= k < j ==> #[trigger] order@[macros@.len() + k] == artifacts@[chosen@[k] as int],
        decreases chosen.len() - j,
    {
        let a = &artifacts[chosen[j]];
        let ghost was = order@;
        order.push(Artifact { name: a.name.clone(), main: a.main.clone(), typ: a.typ });
        proof {
            assert forall|k: int| 0 <= k < j + 1 implies #[trigger] order@[macros@.len() + k]
                == artifacts@[chosen@[k] as int] by {
                if k < j {
                    assert(order@[macros@.len() + k] == was[macros@.len() + k]);
                }
            }
            assert forall|k: int| 0 <= k < macros@.len() implies builds_macro(
                #[trigger] order@[k],
                macros@[k]@,
            ) by {
                assert(order@[k] == was[k]);
            }
        }
        j = j + 1;
    }
    order
}

/// Every selected position is a position of an artifact.
pub proof fn lemma_selection_in_range(artifacts: Seq<Artifact>, buildset: BuildSet, n: nat)
    requires
        n <= artifacts.len(),
    ensures
        forall|k: int|
            0 <= k < selection(artifacts, buildset, n).len() ==> (#[trigger] selection(
                artifacts,
                buildset,
                n,
            )[k]) < n,
    decreases n,
{
    if n > 0 {
        lemma_selection_in_range(artifacts, buildset, (n - 1) as nat);
        let before = selection(artifacts, buildset, (n - 1) as nat);
        let after = selection(artifacts, buildset, n);
        assert forall|k: int| 0 <= k < after.len() implies (#[trigger] after[k]) < n by {
            if k < before.len() {
                assert(after[k] == before[k]);
            }
        }
    }
}

/// What is done with an artifact once its modules are emitted.
#[derive(Clone, Copy, Debug, PartialEq, Eq, Structural)]
pub enum Finish {
    /// Compile what the artifact needs and link it.
    Link,
    /// Stop: the run only checks.
    Stop,
}

/// What a build does with an artifact once its modules are emitted: a check
/// stops there, every other build compiles and links.
pub fn finish(buildset: &BuildSet) -> (f: Finish)
    ensures
        f == (if buildset is Check {
            Finish::Stop
        } else {
            Finish::Link
        }),
{
    match buildset {
        BuildSet::Check(_) => Finish::Stop,
        _ => Finish::Link,
    }
}

/// Whether a build emits the module read from the file `source`: a check of
/// one file emits the module read from that file and no other; every other
/// build emits every module.
pub open spec fn emits(buildset: BuildSet, source: Seq<char>) -> bool {
    match buildset {
        BuildSet::Check(Some(only)) => only@ == source,
        _ => true,
    }
}

/// Whether a build emits the module read from the file `source`; see
/// [`emits`].
pub fn is_emitted(buildset: &BuildSet, source: &str) -> (b: bool)
    ensures
        b == emits(*buildset, source@),
{
    match buildset {
        BuildSet::Check(Some(only)) => crate::assoc::str_eq(only.as_str(), source),
        _ => true,
    }
}

/// The symbols of the descriptors at the first `n` positions of `order`, one
/// descriptor after another.
pub open spec fn listed_symbols(cfiles: Seq<CFile>, order: Seq<usize>, n: nat) -> Seq<Seq<Seq<char>>>
    decreases n,
{
    if n == 0 || n > order.len() {
        Seq::empty()
    } else {
        listed_symbols(cfiles, order, (n - 1) as nat) + crate::name::views(
            cfiles[order[n - 1] as int].symbols@,
        )
    }
}

/// The first `n` names without repetition: each where it is first met.
pub open spec fn first_met(names: Seq<Seq<Seq<char>>>, n: nat) -> Seq<Seq<Seq<char>>>
    decreases n,
{
    if n == 0 || n > names.len() {
        Seq::empty()
    } else if first_met(names, (n - 1) as nat).contains(names[n - 1]) {
        first_met(names, (n - 1) as nat)
    } else {
        first_met(names, (n - 1) as nat).push(names[n - 1])
    }
}

/// What is first met holds every one of the names, and each once.
pub proof fn lemma_first_met(names: Seq<Seq<Seq<char>>>, n: nat)
    requires
        n <= names.len(),
    ensures
        first_met(names, n).no_duplicates(),
        forall|x: Seq<Seq<char>>|
            first_met(names, n).contains(x) <==> exists|i: int| 0 <= i < n && names[i] == x,
    decreases n,
{
    if n > 0 {
        lemma_first_met(names, (n - 1) as nat);
        let before = first_met(names, (n - 1) as nat);
        let after = first_met(names, n);
        let last = names[n - 1];
        assert forall|x: Seq<Seq<char>>| after.contains(x) <==> exists|i: int|
            0 <= i < n && names[i] == x by {
            if after.contains(x) {
                let k = choose|k: int| 0 <= k < after.len() && after[k] == x;
                if before.contains(last) || k < before.len() {
                    assert(before.contains(after[k]));
                    let i = choose|i: int| 0 <= i < n - 1 && names[i] == x;
                    assert(0 <= i < n && names[i] == x);
                } else {
                    assert(names[n - 1] == x);
                }
            }
            if exists|i: int| 0 <= i < n && names[i] == x {
                let i = choose|i: int| 0 <= i < n && names[i] == x;
                if i < n - 1 {
                    assert(before.contains(x));
                    let k = choose|k: int| 0 <= k < before.len() && before[k] == x;
                    assert(after[k] == x);
                } else if before.contains(last) {
                } else {
                    assert(after[before.len() as int] == x);
                }
            }
        }
    }
}

/// The names that a list of references points at.
pub open spec fn named(v: Seq<&Name>) -> Seq<Seq<Seq<char>>> {
    Seq::new(v.len(), |i: int| v[i]@)
}

/// Whether `names` holds a name that reads `n`.
fn holds_name(names: &Vec<Name>, n: &Name) -> (b: bool)
    ensures
        b == crate::name::views(names@).contains(n@),
{
    let mut i: usize = 0;
    while i < names.len()
        invariant
            i <= names.len(),
            forall|k: int| 0 <= k < i ==> crate::name::views(names@)[k] != n@,
        decreases names.len() - i,
    {
        if names[i] == *n {
            proof {
                assert(crate::name::views(names@)[i as int] == n@);
            }
            return true;
        }
        i = i + 1;
    }
    false
}

/// The symbols that the symbol table of an artifact holds: those of the
/// descriptors at the positions of `order`, in the order in which they are
/// first met, each once.
pub fn required_symbols(order: &Vec<usize>, cfiles: &Vec<CFile>) -> (symbols: Vec<Name>)
    requires
        forall|k: int| 0 <= k < order@.len() ==> (#[trigger] order@[k]) < cfiles@.len(),
    ensures
        crate::name::views(symbols@) == first_met(
            listed_symbols(cfiles@, order@, order@.len()),
            listed_symbols(cfiles@, order@, order@.len()).len(),
        ),
        crate::name::views(symbols@).no_duplicates(),
        forall|x: Seq<Seq<char>>|
            crate::name::views(symbols@).contains(x) <==> listed_symbols(
                cfiles@,
                order@,
                order@.len(),
            ).contains(x),
{
    let mut all: Vec<&Name> = Vec::new();
    let mut k: usize = 0;
    proof {
        assert(named(all@) =~= listed_symbols(cfiles@, order@, 0));
    }
    while k < order.len()
        invariant
            k <= order.len(),
            forall|j: int| 0 <= j < order@.len() ==> (#[trigger] order@[j]) < cfiles@.len(),
            named(all@) == listed_symbols(cfiles@, order@, k as nat),
        decreases order.len() - k,
    {
        let cf = &cfiles[order[k]];
        let ghost before = named(all@);
        let mut x: usize = 0;
        while x < cf.symbols.len()
            invariant
                x <= cf.symbols.len(),
                named(all@) == before + crate::name::views(cf.symbols@).subrange(0, x as int),
            decreases cf.symbols.len() - x,
        {
            let ghost prev = named(all@);
            all.push(&cf.symbols[x]);
            proof {
                assert(named(all@) =~= prev.push(cf.symbols@[x as int]@));
                assert(crate::name::views(cf.symbols@).subrange(0, x + 1) =~= crate::name::views(
                    cf.symbols@,
                ).subrange(0, x as int).push(cf.symbols@[x as int]@));
                assert(named(all@) =~= before + crate::name::views(cf.symbols@).subrange(0, x + 1));
            }
            x = x + 1;
        }
        proof {
            assert(crate::name::views(cf.symbols@).subrange(0, cf.symbols@.len() as int)
                =~= crate::name::views(cf.symbols@));
        }
        k = k + 1;
    }
    let ghost names = named(all@);
    let mut symbols: Vec<Name> = Vec::new();
    let mut i: usize = 0;
    proof {
        assert(crate::name::views(symbols@) =~= first_met(names, 0));
    }
    while i < all.len()
        invariant
            i <= all.len(),
            names == named(all@),
            crate::name::views(symbols@) == first_met(names, i as nat),
        decreases all.len() - i,
    {
        let n = all[i];
        proof {
            assert(names[i as int] == n@);
        }
        if !holds_name(&symbols, n) {
            let ghost prev = crate::name::views(symbols@);
            symbols.push(n.clone());
            proof {
                assert(crate::name::views(symbols@) =~= prev.push(n@));
            }
        }
        i = i + 1;
    }
    proof {
        lemma_first_met(names, names.len());
        assert forall|x: Seq<Seq<char>>|
            crate::name::views(symbols@).contains(x) <==> names.contains(x) by {
            if names.contains(x) {
                let j = choose|j: int| 0 <= j < names.len() && names[j] == x;
                assert(0 <= j < names.len() && names[j] == x);
            }
        }
    }
    symbols
}

} // verus!
