//! Flattened modules: for one module, every definition it needs, in an order in
//! which each can be declared.

use vstd::prelude::*;
use vstd::string::*;
use crate::ast::{Local, Location};
use crate::graph::{
    arc, first_come, first_come_by, graph_wf, holds_in, is_chain, is_root, knot, knot_by,
    lemma_first_come_by, lemma_knot_from_relation, lemma_knot_to_relation, lemma_one_order,
    lemma_ordered_by, lemma_reached_by, ordered, ordered_by, placed_before, placed_in, reachable,
    reached, reached_by, stands_for, tied, topo_order,
};
use crate::loader;
use crate::name::{views, Name};
use crate::text::{copy_strings, join, path_sep, strs};
use crate::resolver::extended;
use crate::uses::{collect_def, def_uses, uses_of, Use};

verus! {

/// Whether a flattened definition carries its body or layout, or stands as a
/// forward declaration only.
#[derive(Clone, Copy, Debug, PartialEq, Eq, Structural)]
pub enum TypeComplete {
    Complete,
    Incomplete,
}

/// One entry of a flattened module: a definition of some module, under its
/// absolute name written with `::`, as a whole or as a forward declaration.
#[derive(Clone, Debug, PartialEq)]
pub struct Flat<'a> {
    pub name: String,
    pub local: &'a Local,
    pub complete: TypeComplete,
    /// The position of the definition in the table of all definitions.
    pub node: usize,
}

/// The self-contained view of one module that the emitters consume: every
/// definition it needs, in an order in which each can be declared.
#[derive(Clone, Debug, PartialEq)]
pub struct Module<'a> {
    pub name: Name,
    pub sources: Vec<String>,
    pub d: Vec<Flat<'a>>,
    /// The alias table of the module, as the resolver filled it.
    pub aliases: &'a Vec<(Name, String)>,
    pub typevariants: Vec<(Name, Vec<(u64, Location)>)>,
}

/// The position of a definition: that of its module, and its own in it.
pub type Spot = (usize, usize);

/// Whether a spot is the position of a definition of a source module.
pub open spec fn is_spot(modules: Seq<loader::Module>, s: Spot) -> bool {
    s.0 < modules.len() && modules[s.0 as int] is ZZ && s.1 < modules[s.0 as int]->ZZ_0.locals@.len()
}

/// The definition at a spot.
pub open spec fn local_at(modules: Seq<loader::Module>, s: Spot) -> Local
    recommends
        is_spot(modules, s),
{
    modules[s.0 as int]->ZZ_0.locals@[s.1 as int]
}

/// The absolute name of the definition at a spot: its module's name and its
/// identifier.
pub open spec fn name_at(modules: Seq<loader::Module>, s: Spot) -> Seq<Seq<char>>
    recommends
        is_spot(modules, s),
{
    modules[s.0 as int]->ZZ_0.name@.push(local_at(modules, s).name@)
}

/// The spots of the first `n` definitions of the module at `m`.
pub open spec fn module_spots(modules: Seq<loader::Module>, m: int, n: nat) -> Seq<Spot>
    decreases n,
{
    if n == 0 {
        Seq::empty()
    } else {
        module_spots(modules, m, (n - 1) as nat).push((m as usize, (n - 1) as usize))
    }
}

/// Every spot of the first `m` modules: module by module, and in each module
/// definition by definition.
pub open spec fn spots(modules: Seq<loader::Module>, m: nat) -> Seq<Spot>
    decreases m,
{
    if m == 0 || m > modules.len() {
        Seq::empty()
    } else {
        spots(modules, (m - 1) as nat) + (match modules[m - 1] {
            loader::Module::ZZ(tree) => module_spots(modules, m - 1, tree.locals@.len()),
            loader::Module::C { .. } => Seq::empty(),
        })
    }
}

/// The table of all definitions, and the absolute name of each.
pub fn node_table(modules: &Vec<loader::Module>) -> (r: (Vec<Spot>, Vec<Name>))
    ensures
        r.0@ == spots(modules@, modules@.len()),
        r.1@.len() == r.0@.len(),
        forall|k: int| 0 <= k < r.0@.len() ==> is_spot(modules@, #[trigger] r.0@[k]),
        forall|k: int| 0 <= k < r.0@.len() ==> (#[trigger] r.1@[k])@ == name_at(modules@, r.0@[k]),
        r.0@ == table(modules@),
        views(r.1@) == table_names(modules@),
{
    let mut nodes: Vec<Spot> = Vec::new();
    let mut names: Vec<Name> = Vec::new();
    let mut m: usize = 0;
    while m < modules.len()
        invariant
            m <= modules.len(),
            nodes@ == spots(modules@, m as nat),
            names@.len() == nodes@.len(),
            forall|k: int| 0 <= k < nodes@.len() ==> is_spot(modules@, #[trigger] nodes@[k]),
            forall|k: int| 0 <= k < nodes@.len() ==> (#[trigger] names@[k])@ == name_at(modules@, nodes@[k]),
        decreases modules.len() - m,
    {
        match &modules[m] {
            loader::Module::ZZ(tree) => {
                let ghost base = nodes@;
                let mut l: usize = 0;
                while l < tree.locals.len()
                    invariant
                        l <= tree.locals.len(),
                        m < modules.len(),
                        modules@[m as int] == loader::Module::ZZ(*tree),
                        nodes@ == base + module_spots(modules@, m as int, l as nat),
                        names@.len() == nodes@.len(),
                        forall|k: int| 0 <= k < nodes@.len() ==> is_spot(modules@, #[trigger] nodes@[k]),
                        forall|k: int|
                            0 <= k < nodes@.len() ==> (#[trigger] names@[k])@ == name_at(
                                modules@,
                                nodes@[k],
                            ),
                    decreases tree.locals.len() - l,
                {
                    let ghost before = nodes@;
                    nodes.push((m, l));
                    names.push(extended(&tree.name, &tree.locals[l].name));
                    proof {
                        assert(nodes@ =~= base + module_spots(modules@, m as int, (l + 1) as nat));
                    }
                    l = l + 1;
                }
            },
            loader::Module::C { .. } => {
                proof {
                    assert(nodes@ + Seq::<Spot>::empty() =~= nodes@);
                }
            },
        }
        m = m + 1;
    }
    proof {
        assert(views(names@) =~= table_names(modules@));
    }
    (nodes, names)
}

/// The position in the table of the first definition named `n`, at or after
/// `from`.
pub open spec fn named_from(names: Seq<Seq<Seq<char>>>, n: Seq<Seq<char>>, from: int) -> Option<int>
    decreases names.len() - from,
{
    if from < 0 || from >= names.len() {
        None
    } else if names[from] == n {
        Some(from)
    } else {
        named_from(names, n, from + 1)
    }
}

/// Whether one of the first `n` references is to the definition at `b`: it
/// names it, and is by value where only those count.
pub open spec fn refers_to(
    names: Seq<Seq<Seq<char>>>,
    uses: Seq<Use>,
    n: nat,
    b: int,
    by_value: bool,
) -> bool
    decreases n,
{
    if n == 0 || n > uses.len() {
        false
    } else {
        refers_to(names, uses, (n - 1) as nat, b, by_value) || (named_from(names, uses[n - 1].0, 0)
            == Some(b) && (by_value ==> uses[n - 1].1))
    }
}

/// The table of all definitions.
pub open spec fn table(modules: Seq<loader::Module>) -> Seq<Spot> {
    spots(modules, modules.len())
}

/// The absolute names of all definitions, in the order of the table.
pub open spec fn table_names(modules: Seq<loader::Module>) -> Seq<Seq<Seq<char>>> {
    Seq::new(table(modules).len(), |k: int| name_at(modules, table(modules)[k]))
}

/// Whether the definition at table position `a` refers to the one at `b`, by
/// value where only those references count.
pub open spec fn refers(modules: Seq<loader::Module>, a: int, b: int, by_value: bool) -> bool {
    0 <= a < table(modules).len() && refers_to(
        table_names(modules),
        def_uses(local_at(modules, table(modules)[a]).def),
        def_uses(local_at(modules, table(modules)[a]).def).len(),
        b,
        by_value,
    )
}

/// The relation "refers to" on table positions.
pub open spec fn needs(modules: Seq<loader::Module>, by_value: bool) -> spec_fn(int, int) -> bool {
    |a: int, b: int| refers(modules, a, b, by_value)
}

/// The table positions of the definitions of the module at `module`.
pub open spec fn owned(modules: Seq<loader::Module>, module: usize) -> spec_fn(int) -> bool {
    |a: int| 0 <= a < table(modules).len() && table(modules)[a].0 == module
}

/// The table positions of the definitions that the module at `module` needs:
/// its own, and what they refer to, directly or through others.
pub open spec fn wanted(modules: Seq<loader::Module>, module: usize) -> spec_fn(int) -> bool {
    |a: int|
        reached_by(needs(modules, false), owned(modules, module), table(modules).len() as int, a)
}

fn find_named(names: &Vec<Name>, n: &Name) -> (at: Option<usize>)
    ensures
        (match at {
            Some(i) => Some(i as int),
            None => None,
        }) == named_from(views(names@), n@, 0),
        at matches Some(i) ==> i < names.len(),
{
    let mut i: usize = 0;
    while i < names.len()
        invariant
            i <= names.len(),
            named_from(views(names@), n@, 0) == named_from(views(names@), n@, i as int),
        decreases names.len() - i,
    {
        if names[i] == *n {
            return Some(i);
        }
        i = i + 1;
    }
    None
}

/// Whether `b` stands in the list.
pub open spec fn listed(v: Seq<usize>, b: int) -> bool {
    exists|k: int| 0 <= k < v.len() && #[trigger] v[k] == b
}

/// A found position is a position.
proof fn lemma_named_from(names: Seq<Seq<Seq<char>>>, n: Seq<Seq<char>>, from: int)
    requires
        0 <= from,
    ensures
        named_from(names, n, from) matches Some(i) ==> from <= i < names.len(),
    decreases names.len() - from,
{
    if from < names.len() && names[from] != n {
        lemma_named_from(names, n, from + 1);
    }
}

/// The successors of one definition: what its references name, all of them
/// and those by value.
fn successors(names: &Vec<Name>, uses: &Vec<(&Name, bool)>) -> (r: (Vec<usize>, Vec<usize>))
    ensures
        forall|k: int| 0 <= k < r.0@.len() ==> (#[trigger] r.0@[k]) < names@.len(),
        forall|k: int| 0 <= k < r.1@.len() ==> (#[trigger] r.1@[k]) < names@.len(),
        forall|b: int|
            listed(r.0@, b) <==> #[trigger] refers_to(
                views(names@),
                uses_of(uses@),
                uses@.len(),
                b,
                false,
            ),
        forall|b: int|
            listed(r.1@, b) <==> #[trigger] refers_to(views(names@), uses_of(uses@), uses@.len(), b, true),
{
    let mut all: Vec<usize> = Vec::new();
    let mut held: Vec<usize> = Vec::new();
    let mut i: usize = 0;
    while i < uses.len()
        invariant
            i <= uses.len(),
            forall|k: int| 0 <= k < all@.len() ==> (#[trigger] all@[k]) < names@.len(),
            forall|k: int| 0 <= k < held@.len() ==> (#[trigger] held@[k]) < names@.len(),
            forall|b: int|
                listed(all@, b) <==> #[trigger] refers_to(views(names@), uses_of(uses@), i as nat, b, false),
            forall|b: int|
                listed(held@, b) <==> #[trigger] refers_to(views(names@), uses_of(uses@), i as nat, b, true),
        decreases uses.len() - i,
    {
        let ghost all0 = all@;
        let ghost held0 = held@;
        let ghost next = (i + 1) as nat;
        let found = find_named(names, uses[i].0);
        proof {
            assert(uses_of(uses@)[i as int] == (uses@[i as int].0@, uses@[i as int].1));
            lemma_named_from(views(names@), uses@[i as int].0@, 0);
        }
        match found {
            None => {},
            Some(j) => {
                all.push(j);
                if uses[i].1 {
                    held.push(j);
                }
            },
        }
        proof {
            let all_uses = uses_of(uses@);
            let hit = named_from(views(names@), all_uses[i as int].0, 0);
            if found is Some {
                assert(all@.drop_last() =~= all0);
                assert(all@.last() == found->0);
                if uses@[i as int].1 {
                    assert(held@.drop_last() =~= held0);
                    assert(held@.last() == found->0);
                }
            }
            assert forall|b: int| listed(all@, b) <==> #[trigger] refers_to(
                views(names@),
                all_uses,
                next,
                b,
                false,
            ) by {
                lemma_pushed(all0, all@, b);
                assert(refers_to(views(names@), all_uses, next, b, false) == (refers_to(
                    views(names@),
                    all_uses,
                    i as nat,
                    b,
                    false,
                ) || hit == Some(b)));
            }
            assert forall|b: int| listed(held@, b) <==> #[trigger] refers_to(
                views(names@),
                all_uses,
                next,
                b,
                true,
            ) by {
                lemma_pushed(held0, held@, b);
                assert(refers_to(views(names@), all_uses, next, b, true) == (refers_to(
                    views(names@),
                    all_uses,
                    i as nat,
                    b,
                    true,
                ) || (hit == Some(b) && all_uses[i as int].1)));
            }
        }
        i = i + 1;
    }
    (all, held)
}

/// What a list holds after at most one push.
proof fn lemma_pushed(before: Seq<usize>, after: Seq<usize>, x: int)
    requires
        after == before || (after.len() == before.len() + 1 && after.drop_last() =~= before),
    ensures
        after == before ==> (listed(after, x) <==> listed(before, x)),
        after != before ==> (listed(after, x) <==> listed(before, x) || after.last() == x),
{
    if after != before {
        if listed(before, x) {
            let w = choose|w: int| 0 <= w < before.len() && #[trigger] before[w] == x;
            assert(after.drop_last()[w] == after[w]);
            assert(after[w] == x);
        }
        if listed(after, x) {
            let w = choose|w: int| 0 <= w < after.len() && #[trigger] after[w] == x;
            if w < before.len() {
                assert(after.drop_last()[w] == after[w]);
                assert(before[w] == x);
            }
        }
        if after.last() == x {
            assert(after[after.len() - 1] == x);
        }
    }
}

/// Why a module could not be flattened.
#[derive(Debug, PartialEq)]
pub enum FlattenError {
    /// Definitions hold each other by value in a circle, which no forward
    /// declaration can break; the name is that of one of them.
    Cycle(String),
}

/// The definition at a spot.
fn local_ref<'a>(modules: &'a Vec<loader::Module>, s: Spot) -> (l: &'a Local)
    requires
        is_spot(modules@, s),
    ensures
        *l == local_at(modules@, s),
{
    match &modules[s.0] {
        loader::Module::ZZ(tree) => &tree.locals[s.1],
        loader::Module::C { .. } => vstd::pervasive::unreached(),
    }
}

/// The successor lists of every definition: what it refers to, and what it
/// refers to by value.
fn build_graph(modules: &Vec<loader::Module>, nodes: &Vec<Spot>, names: &Vec<Name>) -> (r: (
    Vec<Vec<usize>>,
    Vec<Vec<usize>>,
))
    requires
        nodes@ == table(modules@),
        views(names@) == table_names(modules@),
        names@.len() == nodes@.len(),
        forall|k: int| 0 <= k < nodes@.len() ==> is_spot(modules@, #[trigger] nodes@[k]),
    ensures
        r.0@.len() == nodes@.len(),
        r.1@.len() == nodes@.len(),
        graph_wf(r.0@),
        graph_wf(r.1@),
        stands_for(r.0@, needs(modules@, false)),
        stands_for(r.1@, needs(modules@, true)),
{
    let mut all: Vec<Vec<usize>> = Vec::new();
    let mut held: Vec<Vec<usize>> = Vec::new();
    let mut a: usize = 0;
    while a < nodes.len()
        invariant
            a <= nodes.len(),
            nodes@ == table(modules@),
            views(names@) == table_names(modules@),
            names@.len() == nodes@.len(),
            forall|k: int| 0 <= k < nodes@.len() ==> is_spot(modules@, #[trigger] nodes@[k]),
            all@.len() == a,
            held@.len() == a,
            forall|i: int, k: int|
                0 <= i < a && 0 <= k < all@[i]@.len() ==> (#[trigger] all@[i]@[k]) < nodes@.len(),
            forall|i: int, k: int|
                0 <= i < a && 0 <= k < held@[i]@.len() ==> (#[trigger] held@[i]@[k]) < nodes@.len(),
            forall|i: int, b: int|
                0 <= i < a ==> (listed(all@[i]@, b) <==> #[trigger] refers(modules@, i, b, false)),
            forall|i: int, b: int|
                0 <= i < a ==> (listed(held@[i]@, b) <==> #[trigger] refers(modules@, i, b, true)),
        decreases nodes.len() - a,
    {
        let local = local_ref(modules, nodes[a]);
        let uses = collect_def(&local.def);
        let (x, y) = successors(names, &uses);
        let ghost all0 = all@;
        let ghost held0 = held@;
        all.push(x);
        held.push(y);
        proof {
            assert forall|i: int, b: int| 0 <= i < a + 1 implies (listed(all@[i]@, b)
                <==> #[trigger] refers(modules@, i, b, false)) by {
                if i < a {
                    assert(all@[i] == all0[i]);
                }
            }
            assert forall|i: int, b: int| 0 <= i < a + 1 implies (listed(held@[i]@, b)
                <==> #[trigger] refers(modules@, i, b, true)) by {
                if i < a {
                    assert(held@[i] == held0[i]);
                }
            }
            assert forall|i: int, k: int| 0 <= i < a + 1 && 0 <= k < all@[i]@.len() implies (
            #[trigger] all@[i]@[k]) < nodes@.len() by {
                if i < a {
                    assert(all@[i] == all0[i]);
                }
            }
            assert forall|i: int, k: int| 0 <= i < a + 1 && 0 <= k < held@[i]@.len() implies (
            #[trigger] held@[i]@[k]) < nodes@.len() by {
                if i < a {
                    assert(held@[i] == held0[i]);
                }
            }
        }
        a = a + 1;
    }
    proof {
        assert forall|i: int, b: int| 0 <= i < all@.len() implies (#[trigger] arc(all@, i, b) <==> needs(
            modules@,
            false,
        )(i, b)) by {
            assert(listed(all@[i]@, b) <==> refers(modules@, i, b, false));
        }
        assert forall|i: int, b: int| 0 <= i < held@.len() implies (#[trigger] arc(held@, i, b)
            <==> needs(modules@, true)(i, b)) by {
            assert(listed(held@[i]@, b) <==> refers(modules@, i, b, true));
        }
    }
    (all, held)
}

/// The table positions of the definitions of the module at `module`.
fn own_roots(nodes: &Vec<Spot>, module: usize) -> (roots: Vec<usize>)
    ensures
        forall|q: int| 0 <= q < roots@.len() ==> (#[trigger] roots@[q]) < nodes@.len(),
        forall|a: int| 0 <= a < nodes@.len() ==> (is_root(roots@, a) <==> (#[trigger] nodes@[a]).0 == module),
{
    let mut roots: Vec<usize> = Vec::new();
    let mut a: usize = 0;
    while a < nodes.len()
        invariant
            a <= nodes.len(),
            forall|q: int| 0 <= q < roots@.len() ==> (#[trigger] roots@[q]) < a,
            forall|i: int| 0 <= i < a ==> (is_root(roots@, i) <==> (#[trigger] nodes@[i]).0 == module),
        decreases nodes.len() - a,
    {
        let ghost before = roots@;
        if nodes[a].0 == module {
            roots.push(a);
        }
        proof {
            assert forall|i: int| 0 <= i < a + 1 implies (is_root(roots@, i) <==> (
            #[trigger] nodes@[i]).0 == module) by {
                if is_root(before, i) {
                    let q = choose|q: int| 0 <= q < before.len() && #[trigger] before[q] == i;
                    assert(roots@[q] == i);
                }
                if is_root(roots@, i) {
                    let q = choose|q: int| 0 <= q < roots@.len() && #[trigger] roots@[q] == i;
                    if q < before.len() {
                        assert(before[q] == i);
                    }
                }
                if i == a && nodes@[i].0 == module {
                    assert(roots@[roots@.len() - 1] == i);
                }
            }
        }
        a = a + 1;
    }
    proof {
        assert forall|i: int| 0 <= i < nodes@.len() implies (is_root(roots@, i) <==> (
        #[trigger] nodes@[i]).0 == module) by {}
    }
    roots
}

/// Whether an entry stands for the definition at its table position, under
/// that definition's absolute name written with `::`.
pub open spec fn entry_ok(modules: Seq<loader::Module>, f: Flat) -> bool {
    f.node < table(modules).len() && *f.local == local_at(modules, table(modules)[f.node as int])
        && f.name@ == join(table_names(modules)[f.node as int], path_sep())
}

/// The table positions of the first half of the entries.
pub open spec fn forward_part(d: Seq<Flat>) -> Seq<usize> {
    Seq::new((d.len() / 2) as nat, |w: int| d[w].node)
}

/// The table positions of the second half of the entries.
pub open spec fn complete_part(d: Seq<Flat>) -> Seq<usize> {
    Seq::new((d.len() / 2) as nat, |w: int| d[d.len() / 2 + w].node)
}

/// Whether the module at `m` has a part in the flattened module: it is the
/// module itself, or one of its definitions is needed.
pub open spec fn gives(modules: Seq<loader::Module>, module: usize, m: int) -> bool {
    m == module || exists|a: int|
        0 <= a < table(modules).len() && wanted(modules, module)(a) && (#[trigger] table(modules)[a]).0
            == m
}

/// The source files that the flattened module was made from: those of every
/// one of the first `n` modules that has a part in it, in the order of the
/// modules.
pub open spec fn sources_from(modules: Seq<loader::Module>, module: usize, n: nat) -> Seq<Seq<char>>
    decreases n,
{
    if n == 0 || n > modules.len() {
        Seq::empty()
    } else {
        sources_from(modules, module, (n - 1) as nat) + (if gives(modules, module, n - 1) {
            match modules[n - 1] {
                loader::Module::ZZ(tree) => strs(tree.sources@),
                loader::Module::C { path, .. } => seq![path@],
            }
        } else {
            Seq::empty()
        })
    }
}

/// The relation that relates nothing: a forward declaration waits for no
/// other.
pub open spec fn unrelated() -> spec_fn(int, int) -> bool {
    |a: int, b: int| false
}

/// What `flatten` promises of its result for the module at `module`.
///
/// Its sources are those of every module that has a part in it, so that a
/// change to any of them is a change to it.
///
/// The entries come in two halves of equal length. The first half holds a
/// forward declaration of every definition that the module needs, in the order
/// of their names. The second half holds the same definitions as wholes, each
/// once and after every definition that it refers to by value; where several
/// could stand at a place, the one whose name comes first stands there.
pub open spec fn flattened(modules: Seq<loader::Module>, module: usize, flat: Module) -> bool {
    let c = flat.d@.len() / 2;
    let n = table(modules).len() as int;
    &&& flat.name@ == modules[module as int]->ZZ_0.name@
    &&& *flat.aliases == modules[module as int]->ZZ_0.aliases
    &&& strs(flat.sources@) == sources_from(modules, module, modules.len())
    &&& flat.typevariants@.len() == 0
    &&& flat.d@.len() == 2 * c
    &&& forall|k: int| 0 <= k < flat.d@.len() ==> entry_ok(modules, #[trigger] flat.d@[k])
    &&& forall|k: int|
        0 <= k < flat.d@.len() ==> ((#[trigger] flat.d@[k]).complete == TypeComplete::Complete <==> k
            >= c)
    &&& ordered_by(unrelated(), wanted(modules, module), n, forward_part(flat.d@))
    &&& first_come_by(
        unrelated(),
        wanted(modules, module),
        n,
        table_names(modules),
        forward_part(flat.d@),
    )
    &&& ordered_by(needs(modules, true), wanted(modules, module), n, complete_part(flat.d@))
    &&& first_come_by(
        needs(modules, true),
        wanted(modules, module),
        n,
        table_names(modules),
        complete_part(flat.d@),
    )
}

/// Adds an entry for each definition of `order`, as a whole or as a forward
/// declaration.
fn push_entries<'a>(
    d: &mut Vec<Flat<'a>>,
    modules: &'a Vec<loader::Module>,
    nodes: &Vec<Spot>,
    names: &Vec<Name>,
    order: &Vec<usize>,
    complete: TypeComplete,
)
    requires
        nodes@ == table(modules@),
        views(names@) == table_names(modules@),
        names@.len() == nodes@.len(),
        forall|k: int| 0 <= k < nodes@.len() ==> is_spot(modules@, #[trigger] nodes@[k]),
        forall|w: int| 0 <= w < order@.len() ==> (#[trigger] order@[w]) < nodes@.len(),
    ensures
        final(d)@.len() == old(d)@.len() + order@.len(),
        forall|k: int| 0 <= k < old(d)@.len() ==> final(d)@[k] == old(d)@[k],
        forall|w: int|
            0 <= w < order@.len() ==> entry_ok(modules@, #[trigger] final(d)@[old(d)@.len() + w]),
        forall|w: int| 0 <= w < order@.len() ==> (#[trigger] final(d)@[old(d)@.len() + w]).node == order@[w],
        forall|w: int|
            0 <= w < order@.len() ==> (#[trigger] final(d)@[old(d)@.len() + w]).complete == complete,
{
    let ghost first = d@;
    let mut w: usize = 0;
    while w < order.len()
        invariant
            w <= order.len(),
            nodes@ == table(modules@),
            views(names@) == table_names(modules@),
            names@.len() == nodes@.len(),
            forall|k: int| 0 <= k < nodes@.len() ==> is_spot(modules@, #[trigger] nodes@[k]),
            forall|v: int| 0 <= v < order@.len() ==> (#[trigger] order@[v]) < nodes@.len(),
            d@.len() == first.len() + w,
            forall|k: int| 0 <= k < first.len() ==> d@[k] == first[k],
            forall|v: int|
                0 <= v < w ==> entry_ok(modules@, #[trigger] d@[first.len() + v]) && d@[first.len() + v].node
                    == order@[v] && d@[first.len() + v].complete == complete,
        decreases order.len() - w,
    {
        let x = order[w];
        proof {
            assert(views(names@)[x as int] == names@[x as int]@);
        }
        d.push(Flat { name: names[x].to_string(), local: local_ref(modules, nodes[x]), complete, node: x });
        w = w + 1;
    }
}

/// Two lists without repetition that hold the same nodes are equally long.
proof fn lemma_same_length(a: Seq<usize>, b: Seq<usize>)
    requires
        a.no_duplicates(),
        b.no_duplicates(),
        forall|x: usize| a.contains(x) <==> b.contains(x),
    ensures
        a.len() == b.len(),
{
    a.unique_seq_to_set();
    b.unique_seq_to_set();
    assert(a.to_set() =~= b.to_set());
}

/// Two orders of the same members are equally long.
proof fn lemma_halves(
    r: spec_fn(int, int) -> bool,
    q: spec_fn(int, int) -> bool,
    member: spec_fn(int) -> bool,
    n: int,
    forward: Seq<usize>,
    order: Seq<usize>,
)
    requires
        ordered_by(r, member, n, forward),
        ordered_by(q, member, n, order),
    ensures
        forward.len() == order.len(),
{
    assert forall|x: usize| forward.contains(x) <==> order.contains(x) by {
        if forward.contains(x) {
            let k = choose|k: int| 0 <= k < forward.len() && forward[k] == x;
            assert(member(forward[k] as int));
            assert(placed_in(order, x as int));
            let w = choose|w: int| 0 <= w < order.len() && #[trigger] order[w] == x as int;
            assert(order[w] == x);
        }
        if order.contains(x) {
            let k = choose|k: int| 0 <= k < order.len() && order[k] == x;
            assert(member(order[k] as int));
            assert(placed_in(forward, x as int));
            let w = choose|w: int| 0 <= w < forward.len() && #[trigger] forward[w] == x as int;
            assert(forward[w] == x);
        }
    }
    assert(forward.no_duplicates()) by {
        assert forall|i: int, j: int|
            0 <= i < forward.len() && 0 <= j < forward.len() && i != j implies forward[i] != forward[j] by {
            if i < j {
                assert(forward[i] != forward[j]);
            } else {
                assert(forward[j] != forward[i]);
            }
        }
    }
    assert(order.no_duplicates()) by {
        assert forall|i: int, j: int| 0 <= i < order.len() && 0 <= j < order.len() && i != j implies order[i]
            != order[j] by {
            if i < j {
                assert(order[i] != order[j]);
            } else {
                assert(order[j] != order[i]);
            }
        }
    }
    lemma_same_length(forward, order);
}

/// The source files of every module that has a part in the flattened module;
/// see [`sources_from`].
fn gather_sources(modules: &Vec<loader::Module>, nodes: &Vec<Spot>, marks: &Vec<bool>, module: usize) -> (out:
    Vec<String>)
    requires
        nodes@ == table(modules@),
        marks@.len() == nodes@.len(),
        forall|a: int| 0 <= a < nodes@.len() ==> (marks@[a] <==> #[trigger] wanted(modules@, module)(a)),
    ensures
        strs(out@) == sources_from(modules@, module, modules@.len()),
{
    let mut out: Vec<String> = Vec::new();
    let mut m: usize = 0;
    proof {
        assert(strs(out@) =~= sources_from(modules@, module, 0));
    }
    while m < modules.len()
        invariant
            m <= modules.len(),
            nodes@ == table(modules@),
            marks@.len() == nodes@.len(),
            forall|a: int|
                0 <= a < nodes@.len() ==> (marks@[a] <==> #[trigger] wanted(modules@, module)(a)),
            strs(out@) == sources_from(modules@, module, m as nat),
        decreases modules.len() - m,
    {
        let mut part = m == module;
        let mut a: usize = 0;
        while a < nodes.len() && !part
            invariant
                a <= nodes.len(),
                nodes@ == table(modules@),
                marks@.len() == nodes@.len(),
                forall|x: int|
                    0 <= x < nodes@.len() ==> (marks@[x] <==> #[trigger] wanted(modules@, module)(x)),
                part ==> gives(modules@, module, m as int),
                !part ==> m != module && forall|x: int|
                    0 <= x < a ==> !(wanted(modules@, module)(x) && (#[trigger] table(modules@)[x]).0 == m),
            decreases nodes.len() - a,
        {
            if marks[a] && nodes[a].0 == m {
                proof {
                    assert(wanted(modules@, module)(a as int));
                    assert(table(modules@)[a as int].0 == m);
                }
                part = true;
            }
            a = a + 1;
        }
        let ghost before = strs(out@);
        if part {
            match &modules[m] {
                loader::Module::ZZ(tree) => {
                    let mut k: usize = 0;
                    while k < tree.sources.len()
                        invariant
                            k <= tree.sources.len(),
                            strs(out@) == before + strs(tree.sources@).subrange(0, k as int),
                        decreases tree.sources.len() - k,
                    {
                        let ghost prev = strs(out@);
                        out.push(tree.sources[k].clone());
                        proof {
                            assert(strs(out@) =~= prev.push(tree.sources@[k as int]@));
                            assert(strs(tree.sources@).subrange(0, k + 1) =~= strs(
                                tree.sources@,
                            ).subrange(0, k as int).push(tree.sources@[k as int]@));
                            assert(strs(out@) =~= before + strs(tree.sources@).subrange(0, k + 1));
                        }
                        k = k + 1;
                    }
                    proof {
                        assert(strs(tree.sources@).subrange(0, tree.sources@.len() as int) =~= strs(
                            tree.sources@,
                        ));
                    }
                },
                loader::Module::C { path, .. } => {
                    out.push(path.clone());
                    proof {
                        assert(strs(out@) =~= before + seq![path@]);
                    }
                },
            }
        } else {
            proof {
                assert(strs(out@) =~= before + Seq::<Seq<char>>::empty());
            }
        }
        m = m + 1;
    }
    out
}

/// As many empty successor lists as there are nodes: the graph in which
/// nothing waits for anything.
fn no_arcs(n: usize) -> (succ: Vec<Vec<usize>>)
    ensures
        succ@.len() == n,
        graph_wf(succ@),
        stands_for(succ@, unrelated()),
        forall|a: int| 0 <= a < n ==> (#[trigger] succ@[a])@.len() == 0,
{
    let mut succ: Vec<Vec<usize>> = Vec::new();
    let mut i: usize = 0;
    while i < n
        invariant
            i <= n,
            succ@.len() == i,
            forall|a: int| 0 <= a < i ==> (#[trigger] succ@[a])@.len() == 0,
        decreases n - i,
    {
        succ.push(Vec::new());
        i = i + 1;
    }
    proof {
        assert forall|a: int, b: int| 0 <= a < succ@.len() implies (#[trigger] arc(succ@, a, b)
            <==> unrelated()(a, b)) by {
            assert(succ@[a]@.len() == 0);
        }
    }
    succ
}

/// The flattened view of the module at `module`: every definition that the
/// module needs, first as forward declarations and then as wholes, each whole
/// after every definition that it holds by value; see [`flattened`].
///
/// Fails iff definitions that the module needs hold each other by value in a
/// circle, and then names one of them.
pub fn flatten<'a>(module: usize, modules: &'a Vec<loader::Module>) -> (r: Result<
    Module<'a>,
    FlattenError,
>)
    requires
        module < modules@.len(),
        modules@[module as int] is ZZ,
    ensures
        r matches Ok(flat) ==> flattened(modules@, module, flat),
        r matches Err(e) ==> exists|s: Set<int>, a: int|
            #[trigger] knot_by(
                needs(modules@, true),
                wanted(modules@, module),
                table(modules@).len() as int,
                s,
            ) && #[trigger] s.contains(a) && 0 <= a < table(modules@).len() && e->Cycle_0@ == join(
                table_names(modules@)[a],
                path_sep(),
            ),
        r is Err <==> exists|s: Set<int>|
            knot_by(
                needs(modules@, true),
                wanted(modules@, module),
                table(modules@).len() as int,
                s,
            ),
{
    let (nodes, names) = node_table(modules);
    let (all, held) = build_graph(modules, &nodes, &names);
    let roots = own_roots(&nodes, module);
    let marks = reachable(&all, &roots);
    let ghost n = nodes@.len() as int;
    let ghost rel = needs(modules@, true);
    let ghost want = wanted(modules@, module);
    proof {
        assert forall|a: int| 0 <= a < all@.len() implies (is_root(roots@, a) <==> #[trigger] owned(
            modules@,
            module,
        )(a)) by {
            assert(nodes@[a] == table(modules@)[a]);
        }
        assert forall|a: int| 0 <= a < n implies (marks@[a] <==> #[trigger] want(a)) by {
            lemma_reached_by(all@, roots@, needs(modules@, false), owned(modules@, module), a);
        }
    }
    let free = no_arcs(nodes.len());
    let forward = match topo_order(&free, &marks, &names) {
        Ok(forward) => forward,
        Err(x) => {
            proof {
                let s = choose|s: Set<int>| #[trigger] knot(free@, marks@, s) && s.contains(x as int);
                assert(holds_in(s, x as int));
                assert(tied(free@, s, x as int));
            }
            vstd::pervasive::unreached()
        },
    };
    proof {
        lemma_ordered_by(free@, marks@, forward@, unrelated(), want);
        lemma_first_come_by(free@, marks@, views(names@), forward@, unrelated(), want);
    }
    match topo_order(&held, &marks, &names) {
        Err(x) => {
            proof {
                let s = choose|s: Set<int>| #[trigger] knot(held@, marks@, s) && s.contains(x as int);
                lemma_knot_to_relation(held@, marks@, rel, want, s);
                assert(holds_in(s, x as int));
                assert(views(names@)[x as int] == names@[x as int]@);
            }
            Err(FlattenError::Cycle(names[x].to_string()))
        },
        Ok(order) => {
            proof {
                lemma_ordered_by(held@, marks@, order@, rel, want);
                lemma_first_come_by(held@, marks@, views(names@), order@, rel, want);
                assert forall|s: Set<int>| !knot_by(rel, want, n, s) by {
                    if knot_by(rel, want, n, s) {
                        lemma_knot_from_relation(held@, marks@, rel, want, s);
                    }
                }
                lemma_halves(unrelated(), rel, want, n, forward@, order@);
            }
            let mut d: Vec<Flat<'a>> = Vec::new();
            push_entries(&mut d, modules, &nodes, &names, &forward, TypeComplete::Incomplete);
            let ghost half = d@;
            push_entries(&mut d, modules, &nodes, &names, &order, TypeComplete::Complete);
            proof {
                let c = order@.len() as int;
                assert(d@.len() / 2 == c);
                assert forall|k: int| 0 <= k < d@.len() implies entry_ok(modules@, #[trigger] d@[k]) && (
                d@[k].complete == TypeComplete::Complete <==> k >= c) && d@[k].node == (if k < c {
                    forward@[k]
                } else {
                    order@[k - c]
                }) by {
                    if k < c {
                        assert(d@[k] == half[k]);
                        assert(half[k] == half[0 + k]);
                    } else {
                        assert(d@[k] == d@[c + (k - c)]);
                    }
                }
                assert(forward_part(d@) =~= forward@);
                assert(complete_part(d@) =~= order@);
            }
            let tree = match &modules[module] {
                loader::Module::ZZ(tree) => tree,
                loader::Module::C { .. } => vstd::pervasive::unreached(),
            };
            Ok(
                Module {
                    name: tree.name.clone(),
                    sources: gather_sources(modules, &nodes, &marks, module),
                    d,
                    aliases: &tree.aliases,
                    typevariants: Vec::new(),
                },
            )
        },
    }
}

/// A reference by value is a reference.
proof fn lemma_by_value_refers(names: Seq<Seq<Seq<char>>>, uses: Seq<Use>, n: nat, b: int)
    requires
        refers_to(names, uses, n, b, true),
    ensures
        refers_to(names, uses, n, b, false),
        0 <= b < names.len(),
    decreases n,
{
    if n == 0 || n > uses.len() {
    } else if refers_to(names, uses, (n - 1) as nat, b, true) {
        lemma_by_value_refers(names, uses, (n - 1) as nat, b);
    } else {
        lemma_named_from(names, uses[n - 1].0, 0);
    }
}

/// In a flattened module the whole of a definition stands after the whole of
/// every definition that it holds by value: a struct with a field of type `T`
/// by value stands after `T`.
pub proof fn lemma_value_types_first(
    modules: Seq<loader::Module>,
    module: usize,
    flat: Module,
    k: int,
    b: int,
)
    requires
        flattened(modules, module, flat),
        flat.d@.len() / 2 <= k < flat.d@.len(),
        refers(modules, flat.d@[k].node as int, b, true),
    ensures
        exists|j: int|
            flat.d@.len() / 2 <= j < k && (#[trigger] flat.d@[j]).node == b && flat.d@[j].complete
                == TypeComplete::Complete,
{
    let c = flat.d@.len() / 2;
    let n = table(modules).len() as int;
    let order = complete_part(flat.d@);
    let w = k - c;
    let a = flat.d@[k].node as int;
    assert(order[w] == a);
    lemma_by_value_refers(
        table_names(modules),
        def_uses(local_at(modules, table(modules)[a]).def),
        def_uses(local_at(modules, table(modules)[a]).def).len(),
        b,
    );
    assert(wanted(modules, module)(a));
    let p = choose|p: Seq<int>|
        is_chain(needs(modules, false), owned(modules, module), n, p) && #[trigger] p.last() == a;
    let q = p.push(b);
    assert forall|x: int| 0 <= x < q.len() - 1 implies 0 <= q[x] < n && needs(modules, false)(
        #[trigger] q[x],
        q[x + 1],
    ) by {
        if x < p.len() - 1 {
            assert(q[x] == p[x] && q[x + 1] == p[x + 1]);
        } else {
            assert(q[x] == a && q[x + 1] == b);
            assert(refers(modules, a, b, false));
        }
    }
    assert(is_chain(needs(modules, false), owned(modules, module), n, q) && q.last() == b);
    assert(wanted(modules, module)(b));
    assert(needs(modules, true)(order[w] as int, b));
    assert(placed_before(order, w, b));
    let v = choose|v: int| 0 <= v < w && v < order.len() && #[trigger] order[v] == b;
    assert(flat.d@[c + v].node == b);
}

/// A module has one flattened view only: two results for the same module set
/// list the same definitions in the same order, and mark the same ones as
/// wholes.
pub proof fn lemma_one_flattening(modules: Seq<loader::Module>, module: usize, one: Module, other: Module)
    requires
        flattened(modules, module, one),
        flattened(modules, module, other),
    ensures
        one.d@.len() == other.d@.len(),
        forall|k: int|
            0 <= k < one.d@.len() ==> (#[trigger] one.d@[k]).node == other.d@[k].node && one.d@[k].complete
                == other.d@[k].complete && one.d@[k].name@ == other.d@[k].name@ && *one.d@[k].local
                == *other.d@[k].local,
{
    let n = table(modules).len() as int;
    let want = wanted(modules, module);
    let keys = table_names(modules);
    lemma_one_order(unrelated(), want, n, keys, forward_part(one.d@), forward_part(other.d@));
    lemma_one_order(needs(modules, true), want, n, keys, complete_part(one.d@), complete_part(other.d@));
    let c = one.d@.len() / 2;
    assert(forward_part(one.d@).len() == forward_part(other.d@).len());
    assert forall|k: int| 0 <= k < one.d@.len() implies (#[trigger] one.d@[k]).node == other.d@[k].node by {
        if k < c {
            assert(forward_part(one.d@)[k] == forward_part(other.d@)[k]);
        } else {
            assert(complete_part(one.d@)[k - c] == complete_part(other.d@)[k - c]);
        }
    }
    assert forall|k: int| 0 <= k < one.d@.len() implies one.d@[k].complete == other.d@[k].complete && (
    #[trigger] one.d@[k]).name@ == other.d@[k].name@ && *one.d@[k].local == *other.d@[k].local by {
        assert(entry_ok(modules, one.d@[k]));
        assert(entry_ok(modules, other.d@[k]));
        assert(one.d@[k].node == other.d@[k].node);
    }
}

} // verus!
