//! The alias table of a module: for every name of another module that its
//! definitions use, the identifier under which the module's emitted files
//! refer to it.

use vstd::prelude::*;
use vstd::string::*;
use crate::ast::Local;
use crate::name::{is_absolute_name, views, Name};
use crate::order::{
    lemma_name_irreflexive, lemma_name_total, lemma_name_transitive, name_less, precedes, same_from,
};
use crate::resolver::same_prefix;
use crate::text::{decimal, push_decimal, strs};
use crate::uses::{collect_def, def_uses, uses_of, Use};

verus! {

/// Whether `n` names something outside the module `this`: it is absolute, has
/// a module and a symbol part, and its module is not `this`.
pub open spec fn is_external(this: Seq<Seq<char>>, n: Seq<Seq<char>>) -> bool {
    n.len() >= 3 && is_absolute_name(n) && n.drop_last() != this
}

/// What the first `n` definitions refer to, in order.
pub open spec fn all_uses(locals: Seq<Local>, n: nat) -> Seq<Use>
    decreases n,
{
    if n == 0 || n > locals.len() {
        Seq::empty()
    } else {
        all_uses(locals, (n - 1) as nat) + def_uses(locals[n - 1].def)
    }
}

/// Whether one of the first `n` references is to the name `m`.
pub open spec fn used_among(uses: Seq<Use>, n: int, m: Seq<Seq<char>>) -> bool {
    exists|j: int| 0 <= j < n && j < uses.len() && (#[trigger] uses[j]).0 == m
}

/// Whether the names stand in their order, none twice.
pub open spec fn increasing(names: Seq<Seq<Seq<char>>>) -> bool {
    forall|k: int, l: int| 0 <= k < l < names.len() ==> name_less(#[trigger] names[k], #[trigger] names[l])
}

/// Whether `names` lists, in order and each once, exactly the outside names
/// among the first `n` references.
pub open spec fn names_ok(this: Seq<Seq<char>>, uses: Seq<Use>, n: int, names: Seq<Seq<Seq<char>>>) -> bool {
    &&& increasing(names)
    &&& forall|k: int|
        0 <= k < names.len() ==> is_external(this, #[trigger] names[k]) && used_among(uses, n, names[k])
    &&& forall|j: int|
        0 <= j < n && j < uses.len() && is_external(this, (#[trigger] uses[j]).0) ==> names.contains(
            uses[j].0,
        )
}

/// How many of the first `n` names end in the same segment as name `k`.
pub open spec fn same_last(names: Seq<Seq<Seq<char>>>, k: int, n: nat) -> nat
    decreases n,
{
    if n == 0 || n > names.len() {
        0
    } else {
        same_last(names, k, (n - 1) as nat) + (if names[n - 1].last() == names[k].last() {
            1nat
        } else {
            0nat
        })
    }
}

/// The alias of name `k`: its last segment; where earlier names end in the
/// same segment, followed by `_` and their number.
pub open spec fn alias_text(names: Seq<Seq<Seq<char>>>, k: int) -> Seq<char> {
    let c = same_last(names, k, k as nat);
    if c == 0 {
        names[k].last()
    } else {
        names[k].last() + "_"@ + decimal(c)
    }
}

/// The names of an alias table.
pub open spec fn aliased(table: Seq<(Seq<Seq<char>>, Seq<char>)>) -> Seq<Seq<Seq<char>>> {
    Seq::new(table.len(), |k: int| table[k].0)
}

/// Whether `table` is the alias table of the module `this` with the
/// definitions `locals`: it lists every outside name that they use, in the
/// order of the names and each once, with its alias.
pub open spec fn aliases_ok(
    this: Seq<Seq<char>>,
    locals: Seq<Local>,
    table: Seq<(Seq<Seq<char>>, Seq<char>)>,
) -> bool {
    &&& names_ok(
        this,
        all_uses(locals, locals.len()),
        all_uses(locals, locals.len()).len() as int,
        aliased(table),
    )
    &&& forall|k: int| 0 <= k < table.len() ==> (#[trigger] table[k]).1 == alias_text(aliased(table), k)
}

/// Whether `n` names something outside the module `this`.
pub fn external(this: &Name, n: &Name) -> (r: bool)
    ensures
        r == is_external(this@, n@),
{
    let len = n.0.len();
    if len < 3 || !n.is_absolute() {
        return false;
    }
    proof {
        assert(n@.drop_last() == strs(n.0@).subrange(0, len - 1));
    }
    !same_prefix(&this.0, &n.0, len - 1)
}

/// Puts `n` at its place among the names, unless it is there.
fn insert_name(names: &mut Vec<Name>, n: &Name)
    requires
        increasing(views(old(names)@)),
    ensures
        increasing(views(final(names)@)),
        forall|m: Seq<Seq<char>>|
            views(final(names)@).contains(m) <==> (m == n@ || views(old(names)@).contains(m)),
{
    let ghost before = views(names@);
    let mut p: usize = 0;
    let mut go = true;
    while go && p < names.len()
        invariant
            p <= names.len(),
            names@ == old(names)@,
            before == views(names@),
            forall|j: int| 0 <= j < p ==> name_less(#[trigger] before[j], n@),
            !go ==> p < names.len() && !name_less(before[p as int], n@),
        decreases names.len() - p + (if go {
            1int
        } else {
            0int
        }),
    {
        proof {
            assert(before[p as int] == names@[p as int]@);
        }
        if precedes(&names[p], n) {
            p = p + 1;
        } else {
            go = false;
        }
    }
    if p < names.len() && names[p] == *n {
        proof {
            assert(before[p as int] == n@);
            assert(before.contains(n@));
        }
        return ;
    }
    names.insert(p, n.clone());
    proof {
        let after = views(names@);
        assert(after.len() == before.len() + 1);
        assert(after[p as int] == n@);
        assert forall|j: int| 0 <= j < after.len() && j != p implies #[trigger] after[j] == before[if j < p {
            j
        } else {
            j - 1
        }] by {}
        if p < before.len() {
            assert(before[p as int] == old(names)@[p as int]@);
            lemma_name_total(n@, before[p as int], 0);
            if same_from(n@, before[p as int], 0) {
                assert(n@ =~= before[p as int]);
            }
        }
        assert forall|k: int, l: int| 0 <= k < l < after.len() implies name_less(
            #[trigger] after[k],
            #[trigger] after[l],
        ) by {
            let bk = if k < p {
                k
            } else {
                k - 1
            };
            let bl = if l < p {
                l
            } else {
                l - 1
            };
            if k == p {
                assert(after[l] == before[bl]);
                if bl > p {
                    assert(name_less(before[p as int], before[bl]));
                    lemma_name_transitive(n@, before[p as int], before[bl], 0);
                }
            } else if l == p {
                assert(after[k] == before[bk]);
            } else {
                assert(after[k] == before[bk] && after[l] == before[bl]);
                assert(name_less(before[bk], before[bl]));
            }
        }
        assert forall|m: Seq<Seq<char>>| after.contains(m) <==> (m == n@ || before.contains(m)) by {
            if after.contains(m) {
                let j = choose|j: int| 0 <= j < after.len() && after[j] == m;
                if j != p {
                    assert(after[j] == before[if j < p {
                        j
                    } else {
                        j - 1
                    }]);
                }
            }
            if before.contains(m) {
                let j = choose|j: int| 0 <= j < before.len() && before[j] == m;
                let a = if j < p {
                    j
                } else {
                    j + 1
                };
                assert(after[a] == before[j]);
            }
            if m == n@ {
                assert(after[p as int] == m);
            }
        }
    }
}

/// What the definitions refer to, in order.
fn gather<'a>(locals: &'a Vec<Local>) -> (all: Vec<(&'a Name, bool)>)
    ensures
        uses_of(all@) == all_uses(locals@, locals@.len()),
{
    let mut all: Vec<(&'a Name, bool)> = Vec::new();
    let mut i: usize = 0;
    proof {
        assert(uses_of(all@) =~= all_uses(locals@, 0));
    }
    while i < locals.len()
        invariant
            i <= locals.len(),
            uses_of(all@) == all_uses(locals@, i as nat),
        decreases locals.len() - i,
    {
        let part = collect_def(&locals[i].def);
        let ghost before = uses_of(all@);
        let mut x: usize = 0;
        while x < part.len()
            invariant
                x <= part.len(),
                uses_of(all@) == before + uses_of(part@).subrange(0, x as int),
            decreases part.len() - x,
        {
            let ghost prev = uses_of(all@);
            all.push(part[x]);
            proof {
                assert(uses_of(all@) =~= prev.push((part@[x as int].0@, part@[x as int].1)));
                assert(uses_of(part@).subrange(0, x + 1) =~= uses_of(part@).subrange(0, x as int).push(
                    (part@[x as int].0@, part@[x as int].1),
                ));
                assert(uses_of(all@) =~= before + uses_of(part@).subrange(0, x + 1));
            }
            x = x + 1;
        }
        proof {
            assert(uses_of(part@).subrange(0, part@.len() as int) =~= uses_of(part@));
        }
        i = i + 1;
    }
    all
}

/// How many of the names before name `k` end in the same segment.
fn count_same_last(names: &Vec<Name>, k: usize) -> (c: usize)
    requires
        k < names.len(),
        forall|j: int| 0 <= j < names@.len() ==> (#[trigger] names@[j])@.len() > 0,
    ensures
        c == same_last(views(names@), k as int, k as nat),
        c <= k,
{
    let last = &names[k].0[names[k].0.len() - 1];
    let mut c: usize = 0;
    let mut j: usize = 0;
    while j < k
        invariant
            j <= k,
            k < names.len(),
            c <= j,
            forall|x: int| 0 <= x < names@.len() ==> (#[trigger] names@[x])@.len() > 0,
            last@ == views(names@)[k as int].last(),
            c == same_last(views(names@), k as int, j as nat),
        decreases k - j,
    {
        let other = &names[j].0[names[j].0.len() - 1];
        proof {
            assert(other@ == views(names@)[j as int].last());
        }
        if *other == *last {
            c = c + 1;
        }
        j = j + 1;
    }
    c
}

/// The alias table of the module `this` with the definitions `locals`; see
/// [`aliases_ok`].
pub fn alias_table(this: &Name, locals: &Vec<Local>) -> (table: Vec<(Name, String)>)
    ensures
        aliases_ok(this@, locals@, crate::abs::alias_views(table@)),
{
    let all = gather(locals);
    let ghost uses = uses_of(all@);
    let mut names: Vec<Name> = Vec::new();
    let mut j: usize = 0;
    while j < all.len()
        invariant
            j <= all.len(),
            uses == uses_of(all@),
            names_ok(this@, uses, j as int, views(names@)),
        decreases all.len() - j,
    {
        let ghost before = views(names@);
        let n = all[j].0;
        proof {
            assert(uses[j as int].0 == n@);
        }
        if external(this, n) {
            insert_name(&mut names, n);
        }
        proof {
            let after = views(names@);
            assert forall|k: int| 0 <= k < after.len() implies is_external(this@, #[trigger] after[k])
                && used_among(uses, j + 1, after[k]) by {
                assert(after.contains(after[k]));
                if before.contains(after[k]) {
                    let b = choose|b: int| 0 <= b < before.len() && before[b] == after[k];
                    assert(used_among(uses, j as int, before[b]));
                    let w = choose|w: int| 0 <= w < j && w < uses.len() && (#[trigger] uses[w]).0 == before[b];
                    assert(uses[w].0 == after[k]);
                } else {
                    assert(uses[j as int].0 == after[k]);
                }
            }
            assert forall|w: int|
                0 <= w < j + 1 && w < uses.len() && is_external(this@, (#[trigger] uses[w]).0) implies after.contains(
                uses[w].0,
            ) by {
                if w < j {
                    assert(before.contains(uses[w].0));
                }
            }
        }
        j = j + 1;
    }
    proof {
        assert forall|x: int| 0 <= x < names@.len() implies (#[trigger] names@[x])@.len() > 0 by {
            assert(is_external(this@, views(names@)[x]));
        }
    }
    let mut table: Vec<(Name, String)> = Vec::new();
    let mut k: usize = 0;
    while k < names.len()
        invariant
            k <= names.len(),
            table@.len() == k,
            forall|x: int| 0 <= x < names@.len() ==> (#[trigger] names@[x])@.len() > 0,
            forall|x: int| 0 <= x < k ==> (#[trigger] table@[x]).0@ == names@[x]@,
            forall|x: int| 0 <= x < k ==> (#[trigger] table@[x]).1@ == alias_text(views(names@), x),
        decreases names.len() - k,
    {
        let c = count_same_last(&names, k);
        let mut text = names[k].0[names[k].0.len() - 1].clone();
        proof {
            assert(text@ == views(names@)[k as int].last());
        }
        if c > 0 {
            text.append("_");
            push_decimal(&mut text, c as u64);
        }
        table.push((names[k].clone(), text));
        k = k + 1;
    }
    proof {
        let t = crate::abs::alias_views(table@);
        assert(aliased(t) =~= views(names@));
        assert forall|x: int| 0 <= x < t.len() implies (#[trigger] t[x]).1 == alias_text(aliased(t), x) by {
            assert(table@[x].1@ == alias_text(views(names@), x));
        }
    }
    table
}

} // verus!
