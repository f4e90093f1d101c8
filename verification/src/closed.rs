//! Whether a flattened module is closed: every definition that it refers to
//! is among its entries, and no macro call-site is left in it.

use vstd::prelude::*;
use vstd::string::*;
use crate::assoc::str_eq;
use crate::expand::{def_sites, list_def, trees};
use crate::flatten::Module;
use crate::name::{views, Name};
use crate::resolver::same_prefix;
use crate::text::{join, path_sep, strs};
use crate::uses::{collect_def, def_uses, uses_of};

verus! {

/// Whether the name `n` stands for a definition that a flattened module has to
/// hold: it names a symbol of a module, which is neither foreign code under
/// `::ext` nor one of the C headers `headers`. Variables and arguments, whose
/// names have two segments, need none.
pub open spec fn needs_definition(headers: Seq<Seq<Seq<char>>>, n: Seq<Seq<char>>) -> bool {
    n.len() >= 3 && n[0].len() == 0 && n[1] != "ext"@ && !headers.contains(n.drop_last())
}

/// Whether the flattened module holds an entry for the name `n`.
pub open spec fn declares(flat: Module, n: Seq<Seq<char>>) -> bool {
    exists|k: int| 0 <= k < flat.d@.len() && (#[trigger] flat.d@[k]).name@ == join(n, path_sep())
}

/// Whether entry `k` is closed: it holds no macro call-site, and every
/// definition that it refers to has an entry.
pub open spec fn entry_closed(headers: Seq<Seq<Seq<char>>>, flat: Module, k: int) -> bool {
    def_sites(flat.d@[k].local.def).len() == 0 && forall|j: int|
        0 <= j < def_uses(flat.d@[k].local.def).len() && needs_definition(
            headers,
            (#[trigger] def_uses(flat.d@[k].local.def)[j]).0,
        ) ==> declares(flat, def_uses(flat.d@[k].local.def)[j].0)
}

/// Whether a flattened module is closed: every call has a definition to go
/// to, every type a definition to be laid out by, and no macro is left to
/// expand.
pub open spec fn closed(headers: Seq<Seq<Seq<char>>>, flat: Module) -> bool {
    forall|k: int| 0 <= k < flat.d@.len() ==> entry_closed(headers, flat, k)
}

fn is_header(headers: &Vec<Name>, n: &Name) -> (b: bool)
    requires
        n@.len() >= 1,
    ensures
        b == views(headers@).contains(n@.drop_last()),
{
    let len = n.0.len() - 1;
    proof {
        assert(n@.drop_last() == strs(n.0@).subrange(0, len as int));
    }
    let mut i: usize = 0;
    while i < headers.len()
        invariant
            i <= headers.len(),
            len == n.0.len() - 1,
            n@.drop_last() == strs(n.0@).subrange(0, len as int),
            forall|k: int| 0 <= k < i ==> views(headers@)[k] != n@.drop_last(),
        decreases headers.len() - i,
    {
        if same_prefix(&headers[i].0, &n.0, len) {
            proof {
                assert(views(headers@)[i as int] == n@.drop_last());
            }
            return true;
        }
        i = i + 1;
    }
    false
}

fn needs(headers: &Vec<Name>, n: &Name) -> (b: bool)
    ensures
        b == needs_definition(views(headers@), n@),
{
    if n.0.len() < 3 || n.0[0].unicode_len() != 0 || str_eq(n.0[1].as_str(), "ext") {
        return false;
    }
    !is_header(headers, n)
}

fn is_declared(flat: &Module, n: &Name) -> (b: bool)
    ensures
        b == declares(*flat, n@),
{
    let text = n.to_string();
    let mut k: usize = 0;
    while k < flat.d.len()
        invariant
            k <= flat.d.len(),
            text@ == join(n@, path_sep()),
            forall|x: int| 0 <= x < k ==> (#[trigger] flat.d@[x]).name@ != text@,
        decreases flat.d.len() - k,
    {
        if str_eq(flat.d[k].name.as_str(), text.as_str()) {
            return true;
        }
        k = k + 1;
    }
    false
}

/// Whether a flattened module is closed, given the names of the C headers
/// among the modules; see [`closed`]. Only a closed module is emitted.
pub fn is_closed(flat: &Module, headers: &Vec<Name>) -> (b: bool)
    ensures
        b == closed(views(headers@), *flat),
{
    let mut k: usize = 0;
    while k < flat.d.len()
        invariant
            k <= flat.d.len(),
            forall|x: int| 0 <= x < k ==> entry_closed(views(headers@), *flat, x),
        decreases flat.d.len() - k,
    {
        let def = &flat.d[k].local.def;
        let mut sites: Vec<&crate::ast::Expression> = Vec::new();
        list_def(def, &mut sites);
        proof {
            assert(trees(sites@).len() == def_sites(*def).len());
        }
        if sites.len() > 0 {
            proof {
                assert(!entry_closed(views(headers@), *flat, k as int));
            }
            return false;
        }
        let uses = collect_def(def);
        let mut j: usize = 0;
        while j < uses.len()
            invariant
                j <= uses.len(),
                k < flat.d.len(),
                uses_of(uses@) == def_uses(flat.d@[k as int].local.def),
                forall|y: int|
                    0 <= y < j && needs_definition(
                        views(headers@),
                        (#[trigger] def_uses(flat.d@[k as int].local.def)[y]).0,
                    ) ==> declares(*flat, def_uses(flat.d@[k as int].local.def)[y].0),
            decreases uses.len() - j,
        {
            let n = uses[j].0;
            proof {
                assert(uses_of(uses@)[j as int].0 == n@);
            }
            if needs(headers, n) && !is_declared(flat, n) {
                proof {
                    assert(!entry_closed(views(headers@), *flat, k as int));
                }
                return false;
            }
            j = j + 1;
        }
        proof {
            assert(uses_of(uses@).len() == uses@.len());
        }
        k = k + 1;
    }
    true
}

} // verus!
