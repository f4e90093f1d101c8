//! Directed graphs over the numbers `0..n`, given by the successors of each
//! node: what a set of roots reaches, and the order in which every node stands
//! after its successors and, among those that could stand at a place, the one
//! with the first name stands there.

use vstd::prelude::*;
use crate::name::{views, Name};
use crate::order::{earlier, lemma_earlier_is_an_order, precedes};

verus! {

/// A graph is well formed when every successor is a node.
pub open spec fn graph_wf(succ: Seq<Vec<usize>>) -> bool {
    forall|i: int, k: int|
        0 <= i < succ.len() && 0 <= k < succ[i]@.len() ==> (#[trigger] succ[i]@[k]) < succ.len()
}

/// Whether `b` is a successor of `a`.
pub open spec fn arc(succ: Seq<Vec<usize>>, a: int, b: int) -> bool {
    0 <= a < succ.len() && exists|k: int| 0 <= k < succ[a]@.len() && #[trigger] succ[a]@[k] == b
}

/// Whether `i` is one of the roots.
pub open spec fn is_root(roots: Seq<usize>, i: int) -> bool {
    exists|r: int| 0 <= r < roots.len() && #[trigger] roots[r] == i
}

/// Whether `p` is a walk along arcs that starts at one of the roots.
pub open spec fn is_walk(succ: Seq<Vec<usize>>, roots: Seq<usize>, p: Seq<int>) -> bool {
    p.len() >= 1 && is_root(roots, p[0]) && forall|k: int|
        0 <= k < p.len() - 1 ==> arc(succ, #[trigger] p[k], p[k + 1])
}

/// Whether a walk from one of the roots ends at `i`.
pub open spec fn reached(succ: Seq<Vec<usize>>, roots: Seq<usize>, i: int) -> bool {
    exists|p: Seq<int>| is_walk(succ, roots, p) && #[trigger] p.last() == i
}

/// Whether the successor `k` of node `i` is marked.
pub open spec fn successor_marked(succ: Seq<Vec<usize>>, marks: Seq<bool>, i: int, k: int) -> bool {
    marks[succ[i]@[k] as int]
}

/// Whether `marks` is closed: it marks every root, and every successor of a
/// marked node.
pub open spec fn closed_marks(succ: Seq<Vec<usize>>, roots: Seq<usize>, marks: Seq<bool>) -> bool {
    &&& marks.len() == succ.len()
    &&& forall|r: int| 0 <= r < roots.len() ==> marks[#[trigger] roots[r] as int]
    &&& forall|i: int, k: int|
        0 <= i < succ.len() && marks[i] && 0 <= k < succ[i]@.len() ==> #[trigger] successor_marked(
            succ,
            marks,
            i,
            k,
        )
}

/// In closed marks every node on a walk from a root is marked.
proof fn lemma_walk_marked(succ: Seq<Vec<usize>>, roots: Seq<usize>, marks: Seq<bool>, p: Seq<int>, k: int)
    requires
        graph_wf(succ),
        forall|r: int| 0 <= r < roots.len() ==> (#[trigger] roots[r]) < succ.len(),
        closed_marks(succ, roots, marks),
        is_walk(succ, roots, p),
        0 <= k < p.len(),
    ensures
        0 <= p[k] < succ.len(),
        marks[p[k]],
    decreases k,
{
    if k == 0 {
        let r = choose|r: int| 0 <= r < roots.len() && #[trigger] roots[r] == p[0];
        assert(marks[roots[r] as int]);
    } else {
        lemma_walk_marked(succ, roots, marks, p, k - 1);
        assert(arc(succ, p[k - 1], p[k]));
        let e = choose|e: int| 0 <= e < succ[p[k - 1]]@.len() && #[trigger] succ[p[k - 1]]@[e] == p[k];
        assert(successor_marked(succ, marks, p[k - 1], e));
    }
}

/// The number of unset entries.
pub open spec fn unset(marks: Seq<bool>) -> nat
    decreases marks.len(),
{
    if marks.len() == 0 {
        0
    } else {
        unset(marks.drop_last()) + (if marks.last() {
            0nat
        } else {
            1nat
        })
    }
}

proof fn lemma_unset_update(v: Seq<bool>, i: int)
    requires
        0 <= i < v.len(),
        !v[i],
    ensures
        unset(v.update(i, true)) + 1 == unset(v),
    decreases v.len(),
{
    let w = v.update(i, true);
    if i == v.len() - 1 {
        assert(w.drop_last() == v.drop_last());
    } else {
        assert(w.drop_last() == v.drop_last().update(i, true));
        lemma_unset_update(v.drop_last(), i);
    }
}

proof fn lemma_unset_bound(v: Seq<bool>)
    ensures
        unset(v) <= v.len(),
    decreases v.len(),
{
    if v.len() > 0 {
        lemma_unset_bound(v.drop_last());
    }
}

/// Whether node `i` stands in `order`.
pub open spec fn placed_in(order: Seq<usize>, i: int) -> bool {
    exists|w: int| 0 <= w < order.len() && #[trigger] order[w] == i
}

/// What has been established while marking: `order` lists exactly the marked
/// nodes, each of them reached, and the successors of its first `done` nodes
/// are marked.
spec fn marking(
    succ: Seq<Vec<usize>>,
    roots: Seq<usize>,
    marks: Seq<bool>,
    order: Seq<usize>,
    done: int,
) -> bool {
    &&& marks.len() == succ.len()
    &&& 0 <= done <= order.len()
    &&& order.len() + unset(marks) == succ.len()
    &&& forall|w: int| 0 <= w < order.len() ==> (#[trigger] order[w]) < succ.len()
    &&& forall|i: int| 0 <= i < succ.len() ==> (#[trigger] marks[i] <==> placed_in(order, i))
    &&& forall|i: int| 0 <= i < succ.len() && #[trigger] marks[i] ==> reached(succ, roots, i)
    &&& forall|w: int, k: int|
        0 <= w < done && 0 <= k < succ[order[w] as int]@.len() ==> #[trigger] successor_marked(
            succ,
            marks,
            order[w] as int,
            k,
        )
}

/// Marks `x`, which is reached and was not marked, and puts it in line.
fn mark(
    marks: &mut Vec<bool>,
    order: &mut Vec<usize>,
    x: usize,
    Ghost(succ): Ghost<Seq<Vec<usize>>>,
    Ghost(roots): Ghost<Seq<usize>>,
    Ghost(done): Ghost<int>,
)
    requires
        graph_wf(succ),
        marking(succ, roots, old(marks)@, old(order)@, done),
        x < succ.len(),
        !old(marks)@[x as int],
        reached(succ, roots, x as int),
    ensures
        marking(succ, roots, final(marks)@, final(order)@, done),
        final(marks)@ == old(marks)@.update(x as int, true),
        final(order)@ == old(order)@.push(x),
{
    proof {
        lemma_unset_update(marks@, x as int);
    }
    marks.set(x, true);
    order.push(x);
    proof {
        let n = old(order)@.len() as int;
        assert(order@[n] == x);
        assert forall|i: int| 0 <= i < succ.len() implies (#[trigger] marks@[i] <==> placed_in(
            order@,
            i,
        )) by {
            if i == x {
                assert(order@[n] == i);
            } else {
                if placed_in(old(order)@, i) {
                    let w = choose|w: int| 0 <= w < old(order)@.len() && #[trigger] old(order)@[w] == i;
                    assert(order@[w] == i);
                }
                if placed_in(order@, i) {
                    let w = choose|w: int| 0 <= w < order@.len() && #[trigger] order@[w] == i;
                    assert(old(order)@[w] == i);
                }
            }
        }
        assert forall|w: int, k: int|
            0 <= w < done && 0 <= k < succ[order@[w] as int]@.len() implies #[trigger] successor_marked(
            succ,
            marks@,
            order@[w] as int,
            k,
        ) by {
            assert(order@[w] == old(order)@[w]);
            assert(successor_marked(succ, old(marks)@, old(order)@[w] as int, k));
        }
    }
}

/// The nodes that the roots reach: `marks[i]` holds iff a walk from one of
/// the roots ends at `i`.
pub fn reachable(succ: &Vec<Vec<usize>>, roots: &Vec<usize>) -> (marks: Vec<bool>)
    requires
        graph_wf(succ@),
        forall|r: int| 0 <= r < roots@.len() ==> (#[trigger] roots@[r]) < succ@.len(),
    ensures
        marks@.len() == succ@.len(),
        forall|i: int| 0 <= i < succ@.len() ==> (#[trigger] marks@[i] <==> reached(succ@, roots@, i)),
{
    let n = succ.len();
    let mut marks: Vec<bool> = Vec::new();
    let mut c: usize = 0;
    while c < n
        invariant
            c <= n,
            n == succ@.len(),
            marks@.len() == c,
            forall|j: int| 0 <= j < c ==> !marks@[j],
            unset(marks@) == c,
        decreases n - c,
    {
        proof {
            assert(marks@.push(false).drop_last() == marks@);
        }
        marks.push(false);
        c = c + 1;
    }
    let mut order: Vec<usize> = Vec::new();
    let mut r: usize = 0;
    while r < roots.len()
        invariant
            r <= roots.len(),
            n == succ@.len(),
            graph_wf(succ@),
            forall|q: int| 0 <= q < roots@.len() ==> (#[trigger] roots@[q]) < succ@.len(),
            marking(succ@, roots@, marks@, order@, 0),
            forall|q: int| 0 <= q < r ==> marks@[#[trigger] roots@[q] as int],
        decreases roots.len() - r,
    {
        let x = roots[r];
        if !marks[x] {
            proof {
                let p = seq![x as int];
                assert(is_root(roots@, x as int));
                assert(is_walk(succ@, roots@, p) && p.last() == x as int);
            }
            mark(&mut marks, &mut order, x, Ghost(succ@), Ghost(roots@), Ghost(0));
        }
        r = r + 1;
    }
    let mut head: usize = 0;
    while head < order.len()
        invariant
            n == succ@.len(),
            graph_wf(succ@),
            forall|q: int| 0 <= q < roots@.len() ==> (#[trigger] roots@[q]) < succ@.len(),
            marking(succ@, roots@, marks@, order@, head as int),
            forall|q: int| 0 <= q < roots@.len() ==> marks@[#[trigger] roots@[q] as int],
        decreases n - head,
    {
        let i = order[head];
        let mut k: usize = 0;
        while k < succ[i].len()
            invariant
                k <= succ@[i as int]@.len(),
                head < order@.len(),
                i == order@[head as int],
                i < succ@.len(),
                n == succ@.len(),
                graph_wf(succ@),
                forall|q: int| 0 <= q < roots@.len() ==> (#[trigger] roots@[q]) < succ@.len(),
                marking(succ@, roots@, marks@, order@, head as int),
                forall|q: int| 0 <= q < roots@.len() ==> marks@[#[trigger] roots@[q] as int],
                forall|e: int| 0 <= e < k ==> #[trigger] successor_marked(succ@, marks@, i as int, e),
            decreases succ@[i as int]@.len() - k,
        {
            let j = succ[i][k];
            let ghost before = marks@;
            if !marks[j] {
                proof {
                    assert(marks@[i as int]) by {
                        assert(order@[head as int] == i);
                        assert(placed_in(order@, i as int));
                    }
                    let p = choose|p: Seq<int>|
                        is_walk(succ@, roots@, p) && #[trigger] p.last() == i as int;
                    let q = p.push(j as int);
                    assert(arc(succ@, i as int, j as int)) by {
                        assert(succ@[i as int]@[k as int] == j);
                    }
                    assert forall|x: int| 0 <= x < q.len() - 1 implies arc(
                        succ@,
                        #[trigger] q[x],
                        q[x + 1],
                    ) by {
                        if x < p.len() - 1 {
                            assert(q[x] == p[x] && q[x + 1] == p[x + 1]);
                        }
                    }
                    assert(is_walk(succ@, roots@, q) && q.last() == j as int);
                }
                mark(&mut marks, &mut order, j, Ghost(succ@), Ghost(roots@), Ghost(head as int));
            }
            proof {
                assert forall|e: int| 0 <= e < k + 1 implies #[trigger] successor_marked(
                    succ@,
                    marks@,
                    i as int,
                    e,
                ) by {
                    if e < k {
                        assert(successor_marked(succ@, before, i as int, e));
                    }
                }
            }
            k = k + 1;
        }
        proof {
            lemma_unset_bound(marks@);
            assert forall|w: int, e: int|
                0 <= w < head + 1 && 0 <= e < succ@[order@[w] as int]@.len() implies #[trigger] successor_marked(
                succ@,
                marks@,
                order@[w] as int,
                e,
            ) by {}
        }
        head = head + 1;
    }
    proof {
        assert forall|a: int, e: int|
            0 <= a < succ@.len() && marks@[a] && 0 <= e < succ@[a]@.len() implies #[trigger] successor_marked(
            succ@,
            marks@,
            a,
            e,
        ) by {
            assert(placed_in(order@, a));
            let w = choose|w: int| 0 <= w < order@.len() && #[trigger] order@[w] == a;
            assert(successor_marked(succ@, marks@, order@[w] as int, e));
        }
        assert(closed_marks(succ@, roots@, marks@));
        assert forall|i: int| 0 <= i < succ@.len() && reached(succ@, roots@, i) implies marks@[i] by {
            let p = choose|p: Seq<int>| is_walk(succ@, roots@, p) && #[trigger] p.last() == i;
            lemma_walk_marked(succ@, roots@, marks@, p, p.len() - 1);
        }
    }
    marks
}

/// Whether node `j` stands in `order` before position `w`.
pub open spec fn placed_before(order: Seq<usize>, w: int, j: int) -> bool {
    exists|v: int| 0 <= v < w && v < order.len() && #[trigger] order[v] == j
}

/// Whether the successor `k` of the node at position `w` that is a member
/// stands before it.
pub open spec fn follows(succ: Seq<Vec<usize>>, member: Seq<bool>, order: Seq<usize>, w: int, k: int) -> bool {
    member[succ[order[w] as int]@[k] as int] ==> placed_before(
        order,
        w,
        succ[order[w] as int]@[k] as int,
    )
}

/// Whether node `i` has a successor among the members that does not stand
/// before position `w`.
pub open spec fn waiting(succ: Seq<Vec<usize>>, member: Seq<bool>, order: Seq<usize>, w: int, i: int) -> bool {
    exists|k: int|
        0 <= k < succ[i]@.len() && member[(#[trigger] succ[i]@[k]) as int] && !placed_before(
            order,
            w,
            succ[i]@[k] as int,
        )
}

/// Whether the node at position `w` was the first that could stand there:
/// every member that comes earlier and does not stand before it was still
/// waiting.
pub open spec fn least(
    succ: Seq<Vec<usize>>,
    member: Seq<bool>,
    keys: Seq<Seq<Seq<char>>>,
    order: Seq<usize>,
    w: int,
    i: int,
) -> bool {
    0 <= i < succ.len() && earlier(keys, i, order[w] as int) && member[i] && !placed_before(order, w, i)
        ==> waiting(
        succ,
        member,
        order,
        w,
        i,
    )
}

/// Whether `order` lists exactly the members, each once and after all its
/// successors among the members.
pub open spec fn ordered(succ: Seq<Vec<usize>>, member: Seq<bool>, order: Seq<usize>) -> bool {
    &&& forall|w: int| 0 <= w < order.len() ==> (#[trigger] order[w]) < succ.len() && member[order[w] as int]
    &&& forall|a: int, b: int| 0 <= a < b < order.len() ==> order[a] != order[b]
    &&& forall|i: int| 0 <= i < succ.len() && #[trigger] member[i] ==> placed_in(order, i)
    &&& forall|w: int, k: int|
        0 <= w < order.len() && 0 <= k < succ[order[w] as int]@.len() ==> #[trigger] follows(
            succ,
            member,
            order,
            w,
            k,
        )
}

/// Whether at every position of `order` stands the first node that could:
/// none that comes earlier by `keys` was ready for that position.
pub open spec fn first_come(succ: Seq<Vec<usize>>, member: Seq<bool>, keys: Seq<Seq<Seq<char>>>, order: Seq<usize>) -> bool {
    forall|w: int, i: int| 0 <= w < order.len() ==> #[trigger] least(succ, member, keys, order, w, i)
}

/// Whether the set holds the node.
pub open spec fn holds_in(s: Set<int>, a: int) -> bool {
    s.contains(a)
}

/// Whether node `a` of the set `s` has a successor in `s`.
pub open spec fn tied(succ: Seq<Vec<usize>>, s: Set<int>, a: int) -> bool {
    exists|k: int| 0 <= k < succ[a]@.len() && s.contains(#[trigger] succ[a]@[k] as int)
}

/// Whether node `a` of the set `s` is related to a node of `s`.
pub open spec fn tied_by(r: spec_fn(int, int) -> bool, s: Set<int>, a: int) -> bool {
    exists|b: int| #[trigger] s.contains(b) && r(a, b)
}

/// Whether `s` is a knot: a set of members, not empty, each of which has a
/// successor in the set. No order can place the nodes of a knot after their
/// successors.
pub open spec fn knot(succ: Seq<Vec<usize>>, member: Seq<bool>, s: Set<int>) -> bool {
    &&& exists|x: int| s.contains(x)
    &&& forall|a: int| #[trigger] holds_in(s, a) ==> 0 <= a < succ.len() && member[a] && tied(succ, s, a)
}

/// No node of a knot stands in an order in which every node follows its
/// successors.
proof fn lemma_knot_unplaced(succ: Seq<Vec<usize>>, member: Seq<bool>, order: Seq<usize>, s: Set<int>, w: int)
    requires
        ordered(succ, member, order),
        knot(succ, member, s),
        0 <= w < order.len(),
    ensures
        !s.contains(order[w] as int),
    decreases w,
{
    if s.contains(order[w] as int) {
        let a = order[w] as int;
        assert(holds_in(s, a));
        assert(tied(succ, s, a));
        let k = choose|k: int| 0 <= k < succ[a]@.len() && s.contains(#[trigger] succ[a]@[k] as int);
        let j = succ[a]@[k] as int;
        assert(holds_in(s, j));
        assert(follows(succ, member, order, w, k));
        let v = choose|v: int| 0 <= v < w && v < order.len() && #[trigger] order[v] == j;
        lemma_knot_unplaced(succ, member, order, s, v);
    }
}

/// Where an order exists there is no knot.
proof fn lemma_ordered_has_no_knot(succ: Seq<Vec<usize>>, member: Seq<bool>, order: Seq<usize>)
    requires
        ordered(succ, member, order),
    ensures
        forall|s: Set<int>| !knot(succ, member, s),
{
    assert forall|s: Set<int>| !knot(succ, member, s) by {
        if knot(succ, member, s) {
            let x = choose|x: int| s.contains(x);
            assert(holds_in(s, x));
            assert(member[x]);
            assert(placed_in(order, x));
            let w = choose|w: int| 0 <= w < order.len() && #[trigger] order[w] == x;
            lemma_knot_unplaced(succ, member, order, s, w);
        }
    }
}

/// Whether successor `k` of node `i` does not hold `i` back: it is no member,
/// or it is placed.
pub open spec fn released(succ: Seq<Vec<usize>>, member: Seq<bool>, placed: Seq<bool>, i: int, k: int) -> bool {
    !member[succ[i]@[k] as int] || placed[succ[i]@[k] as int]
}

/// Whether every successor of `i` among the members is placed.
fn is_ready(succ: &Vec<Vec<usize>>, member: &Vec<bool>, placed: &Vec<bool>, i: usize) -> (b: bool)
    requires
        graph_wf(succ@),
        member@.len() == succ@.len(),
        placed@.len() == succ@.len(),
        i < succ@.len(),
    ensures
        b ==> forall|k: int| 0 <= k < succ@[i as int]@.len() ==> #[trigger] released(succ@, member@, placed@, i as int, k),
        !b ==> exists|k: int| 0 <= k < succ@[i as int]@.len() && !#[trigger] released(succ@, member@, placed@, i as int, k),
{
    let mut k: usize = 0;
    while k < succ[i].len()
        invariant
            k <= succ@[i as int]@.len(),
            graph_wf(succ@),
            member@.len() == succ@.len(),
            placed@.len() == succ@.len(),
            i < succ@.len(),
            forall|e: int| 0 <= e < k ==> #[trigger] released(succ@, member@, placed@, i as int, e),
        decreases succ@[i as int]@.len() - k,
    {
        let j = succ[i][k];
        if member[j] && !placed[j] {
            proof {
                assert(!released(succ@, member@, placed@, i as int, k as int));
            }
            return false;
        }
        k = k + 1;
    }
    true
}

/// Whether a successor among the members holds node `a` back.
pub open spec fn stuck_at(succ: Seq<Vec<usize>>, member: Seq<bool>, placed: Seq<bool>, a: int) -> bool {
    exists|k: int| 0 <= k < succ[a]@.len() && !#[trigger] released(succ, member, placed, a, k)
}

/// Whether node `a`, a member that is not placed, cannot be picked before
/// `best`: it is held back, or it is `best`, or it comes later.
pub open spec fn passed_over(
    succ: Seq<Vec<usize>>,
    member: Seq<bool>,
    placed: Seq<bool>,
    keys: Seq<Seq<Seq<char>>>,
    best: Option<usize>,
    a: int,
) -> bool {
    stuck_at(succ, member, placed, a) || (best matches Some(x) && (a == x || earlier(keys, x as int, a)))
}

/// The first member by `keys` that is not placed and is ready, if there is
/// one; and where there is none, a member that is not placed, if there is one.
fn find_ready(succ: &Vec<Vec<usize>>, member: &Vec<bool>, placed: &Vec<bool>, keys: &Vec<Name>) -> (r: (
    Option<usize>,
    Option<usize>,
))
    requires
        graph_wf(succ@),
        member@.len() == succ@.len(),
        placed@.len() == succ@.len(),
        keys@.len() == succ@.len(),
    ensures
        r.0 matches Some(x) ==> x < succ@.len() && member@[x as int] && !placed@[x as int] && (forall|
            k: int,
        |
            0 <= k < succ@[x as int]@.len() ==> #[trigger] released(
                succ@,
                member@,
                placed@,
                x as int,
                k,
            )) && forall|a: int|
            0 <= a < succ@.len() && earlier(views(keys@), a, x as int) && member@[a] && !placed@[a]
                ==> #[trigger] stuck_at(succ@, member@, placed@, a),
        r.0 is None ==> (r.1 matches Some(h) ==> h < succ@.len() && member@[h as int]
            && !placed@[h as int]) && (r.1 is None ==> forall|a: int|
            0 <= a < succ@.len() && member@[a] ==> placed@[a]) && forall|a: int|
            0 <= a < succ@.len() && member@[a] && !placed@[a] ==> #[trigger] stuck_at(
                succ@,
                member@,
                placed@,
                a,
            ),
{
    let n = succ.len();
    let mut i: usize = 0;
    let mut held: Option<usize> = None;
    let mut best: Option<usize> = None;
    while i < n
        invariant
            i <= n,
            n == succ@.len(),
            graph_wf(succ@),
            member@.len() == succ@.len(),
            placed@.len() == succ@.len(),
            keys@.len() == succ@.len(),
            held matches Some(h) ==> h < n && member@[h as int] && !placed@[h as int],
            held is None ==> forall|a: int| 0 <= a < i && member@[a] ==> placed@[a],
            best matches Some(x) ==> x < i && member@[x as int] && !placed@[x as int] && forall|k: int|
                0 <= k < succ@[x as int]@.len() ==> #[trigger] released(
                    succ@,
                    member@,
                    placed@,
                    x as int,
                    k,
                ),
            forall|a: int|
                0 <= a < i && member@[a] && !placed@[a] ==> #[trigger] passed_over(
                    succ@,
                    member@,
                    placed@,
                    views(keys@),
                    best,
                    a,
                ),
        decreases n - i,
    {
        if member[i] && !placed[i] {
            if held.is_none() {
                held = Some(i);
            }
            if is_ready(succ, member, placed, i) {
                let ghost was = best;
                let better = match best {
                    None => true,
                    Some(x) => precedes(&keys[i], &keys[x]),
                };
                proof {
                    assert(views(keys@)[i as int] == keys@[i as int]@);
                    if let Some(x) = was {
                        assert(views(keys@)[x as int] == keys@[x as int]@);
                    }
                }
                if better {
                    best = Some(i);
                }
                proof {
                    assert forall|a: int| 0 <= a <= i && member@[a] && !placed@[a] implies #[trigger] passed_over(
                        succ@,
                        member@,
                        placed@,
                        views(keys@),
                        best,
                        a,
                    ) by {
                        if a < i {
                            assert(passed_over(succ@, member@, placed@, views(keys@), was, a));
                        }
                        if let Some(x) = was {
                            lemma_earlier_is_an_order(views(keys@), i as int, x as int, a);
                            lemma_earlier_is_an_order(views(keys@), x as int, i as int, a);
                        }
                    }
                }
            } else {
                proof {
                    assert(stuck_at(succ@, member@, placed@, i as int));
                }
            }
        }
        i = i + 1;
    }
    proof {
        assert forall|a: int| 0 <= a < n && member@[a] && !placed@[a] && best is None implies #[trigger] stuck_at(
            succ@,
            member@,
            placed@,
            a,
        ) by {
            assert(passed_over(succ@, member@, placed@, views(keys@), best, a));
        }
        if let Some(x) = best {
            assert forall|a: int|
                0 <= a < n && earlier(views(keys@), a, x as int) && member@[a] && !placed@[a] implies #[trigger] stuck_at(
                succ@,
                member@,
                placed@,
                a,
            ) by {
                assert(passed_over(succ@, member@, placed@, views(keys@), best, a));
                lemma_earlier_is_an_order(views(keys@), a, x as int, a);
            }
        }
    }
    match best {
        Some(x) => (Some(x), held),
        None => (None, held),
    }
}

/// What has been established while ordering: `placed` marks exactly the nodes
/// in `order`, and `order` keeps every promise of [`ordered`] and
/// [`first_come`] but that of listing all members.
#[verifier::opaque]
spec fn ordering(
    succ: Seq<Vec<usize>>,
    member: Seq<bool>,
    keys: Seq<Seq<Seq<char>>>,
    placed: Seq<bool>,
    order: Seq<usize>,
) -> bool {
    &&& member.len() == succ.len()
    &&& placed.len() == succ.len()
    &&& order.len() + unset(placed) == succ.len()
    &&& forall|w: int| 0 <= w < order.len() ==> (#[trigger] order[w]) < succ.len() && member[order[w] as int]
    &&& forall|a: int, b: int| 0 <= a < b < order.len() ==> order[a] != order[b]
    &&& forall|i: int| 0 <= i < succ.len() ==> (#[trigger] placed[i] <==> placed_in(order, i))
    &&& forall|w: int, k: int|
        0 <= w < order.len() && 0 <= k < succ[order[w] as int]@.len() ==> #[trigger] follows(
            succ,
            member,
            order,
            w,
            k,
        )
    &&& forall|w: int, i: int| 0 <= w < order.len() ==> #[trigger] least(succ, member, keys, order, w, i)
}

/// Places `x`, a member that is ready and the first such, at the end of the
/// order.
fn place(
    placed: &mut Vec<bool>,
    order: &mut Vec<usize>,
    x: usize,
    Ghost(succ): Ghost<Seq<Vec<usize>>>,
    Ghost(member): Ghost<Seq<bool>>,
    Ghost(keys): Ghost<Seq<Seq<Seq<char>>>>,
)
    requires
        graph_wf(succ),
        member.len() == succ.len(),
        old(placed)@.len() == succ.len(),
        ordering(succ, member, keys, old(placed)@, old(order)@),
        x < succ.len(),
        member[x as int],
        !old(placed)@[x as int],
        forall|k: int| 0 <= k < succ[x as int]@.len() ==> #[trigger] released(succ, member, old(placed)@, x as int, k),
        forall|i: int|
            0 <= i < succ.len() && earlier(keys, i, x as int) && member[i] && !old(placed)@[i]
                ==> #[trigger] stuck_at(succ, member, old(placed)@, i),
    ensures
        ordering(succ, member, keys, final(placed)@, final(order)@),
        final(placed)@.len() == succ.len(),
        unset(final(placed)@) < unset(old(placed)@),
        final(order)@ == old(order)@.push(x),
{
    let ghost before = order@;
    let ghost marks = placed@;
    proof {
        reveal(ordering);
        lemma_unset_update(placed@, x as int);
    }
    placed.set(x, true);
    order.push(x);
    proof {
        let n = before.len() as int;
        assert(order@[n] == x);
        assert forall|j: int, w: int| 0 <= w <= n implies (placed_before(order@, w, j)
            <==> placed_before(before, w, j)) by {
            if placed_before(order@, w, j) {
                let v = choose|v: int| 0 <= v < w && v < order@.len() && #[trigger] order@[v] == j;
                assert(before[v] == j);
            }
            if placed_before(before, w, j) {
                let v = choose|v: int| 0 <= v < w && v < before.len() && #[trigger] before[v] == j;
                assert(order@[v] == j);
            }
        }
        assert forall|j: int| 0 <= j < succ.len() implies (marks[j] <==> placed_before(before, n, j)) by {
            if marks[j] {
                assert(placed_in(before, j));
                let v = choose|v: int| 0 <= v < before.len() && #[trigger] before[v] == j;
                assert(placed_before(before, n, j));
            }
            if placed_before(before, n, j) {
                let v = choose|v: int| 0 <= v < n && v < before.len() && #[trigger] before[v] == j;
                assert(placed_in(before, j));
            }
        }
        assert forall|a: int, b: int| 0 <= a < b < order@.len() implies order@[a] != order@[b] by {
            if b == n {
                assert(order@[a] == before[a]);
                assert(placed_in(before, before[a] as int));
            } else {
                assert(order@[a] == before[a] && order@[b] == before[b]);
            }
        }
        assert forall|i: int| 0 <= i < succ.len() implies (#[trigger] placed@[i] <==> placed_in(
            order@,
            i,
        )) by {
            if i == x {
                assert(order@[n] == i);
            } else {
                if placed_in(before, i) {
                    let v = choose|v: int| 0 <= v < before.len() && #[trigger] before[v] == i;
                    assert(order@[v] == i);
                }
                if placed_in(order@, i) {
                    let v = choose|v: int| 0 <= v < order@.len() && #[trigger] order@[v] == i;
                    assert(before[v] == i);
                }
            }
        }
        assert forall|w: int, k: int|
            0 <= w < order@.len() && 0 <= k < succ[order@[w] as int]@.len() implies #[trigger] follows(
            succ,
            member,
            order@,
            w,
            k,
        ) by {
            if w < n {
                assert(order@[w] == before[w]);
                assert(follows(succ, member, before, w, k));
            } else {
                assert(released(succ, member, marks, x as int, k));
            }
        }
        assert forall|w: int, i: int| 0 <= w < order@.len() implies #[trigger] least(
            succ,
            member,
            keys,
            order@,
            w,
            i,
        ) by {
            if w < n {
                assert(order@[w] == before[w]);
                assert(least(succ, member, keys, before, w, i));
                if 0 <= i < succ.len() && earlier(keys, i, before[w] as int) && member[i]
                    && !placed_before(before, w, i) {
                    let k = choose|k: int|
                        0 <= k < succ[i]@.len() && member[(#[trigger] succ[i]@[k]) as int]
                            && !placed_before(before, w, succ[i]@[k] as int);
                    assert(!placed_before(order@, w, succ[i]@[k] as int));
                }
            } else {
                if 0 <= i < succ.len() && earlier(keys, i, x as int) && member[i] && !placed_before(
                    order@,
                    w,
                    i,
                ) {
                    assert(!marks[i]);
                    assert(stuck_at(succ, member, marks, i));
                    let k = choose|k: int|
                        0 <= k < succ[i]@.len() && !#[trigger] released(succ, member, marks, i, k);
                    assert(member[succ[i]@[k] as int]);
                    assert(!placed_before(order@, w, succ[i]@[k] as int));
                }
            }
        }
    }
}

/// An ordering that has placed every member is what `topo_order` promises.
proof fn lemma_ordering_complete(
    succ: Seq<Vec<usize>>,
    member: Seq<bool>,
    keys: Seq<Seq<Seq<char>>>,
    placed: Seq<bool>,
    order: Seq<usize>,
)
    requires
        ordering(succ, member, keys, placed, order),
        forall|a: int| 0 <= a < succ.len() && member[a] ==> placed[a],
    ensures
        ordered(succ, member, order),
        first_come(succ, member, keys, order),
{
    reveal(ordering);
    assert forall|a: int| 0 <= a < succ.len() && #[trigger] member[a] implies placed_in(order, a) by {
        assert(placed[a]);
    }
}

/// Where every member that is not placed is held back by one that is not
/// placed, those members are a knot.
proof fn lemma_stuck_is_knot(succ: Seq<Vec<usize>>, member: Seq<bool>, placed: Seq<bool>, h: int)
    requires
        member.len() == succ.len(),
        placed.len() == succ.len(),
        graph_wf(succ),
        0 <= h < succ.len() && member[h] && !placed[h],
        forall|a: int|
            0 <= a < succ.len() && member[a] && !placed[a] ==> #[trigger] stuck_at(
                succ,
                member,
                placed,
                a,
            ),
    ensures
        exists|s: Set<int>| #[trigger] knot(succ, member, s) && s.contains(h),
{
    let s = Set::<int>::new(|a: int| 0 <= a < succ.len() && member[a] && !placed[a]);
    assert(s.contains(h));
    assert forall|a: int| #[trigger] holds_in(s, a) implies 0 <= a < succ.len() && member[a] && tied(
        succ,
        s,
        a,
    ) by {
        assert(stuck_at(succ, member, placed, a));
        let k = choose|k: int|
            0 <= k < succ[a]@.len() && !#[trigger] released(succ, member, placed, a, k);
        assert(s.contains(succ[a]@[k] as int));
    }
    assert(knot(succ, member, s));
}

/// The order of the members in which each stands after its successors among
/// the members, and at every position stands the node that comes first by
/// `keys` among those that could; see [`ordered`] and [`first_come`].
///
/// Fails iff the members hold a knot, and then names a node of one.
pub fn topo_order(succ: &Vec<Vec<usize>>, member: &Vec<bool>, keys: &Vec<Name>) -> (r: Result<
    Vec<usize>,
    usize,
>)
    requires
        graph_wf(succ@),
        member@.len() == succ@.len(),
        keys@.len() == succ@.len(),
    ensures
        r matches Ok(order) ==> ordered(succ@, member@, order@) && first_come(
            succ@,
            member@,
            views(keys@),
            order@,
        ),
        r matches Err(x) ==> exists|s: Set<int>| #[trigger] knot(succ@, member@, s) && s.contains(x as int),
        r is Err <==> exists|s: Set<int>| knot(succ@, member@, s),
{
    let n = succ.len();
    let mut placed: Vec<bool> = Vec::new();
    let mut c: usize = 0;
    while c < n
        invariant
            c <= n,
            n == succ@.len(),
            placed@.len() == c,
            forall|j: int| 0 <= j < c ==> !placed@[j],
            unset(placed@) == c,
        decreases n - c,
    {
        proof {
            assert(placed@.push(false).drop_last() == placed@);
        }
        placed.push(false);
        c = c + 1;
    }
    let mut order: Vec<usize> = Vec::new();
    proof {
        reveal(ordering);
        assert forall|i: int| 0 <= i < succ@.len() implies (#[trigger] placed@[i] <==> placed_in(
            order@,
            i,
        )) by {}
        assert(ordering(succ@, member@, views(keys@), placed@, order@));
    }
    loop
        invariant
            n == succ@.len(),
            graph_wf(succ@),
            member@.len() == succ@.len(),
            placed@.len() == succ@.len(),
            keys@.len() == succ@.len(),
            ordering(succ@, member@, views(keys@), placed@, order@),
        decreases unset(placed@),
    {
        let (pick, held) = find_ready(succ, member, &placed, keys);
        match pick {
            Some(x) => {
                place(&mut placed, &mut order, x, Ghost(succ@), Ghost(member@), Ghost(views(keys@)));
            },
            None => {
                match held {
                    None => {
                        proof {
                            lemma_ordering_complete(succ@, member@, views(keys@), placed@, order@);
                            lemma_ordered_has_no_knot(succ@, member@, order@);
                        }
                        return Ok(order);
                    },
                    Some(h) => {
                        proof {
                            lemma_stuck_is_knot(succ@, member@, placed@, h as int);
                            let s = choose|s: Set<int>| knot(succ@, member@, s) && s.contains(h as int);
                            assert(knot(succ@, member@, s) && s.contains(h as int));
                        }
                        return Err(h);
                    },
                }
            },
        }
    }
}

/// Whether the successor lists stand for the relation `r`: `b` is a successor
/// of `a` iff `r(a, b)`.
pub open spec fn stands_for(succ: Seq<Vec<usize>>, r: spec_fn(int, int) -> bool) -> bool {
    forall|a: int, b: int| 0 <= a < succ.len() ==> (#[trigger] arc(succ, a, b) <==> r(a, b))
}

/// Whether `p` is a chain along `r` that starts at a node that `first` holds
/// of.
pub open spec fn is_chain(
    r: spec_fn(int, int) -> bool,
    first: spec_fn(int) -> bool,
    n: int,
    p: Seq<int>,
) -> bool {
    p.len() >= 1 && 0 <= p[0] < n && first(p[0]) && forall|k: int|
        0 <= k < p.len() - 1 ==> 0 <= p[k] < n && r(#[trigger] p[k], p[k + 1])
}

/// Whether a chain along `r`, from a node that `first` holds of, ends at `i`.
pub open spec fn reached_by(
    r: spec_fn(int, int) -> bool,
    first: spec_fn(int) -> bool,
    n: int,
    i: int,
) -> bool {
    exists|p: Seq<int>| is_chain(r, first, n, p) && #[trigger] p.last() == i
}

/// Whether `order` lists exactly the nodes that `member` holds of, each once
/// and after every member that it is related to by `r`.
pub open spec fn ordered_by(
    r: spec_fn(int, int) -> bool,
    member: spec_fn(int) -> bool,
    n: int,
    order: Seq<usize>,
) -> bool {
    &&& forall|w: int| 0 <= w < order.len() ==> (#[trigger] order[w]) < n && member(order[w] as int)
    &&& forall|a: int, b: int| 0 <= a < b < order.len() ==> order[a] != order[b]
    &&& forall|i: int| 0 <= i < n && #[trigger] member(i) ==> placed_in(order, i)
    &&& forall|w: int, b: int|
        0 <= w < order.len() && 0 <= b < n && member(b) && #[trigger] r(order[w] as int, b)
            ==> placed_before(order, w, b)
}

/// Whether `s` is a knot of `r` among the nodes that `member` holds of.
pub open spec fn knot_by(
    r: spec_fn(int, int) -> bool,
    member: spec_fn(int) -> bool,
    n: int,
    s: Set<int>,
) -> bool {
    &&& exists|x: int| s.contains(x)
    &&& forall|a: int| #[trigger] holds_in(s, a) ==> 0 <= a < n && member(a) && tied_by(r, s, a)
}

/// Whether node `i` is related by `r` to a member that does not stand before
/// position `w`.
pub open spec fn waiting_by(
    r: spec_fn(int, int) -> bool,
    member: spec_fn(int) -> bool,
    n: int,
    order: Seq<usize>,
    w: int,
    i: int,
) -> bool {
    exists|b: int| 0 <= b < n && member(b) && #[trigger] r(i, b) && !placed_before(order, w, b)
}

/// Whether node `i` had no claim on position `w`: if it is a member that
/// comes earlier by `keys` than the node there and does not stand before it,
/// it was still waiting.
pub open spec fn least_by(
    r: spec_fn(int, int) -> bool,
    member: spec_fn(int) -> bool,
    n: int,
    keys: Seq<Seq<Seq<char>>>,
    order: Seq<usize>,
    w: int,
    i: int,
) -> bool {
    0 <= i < n && member(i) && earlier(keys, i, order[w] as int) && !placed_before(order, w, i)
        ==> waiting_by(r, member, n, order, w, i)
}

/// Whether at every position of `order` stands the node that comes first by
/// `keys` among the members that could stand there.
pub open spec fn first_come_by(
    r: spec_fn(int, int) -> bool,
    member: spec_fn(int) -> bool,
    n: int,
    keys: Seq<Seq<Seq<char>>>,
    order: Seq<usize>,
) -> bool {
    forall|w: int, i: int| 0 <= w < order.len() ==> #[trigger] least_by(r, member, n, keys, order, w, i)
}

/// What the successor lists reach is what the relation they stand for
/// reaches.
pub proof fn lemma_reached_by(
    succ: Seq<Vec<usize>>,
    roots: Seq<usize>,
    r: spec_fn(int, int) -> bool,
    first: spec_fn(int) -> bool,
    i: int,
)
    requires
        graph_wf(succ),
        stands_for(succ, r),
        forall|q: int| 0 <= q < roots.len() ==> (#[trigger] roots[q]) < succ.len(),
        forall|a: int| 0 <= a < succ.len() ==> (is_root(roots, a) <==> #[trigger] first(a)),
    ensures
        reached(succ, roots, i) <==> reached_by(r, first, succ.len() as int, i),
{
    if reached(succ, roots, i) {
        let p = choose|p: Seq<int>| is_walk(succ, roots, p) && #[trigger] p.last() == i;
        assert(is_root(roots, p[0]));
        let q0 = choose|q: int| 0 <= q < roots.len() && #[trigger] roots[q] == p[0];
        assert forall|k: int| 0 <= k < p.len() - 1 implies 0 <= p[k] < succ.len() && r(
            #[trigger] p[k],
            p[k + 1],
        ) by {
            assert(arc(succ, p[k], p[k + 1]));
        }
        assert(is_chain(r, first, succ.len() as int, p));
    }
    if reached_by(r, first, succ.len() as int, i) {
        let p = choose|p: Seq<int>| is_chain(r, first, succ.len() as int, p) && #[trigger] p.last() == i;
        assert forall|k: int| 0 <= k < p.len() - 1 implies arc(succ, #[trigger] p[k], p[k + 1]) by {
            assert(r(p[k], p[k + 1]));
        }
        assert(is_walk(succ, roots, p));
    }
}

/// An order of the successor lists is an order of the relation they stand
/// for.
pub proof fn lemma_ordered_by(
    succ: Seq<Vec<usize>>,
    member: Seq<bool>,
    order: Seq<usize>,
    r: spec_fn(int, int) -> bool,
    holds: spec_fn(int) -> bool,
)
    requires
        graph_wf(succ),
        member.len() == succ.len(),
        stands_for(succ, r),
        forall|a: int| 0 <= a < succ.len() ==> (member[a] <==> #[trigger] holds(a)),
        ordered(succ, member, order),
    ensures
        ordered_by(r, holds, succ.len() as int, order),
{
    assert forall|w: int, b: int|
        0 <= w < order.len() && 0 <= b < succ.len() && holds(b) && #[trigger] r(
            order[w] as int,
            b,
        ) implies placed_before(order, w, b) by {
        assert(arc(succ, order[w] as int, b));
        let k = choose|k: int|
            0 <= k < succ[order[w] as int]@.len() && #[trigger] succ[order[w] as int]@[k] == b;
        assert(follows(succ, member, order, w, k));
    }
    assert forall|i: int| 0 <= i < succ.len() && #[trigger] holds(i) implies placed_in(order, i) by {
        assert(member[i]);
    }
}

/// A knot of the successor lists is a knot of the relation they stand for.
pub proof fn lemma_knot_to_relation(
    succ: Seq<Vec<usize>>,
    member: Seq<bool>,
    r: spec_fn(int, int) -> bool,
    holds: spec_fn(int) -> bool,
    s: Set<int>,
)
    requires
        graph_wf(succ),
        member.len() == succ.len(),
        stands_for(succ, r),
        forall|a: int| 0 <= a < succ.len() ==> (member[a] <==> #[trigger] holds(a)),
        knot(succ, member, s),
    ensures
        knot_by(r, holds, succ.len() as int, s),
{
    assert forall|a: int| #[trigger] holds_in(s, a) implies 0 <= a < succ.len() && holds(a) && tied_by(
        r,
        s,
        a,
    ) by {
        assert(tied(succ, s, a));
        let k = choose|k: int| 0 <= k < succ[a]@.len() && s.contains(#[trigger] succ[a]@[k] as int);
        let b = succ[a]@[k] as int;
        assert(arc(succ, a, b));
        assert(s.contains(b) && r(a, b));
    }
}

/// A knot of the relation is a knot of the successor lists that stand for it.
pub proof fn lemma_knot_from_relation(
    succ: Seq<Vec<usize>>,
    member: Seq<bool>,
    r: spec_fn(int, int) -> bool,
    holds: spec_fn(int) -> bool,
    s: Set<int>,
)
    requires
        graph_wf(succ),
        member.len() == succ.len(),
        stands_for(succ, r),
        forall|a: int| 0 <= a < succ.len() ==> (member[a] <==> #[trigger] holds(a)),
        knot_by(r, holds, succ.len() as int, s),
    ensures
        knot(succ, member, s),
{
    assert forall|a: int| #[trigger] holds_in(s, a) implies 0 <= a < succ.len() && member[a] && tied(
        succ,
        s,
        a,
    ) by {
        assert(tied_by(r, s, a));
        let b = choose|b: int| #[trigger] s.contains(b) && r(a, b);
        assert(arc(succ, a, b));
        let k = choose|k: int| 0 <= k < succ[a]@.len() && #[trigger] succ[a]@[k] == b;
        assert(s.contains(succ[a]@[k] as int));
    }
}

/// Where the first that could stands at every position of an order of the
/// successor lists, it does so in the order of the relation they stand for.
pub proof fn lemma_first_come_by(
    succ: Seq<Vec<usize>>,
    member: Seq<bool>,
    keys: Seq<Seq<Seq<char>>>,
    order: Seq<usize>,
    r: spec_fn(int, int) -> bool,
    holds: spec_fn(int) -> bool,
)
    requires
        graph_wf(succ),
        member.len() == succ.len(),
        stands_for(succ, r),
        forall|a: int| 0 <= a < succ.len() ==> (member[a] <==> #[trigger] holds(a)),
        first_come(succ, member, keys, order),
    ensures
        first_come_by(r, holds, succ.len() as int, keys, order),
{
    assert forall|w: int, i: int| 0 <= w < order.len() implies #[trigger] least_by(
        r,
        holds,
        succ.len() as int,
        keys,
        order,
        w,
        i,
    ) by {
        if 0 <= i < succ.len() && holds(i) && earlier(keys, i, order[w] as int) && !placed_before(
            order,
            w,
            i,
        ) {
            assert(least(succ, member, keys, order, w, i));
            let k = choose|k: int|
                0 <= k < succ[i]@.len() && member[(#[trigger] succ[i]@[k]) as int] && !placed_before(
                    order,
                    w,
                    succ[i]@[k] as int,
                );
            let b = succ[i]@[k] as int;
            assert(arc(succ, i, b));
            assert(r(i, b));
            assert(holds(b));
        }
    }
}

/// Where two orders agree before position `w`, the node that the first has
/// there does not come earlier than the node that the second has there.
proof fn lemma_not_earlier(
    r: spec_fn(int, int) -> bool,
    member: spec_fn(int) -> bool,
    n: int,
    keys: Seq<Seq<Seq<char>>>,
    one: Seq<usize>,
    other: Seq<usize>,
    w: int,
)
    requires
        ordered_by(r, member, n, one),
        first_come_by(r, member, n, keys, other),
        0 <= w < one.len(),
        w < other.len(),
        forall|v: int| 0 <= v < w ==> one[v] == other[v],
    ensures
        !earlier(keys, one[w] as int, other[w] as int),
{
    let a = one[w] as int;
    if earlier(keys, a, other[w] as int) {
        if placed_before(other, w, a) {
            let v = choose|v: int| 0 <= v < w && v < other.len() && #[trigger] other[v] == a;
            assert(one[v] == one[w]);
        }
        assert(least_by(r, member, n, keys, other, w, a));
        let b = choose|b: int| 0 <= b < n && member(b) && #[trigger] r(a, b) && !placed_before(other, w, b);
        assert(placed_before(one, w, b));
        let v = choose|v: int| 0 <= v < w && v < one.len() && #[trigger] one[v] == b;
        assert(other[v] == b);
    }
}

/// Two orders in which the first that could stands at every position agree
/// on their first `w` positions.
proof fn lemma_same_start(
    r: spec_fn(int, int) -> bool,
    member: spec_fn(int) -> bool,
    n: int,
    keys: Seq<Seq<Seq<char>>>,
    one: Seq<usize>,
    other: Seq<usize>,
    w: int,
)
    requires
        ordered_by(r, member, n, one),
        first_come_by(r, member, n, keys, one),
        ordered_by(r, member, n, other),
        first_come_by(r, member, n, keys, other),
        0 <= w <= one.len(),
        w <= other.len(),
    ensures
        forall|v: int| 0 <= v < w ==> one[v] == other[v],
    decreases w,
{
    if w > 0 {
        lemma_same_start(r, member, n, keys, one, other, w - 1);
        lemma_not_earlier(r, member, n, keys, one, other, w - 1);
        lemma_not_earlier(r, member, n, keys, other, one, w - 1);
        lemma_earlier_is_an_order(keys, one[w - 1] as int, other[w - 1] as int, one[w - 1] as int);
    }
}

/// An order that agrees with another on all its positions is not shorter.
proof fn lemma_not_shorter(
    r: spec_fn(int, int) -> bool,
    member: spec_fn(int) -> bool,
    n: int,
    one: Seq<usize>,
    other: Seq<usize>,
)
    requires
        ordered_by(r, member, n, one),
        ordered_by(r, member, n, other),
        one.len() <= other.len(),
        forall|v: int| 0 <= v < one.len() ==> one[v] == other[v],
    ensures
        one.len() == other.len(),
{
    if one.len() < other.len() {
        let x = other[one.len() as int];
        assert(member(x as int));
        assert(placed_in(one, x as int));
        let v = choose|v: int| 0 <= v < one.len() && #[trigger] one[v] == x;
        assert(other[v] == x);
    }
}

/// There is one order only in which every node stands after the members that
/// it is related to and the first that could stands at every position.
pub proof fn lemma_one_order(
    r: spec_fn(int, int) -> bool,
    member: spec_fn(int) -> bool,
    n: int,
    keys: Seq<Seq<Seq<char>>>,
    one: Seq<usize>,
    other: Seq<usize>,
)
    requires
        ordered_by(r, member, n, one),
        first_come_by(r, member, n, keys, one),
        ordered_by(r, member, n, other),
        first_come_by(r, member, n, keys, other),
    ensures
        one == other,
{
    if one.len() <= other.len() {
        lemma_same_start(r, member, n, keys, one, other, one.len() as int);
        lemma_not_shorter(r, member, n, one, other);
    } else {
        lemma_same_start(r, member, n, keys, one, other, other.len() as int);
        lemma_not_shorter(r, member, n, other, one);
    }
    assert(one =~= other);
}

} // verus!
