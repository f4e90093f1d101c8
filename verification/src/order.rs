//! The order of names: segment by segment, and each segment character by
//! character, a shorter text before each of its extensions.

use vstd::prelude::*;
use crate::name::Name;

verus! {

/// Whether `a` comes before `b`, given that they agree before position `i`.
pub open spec fn text_less_from(a: Seq<char>, b: Seq<char>, i: int) -> bool
    decreases a.len() - i,
{
    if i < 0 || i >= b.len() {
        false
    } else if i >= a.len() {
        true
    } else if a[i] != b[i] {
        (a[i] as int) < (b[i] as int)
    } else {
        text_less_from(a, b, i + 1)
    }
}

/// Whether the text `a` comes before the text `b`.
pub open spec fn text_less(a: Seq<char>, b: Seq<char>) -> bool {
    text_less_from(a, b, 0)
}

/// Whether `a` comes before `b`, given that they agree before segment `i`.
pub open spec fn name_less_from(a: Seq<Seq<char>>, b: Seq<Seq<char>>, i: int) -> bool
    decreases a.len() - i,
{
    if i < 0 || i >= b.len() {
        false
    } else if i >= a.len() {
        true
    } else if a[i] != b[i] {
        text_less(a[i], b[i])
    } else {
        name_less_from(a, b, i + 1)
    }
}

/// Whether the name `a` comes before the name `b`.
pub open spec fn name_less(a: Seq<Seq<char>>, b: Seq<Seq<char>>) -> bool {
    name_less_from(a, b, 0)
}

/// Whether the texts agree from position `i` on.
pub open spec fn same_from<T>(a: Seq<T>, b: Seq<T>, i: int) -> bool {
    a.len() == b.len() && forall|j: int| i <= j < a.len() ==> a[j] == b[j]
}

/// No text comes before itself.
pub proof fn lemma_text_irreflexive(a: Seq<char>, i: int)
    ensures
        !text_less_from(a, a, i),
    decreases a.len() - i,
{
    if 0 <= i < a.len() {
        lemma_text_irreflexive(a, i + 1);
    }
}

/// Of two texts that differ, one comes before the other.
pub proof fn lemma_text_total(a: Seq<char>, b: Seq<char>, i: int)
    requires
        0 <= i <= a.len(),
        i <= b.len(),
    ensures
        text_less_from(a, b, i) || text_less_from(b, a, i) || same_from(a, b, i),
    decreases a.len() - i,
{
    if i < a.len() && i < b.len() {
        if a[i] == b[i] {
            lemma_text_total(a, b, i + 1);
            if same_from(a, b, i + 1) {
                assert(same_from(a, b, i));
            }
        }
    }
}

/// The order of texts is transitive.
pub proof fn lemma_text_transitive(a: Seq<char>, b: Seq<char>, c: Seq<char>, i: int)
    requires
        text_less_from(a, b, i),
        text_less_from(b, c, i),
    ensures
        text_less_from(a, c, i),
    decreases a.len() - i,
{
    if i < a.len() && a[i] == b[i] && b[i] == c[i] {
        lemma_text_transitive(a, b, c, i + 1);
    }
}

/// No name comes before itself.
pub proof fn lemma_name_irreflexive(a: Seq<Seq<char>>, i: int)
    ensures
        !name_less_from(a, a, i),
    decreases a.len() - i,
{
    if 0 <= i < a.len() {
        lemma_name_irreflexive(a, i + 1);
    }
}

/// Of two names that differ, one comes before the other.
pub proof fn lemma_name_total(a: Seq<Seq<char>>, b: Seq<Seq<char>>, i: int)
    requires
        0 <= i <= a.len(),
        i <= b.len(),
    ensures
        name_less_from(a, b, i) || name_less_from(b, a, i) || same_from(a, b, i),
    decreases a.len() - i,
{
    if i < a.len() && i < b.len() {
        if a[i] == b[i] {
            lemma_name_total(a, b, i + 1);
            if same_from(a, b, i + 1) {
                assert(same_from(a, b, i));
            }
        } else {
            lemma_text_total(a[i], b[i], 0);
            if same_from(a[i], b[i], 0) {
                assert(a[i] =~= b[i]);
            }
        }
    }
}

/// The order of names is transitive.
pub proof fn lemma_name_transitive(a: Seq<Seq<char>>, b: Seq<Seq<char>>, c: Seq<Seq<char>>, i: int)
    requires
        name_less_from(a, b, i),
        name_less_from(b, c, i),
    ensures
        name_less_from(a, c, i),
    decreases a.len() - i,
{
    if i < a.len() {
        if a[i] == b[i] && b[i] == c[i] {
            lemma_name_transitive(a, b, c, i + 1);
        } else if a[i] != b[i] && b[i] != c[i] {
            lemma_text_transitive(a[i], b[i], c[i], 0);
            lemma_text_irreflexive(a[i], 0);
        }
    }
}

/// Whether node `a` comes before node `b` where `keys` names the nodes: by
/// name, and by position where the names are the same.
pub open spec fn earlier(keys: Seq<Seq<Seq<char>>>, a: int, b: int) -> bool {
    name_less(keys[a], keys[b]) || (keys[a] == keys[b] && a < b)
}

/// Of two nodes, one comes before the other; never both; and what comes
/// before an earlier node comes before a later one.
pub proof fn lemma_earlier_is_an_order(keys: Seq<Seq<Seq<char>>>, a: int, b: int, c: int)
    ensures
        a != b ==> earlier(keys, a, b) || earlier(keys, b, a),
        !(earlier(keys, a, b) && earlier(keys, b, a)),
        earlier(keys, a, b) && earlier(keys, b, c) ==> earlier(keys, a, c),
{
    let (x, y, z) = (keys[a], keys[b], keys[c]);
    lemma_name_total(x, y, 0);
    if same_from(x, y, 0) {
        assert(x =~= y);
    }
    lemma_name_irreflexive(x, 0);
    if name_less(x, y) && name_less(y, x) {
        lemma_name_transitive(x, y, x, 0);
    }
    if name_less(x, y) && name_less(y, z) {
        lemma_name_transitive(x, y, z, 0);
    }
}

/// Whether the text `a` comes before the text `b`.
pub fn text_precedes(a: &str, b: &str) -> (r: bool)
    ensures
        r == text_less(a@, b@),
{
    let n = a.unicode_len();
    let m = b.unicode_len();
    let mut i: usize = 0;
    while i < n && i < m
        invariant
            n == a@.len(),
            m == b@.len(),
            i <= n,
            i <= m,
            text_less(a@, b@) == text_less_from(a@, b@, i as int),
        decreases n - i,
    {
        let x = a.get_char(i);
        let y = b.get_char(i);
        if x != y {
            return (x as u32) < (y as u32);
        }
        i = i + 1;
    }
    i < m
}

/// Whether the name `a` comes before the name `b`.
pub fn precedes(a: &Name, b: &Name) -> (r: bool)
    ensures
        r == name_less(a@, b@),
{
    let n = a.0.len();
    let m = b.0.len();
    let mut i: usize = 0;
    while i < n && i < m
        invariant
            n == a@.len(),
            m == b@.len(),
            i <= n,
            i <= m,
            name_less(a@, b@) == name_less_from(a@, b@, i as int),
        decreases n - i,
    {
        if a.0[i] != b.0[i] {
            return text_precedes(a.0[i].as_str(), b.0[i].as_str());
        }
        i = i + 1;
    }
    i < m
}

} // verus!
