//! Association lists keyed by text. A list stands for a finite map; where a
//! key occurs more than once, its last entry is the one that counts.

use vstd::prelude::*;
use vstd::string::*;

verus! {

/// The value that `entries` holds for `key`: that of the last entry with it.
pub open spec fn lookup<V>(entries: Seq<(String, V)>, key: Seq<char>) -> Option<V>
    decreases entries.len(),
{
    if entries.len() == 0 {
        None
    } else if entries.last().0@ == key {
        Some(entries.last().1)
    } else {
        lookup(entries.drop_last(), key)
    }
}

/// The finite map that `entries` stands for.
pub open spec fn as_map<V>(entries: Seq<(String, V)>) -> Map<Seq<char>, V> {
    Map::new(|k: Seq<char>| lookup(entries, k) is Some, |k: Seq<char>| lookup(entries, k)->0)
}

/// Whether two texts are equal.
pub(crate) fn str_eq(a: &str, b: &str) -> (same: bool)
    ensures
        same == (a@ == b@),
{
    String::from_str(a) == String::from_str(b)
}

pub proof fn lemma_lookup_none<V>(entries: Seq<(String, V)>, key: Seq<char>)
    ensures
        lookup(entries, key) is None <==> forall|i: int|
            0 <= i < entries.len() ==> entries[i].0@ != key,
    decreases entries.len(),
{
    if entries.len() > 0 {
        lemma_lookup_none(entries.drop_last(), key);
        if lookup(entries, key) is None {
            assert forall|i: int| 0 <= i < entries.len() implies entries[i].0@ != key by {
                if i < entries.len() - 1 {
                    assert(entries.drop_last()[i] == entries[i]);
                }
            }
        } else if entries.last().0@ != key {
            let i = choose|i: int|
                0 <= i < entries.drop_last().len() && entries.drop_last()[i].0@ == key;
            assert(entries[i].0@ == key);
        }
    }
}

/// Removing one entry leaves every other key's value as it was.
pub proof fn lemma_lookup_remove<V>(entries: Seq<(String, V)>, i: int, key: Seq<char>)
    requires
        0 <= i < entries.len(),
        entries[i].0@ != key,
    ensures
        lookup(entries.remove(i), key) == lookup(entries, key),
    decreases entries.len(),
{
    let rest = entries.remove(i);
    if i == entries.len() - 1 {
        assert(rest == entries.drop_last());
    } else {
        assert(rest.last() == entries.last());
        assert(rest.drop_last() == entries.drop_last().remove(i));
        if entries.last().0@ != key {
            lemma_lookup_remove(entries.drop_last(), i, key);
        }
    }
}

/// The index of the last entry with `key`, if there is one.
pub fn find<V>(entries: &Vec<(String, V)>, key: &str) -> (at: Option<usize>)
    ensures
        at is None <==> lookup(entries@, key@) is None,
        at matches Some(i) ==> i < entries.len() && entries@[i as int].0@ == key@ && lookup(
            entries@,
            key@,
        ) == Some(entries@[i as int].1),
{
    let mut i: usize = entries.len();
    proof {
        assert(entries@.subrange(0, i as int) == entries@);
    }
    while i > 0
        invariant
            i <= entries.len(),
            lookup(entries@, key@) == lookup(entries@.subrange(0, i as int), key@),
        decreases i,
    {
        proof {
            let head = entries@.subrange(0, i as int);
            assert(head.last() == entries@[i - 1]);
            assert(head.drop_last() == entries@.subrange(0, i - 1));
        }
        if str_eq(entries[i - 1].0.as_str(), key) {
            return Some(i - 1);
        }
        i = i - 1;
    }
    None
}

/// Takes every entry with `key` out of the list.
pub fn remove_key<V>(entries: &mut Vec<(String, V)>, key: &str)
    ensures
        as_map(final(entries)@) == as_map(old(entries)@).remove(key@),
{
    loop
        invariant
            forall|q: Seq<char>| q != key@ ==> lookup(entries@, q) == lookup(old(entries)@, q),
        ensures
            lookup(entries@, key@) is None,
        decreases entries.len(),
    {
        match find(entries, key) {
            None => {
                break ;
            },
            Some(i) => {
                proof {
                    assert forall|q: Seq<char>| q != key@ implies lookup(entries@.remove(i as int), q)
                        == lookup(old(entries)@, q) by {
                        lemma_lookup_remove(entries@, i as int, q);
                    }
                }
                entries.remove(i);
            },
        }
    }
    proof {
        assert(as_map(entries@) =~= as_map(old(entries)@).remove(key@));
    }
}

/// Sets the value of `key`, replacing the one it had.
pub fn put<V>(entries: &mut Vec<(String, V)>, key: String, value: V)
    ensures
        as_map(final(entries)@) == as_map(old(entries)@).insert(key@, value),
{
    remove_key(entries, key.as_str());
    let ghost before = entries@;
    entries.push((key, value));
    proof {
        assert(entries@.drop_last() == before);
        assert forall|q: Seq<char>| #[trigger] lookup(entries@, q) == (if q == key@ {
            Some(value)
        } else {
            lookup(before, q)
        }) by {}
        assert forall|q: Seq<char>| q != key@ implies (lookup(before, q) is Some) == (lookup(
            old(entries)@,
            q,
        ) is Some) && lookup(before, q)->0 == lookup(old(entries)@, q)->0 by {
            assert(as_map(before).dom().contains(q) == as_map(old(entries)@).remove(
                key@,
            ).dom().contains(q));
            if lookup(before, q) is Some {
                assert(as_map(before)[q] == as_map(old(entries)@).remove(key@)[q]);
            }
        }
        assert(as_map(entries@) =~= as_map(old(entries)@).insert(key@, value));
    }
}

} // verus!
