//! Qualified names: an ordered sequence of segments, absolute when the first
//! segment is empty.

use vstd::prelude::*;
use vstd::string::*;
use vstd::std_specs::cmp::PartialEqSpecImpl;
use vstd::std_specs::convert::FromSpecImpl;
use crate::text::{join, join_from, path_sep, split_path, split_segments, strs};

verus! {

/// A qualified identifier. `Name(vec!["", "net", "http"])` is the absolute
/// name `::net::http`; `Name(vec!["http"])` is relative.
#[derive(Debug, Eq, PartialOrd, Ord, Hash)]
pub struct Name(pub Vec<String>);

impl View for Name {
    type V = Seq<Seq<char>>;

    open spec fn view(&self) -> Seq<Seq<char>> {
        strs(self.0@)
    }
}

/// The views of a sequence of names.
pub open spec fn views(v: Seq<Name>) -> Seq<Seq<Seq<char>>> {
    Seq::new(v.len(), |i: int| v[i]@)
}

/// A name is absolute iff it has a first segment and that segment is empty.
pub open spec fn is_absolute_name(n: Seq<Seq<char>>) -> bool {
    n.len() > 0 && n[0].len() == 0
}

/// The display form for people: the segments joined by `::`, without the
/// leading empty segment of an absolute name.
pub open spec fn human_form(n: Seq<Seq<char>>) -> Seq<char> {
    if is_absolute_name(n) {
        join(n.subrange(1, n.len() as int), path_sep())
    } else {
        join(n, path_sep())
    }
}

/// The view of the literal `::` is the path separator.
pub proof fn lemma_sep_literal()
    ensures
        "::"@ == path_sep(),
{
    reveal_strlit("::");
    assert("::"@ =~= path_sep());
}

impl Name {
    /// Appends the segments of `v`, which is split at each `::`.
    pub fn push(&mut self, v: String)
        ensures
            final(self)@ == old(self)@ + split_path(v@),
    {
        let mut parts = split_segments(v.as_str());
        proof {
            assert(strs(self.0@ + parts@) == strs(self.0@) + strs(parts@));
        }
        self.0.append(&mut parts);
    }

    /// Removes and returns the last segment, if there is one.
    pub fn pop(&mut self) -> (last: Option<String>)
        ensures
            old(self)@.len() == 0 ==> last is None && final(self)@ == old(self)@,
            old(self)@.len() > 0 ==> last is Some && last->0@ == old(self)@.last() && final(self)@
                == old(self)@.drop_last(),
    {
        let last = self.0.pop();
        proof {
            if old(self)@.len() > 0 {
                assert(strs(self.0@) == strs(old(self).0@).drop_last());
            } else {
                assert(strs(self.0@) == strs(old(self).0@));
            }
        }
        last
    }

    /// The number of segments.
    pub fn len(&self) -> (n: usize)
        ensures
            n == self@.len(),
    {
        self.0.len()
    }

    pub fn is_absolute(&self) -> (b: bool)
        ensures
            b == is_absolute_name(self@),
    {
        if self.0.len() > 0 {
            self.0[0].as_str().unicode_len() == 0
        } else {
            false
        }
    }

    pub fn human_name(&self) -> (out: String)
        ensures
            out@ == human_form(self@),
    {
        proof {
            lemma_sep_literal();
            assert(self@.subrange(0, self@.len() as int) == self@);
        }
        if self.is_absolute() {
            join_from(&self.0, 1, "::")
        } else {
            join_from(&self.0, 0, "::")
        }
    }

    /// All segments joined by `::`; an absolute name starts with `::`.
    pub fn to_string(&self) -> (out: String)
        ensures
            out@ == join(self@, path_sep()),
    {
        proof {
            lemma_sep_literal();
            assert(self@.subrange(0, self@.len() as int) == self@);
        }
        join_from(&self.0, 0, "::")
    }

    /// The name written as `s`, split at each `::`.
    pub fn parse(s: &str) -> (n: Name)
        ensures
            n@ == split_path(s@),
    {
        Name(split_segments(s))
    }
}

impl Clone for Name {
    fn clone(&self) -> (n: Name)
        ensures
            n@ == self@,
    {
        let mut segs: Vec<String> = Vec::new();
        let mut i: usize = 0;
        while i < self.0.len()
            invariant
                i <= self.0.len(),
                strs(segs@) == self@.subrange(0, i as int),
            decreases self.0.len() - i,
        {
            proof {
                assert(self@.subrange(0, i as int).push(self.0@[i as int]@) == self@.subrange(
                    0,
                    i + 1,
                ));
                assert(strs(segs@.push(self.0@[i as int])) == strs(segs@).push(self.0@[i as int]@));
            }
            segs.push(self.0[i].clone());
            i = i + 1;
        }
        proof {
            assert(self@.subrange(0, i as int) == self@);
        }
        Name(segs)
    }
}

impl Default for Name {
    fn default() -> (n: Name)
        ensures
            n@ == Seq::<Seq<char>>::empty(),
    {
        let n = Name(Vec::new());
        proof {
            assert(n@ == Seq::<Seq<char>>::empty());
        }
        n
    }
}

impl PartialEq for Name {
    fn eq(&self, other: &Name) -> (r: bool) {
        if self.0.len() != other.0.len() {
            proof {
                assert(self@.len() != other@.len());
            }
            return false;
        }
        let mut i: usize = 0;
        while i < self.0.len()
            invariant
                self.0.len() == other.0.len(),
                i <= self.0.len(),
                forall|k: int| 0 <= k < i ==> self@[k] == other@[k],
            decreases self.0.len() - i,
        {
            if self.0[i] != other.0[i] {
                proof {
                    assert(self@[i as int] != other@[i as int]);
                }
                return false;
            }
            i = i + 1;
        }
        proof {
            assert(self@ =~= other@);
        }
        true
    }
}

impl PartialEqSpecImpl for Name {
    open spec fn obeys_eq_spec() -> bool {
        true
    }

    open spec fn eq_spec(&self, other: &Name) -> bool {
        self@ == other@
    }
}

impl<'a> From<&'a str> for Name {
    /// The name that the text writes: its segments between `::`.
    fn from(s: &'a str) -> (n: Name)
        ensures
            n@ == split_path(s@),
    {
        Name::parse(s)
    }
}

impl<'a> FromSpecImpl<&'a str> for Name {
    open spec fn obeys_from_spec() -> bool {
        false
    }

    open spec fn from_spec(s: &'a str) -> Name {
        choose|n: Name| n@ == split_path(s@)
    }
}

impl<'a> From<&'a String> for Name {
    /// The name that the text writes: its segments between `::`.
    fn from(s: &'a String) -> (n: Name)
        ensures
            n@ == split_path(s@),
    {
        Name::parse(s.as_str())
    }
}

impl<'a> FromSpecImpl<&'a String> for Name {
    open spec fn obeys_from_spec() -> bool {
        false
    }

    open spec fn from_spec(s: &'a String) -> Name {
        choose|n: Name| n@ == split_path(s@)
    }
}

} // verus!
