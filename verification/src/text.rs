//! Text helpers shared by the other modules: joining, splitting on the path
//! separator, and number formatting, all stated over sequences of characters.

use vstd::prelude::*;
use vstd::string::*;

verus! {

/// The views of a sequence of strings.
pub open spec fn strs(v: Seq<String>) -> Seq<Seq<char>> {
    Seq::new(v.len(), |i: int| v[i]@)
}

/// `parts` written one after another, with `sep` between neighbours.
pub open spec fn join(parts: Seq<Seq<char>>, sep: Seq<char>) -> Seq<char>
    decreases parts.len(),
{
    if parts.len() == 0 {
        Seq::empty()
    } else if parts.len() == 1 {
        parts[0]
    } else {
        join(parts.drop_last(), sep) + sep + parts.last()
    }
}

/// The path separator `::`.
pub open spec fn path_sep() -> Seq<char> {
    seq![':', ':']
}

/// Whether the separator `::` starts at position `i` of `s`.
pub open spec fn sep_at(s: Seq<char>, i: int) -> bool {
    0 <= i && i + 1 < s.len() && s[i] == ':' && s[i + 1] == ':'
}

/// The position of the leftmost separator in `s` at or after `from`, or
/// `s.len()` where there is none.
pub open spec fn next_sep(s: Seq<char>, from: int) -> int
    decreases s.len() - from,
{
    if from < 0 || from >= s.len() {
        s.len() as int
    } else if sep_at(s, from) {
        from
    } else {
        next_sep(s, from + 1)
    }
}

/// The pieces of `s` between separators, found left to right without overlap:
/// `a::b` gives `a`, `b`; a text without separator gives itself.
pub open spec fn split_path(s: Seq<char>) -> Seq<Seq<char>>
    decreases s.len(),
{
    let i = next_sep(s, 0);
    if 0 <= i && i + 2 <= s.len() {
        seq![s.subrange(0, i)] + split_path(s.subrange(i + 2, s.len() as int))
    } else {
        seq![s]
    }
}

/// The character of the decimal digit `d`.
pub open spec fn digit_char(d: nat) -> char {
    if d == 0 {
        '0'
    } else if d == 1 {
        '1'
    } else if d == 2 {
        '2'
    } else if d == 3 {
        '3'
    } else if d == 4 {
        '4'
    } else if d == 5 {
        '5'
    } else if d == 6 {
        '6'
    } else if d == 7 {
        '7'
    } else if d == 8 {
        '8'
    } else {
        '9'
    }
}

/// `n` in decimal, without leading zeros.
pub open spec fn decimal(n: nat) -> Seq<char>
    decreases n,
{
    if n < 10 {
        seq![digit_char(n)]
    } else {
        decimal(n / 10).push(digit_char(n % 10))
    }
}

/// Appends one character. The contract restates `String::push`: the text grows
/// by exactly that character at its end.
#[verifier::external_body]
pub(crate) fn push_char(s: &mut String, c: char)
    ensures
        final(s)@ == old(s)@.push(c),
{
    s.push(c);
}

pub proof fn lemma_next_sep_bounds(s: Seq<char>, from: int)
    requires
        0 <= from <= s.len(),
    ensures
        from <= next_sep(s, from) <= s.len(),
        next_sep(s, from) < s.len() ==> sep_at(s, next_sep(s, from)),
        forall|k: int| from <= k < next_sep(s, from) ==> !sep_at(s, k),
    decreases s.len() - from,
{
    if from < s.len() && !sep_at(s, from) {
        lemma_next_sep_bounds(s, from + 1);
    }
}

/// `split_path` on a text whose leftmost separator stands at `j`.
pub proof fn lemma_split_at_sep(s: Seq<char>, j: int)
    requires
        sep_at(s, j),
        forall|k: int| 0 <= k < j ==> !sep_at(s, k),
    ensures
        split_path(s) == seq![s.subrange(0, j)] + split_path(s.subrange(j + 2, s.len() as int)),
{
    lemma_next_sep_is(s, 0, j);
}

/// A text always splits into at least one piece.
pub proof fn lemma_split_nonempty(s: Seq<char>)
    ensures
        split_path(s).len() >= 1,
{
}

/// `split_path` on a text that holds no separator.
pub proof fn lemma_split_no_sep(s: Seq<char>)
    requires
        forall|k: int| 0 <= k < s.len() ==> !sep_at(s, k),
    ensures
        split_path(s) == seq![s],
{
    lemma_next_sep_bounds(s, 0);
}

proof fn lemma_next_sep_is(s: Seq<char>, from: int, j: int)
    requires
        0 <= from <= j,
        sep_at(s, j),
        forall|k: int| from <= k < j ==> !sep_at(s, k),
    ensures
        next_sep(s, from) == j,
    decreases j - from,
{
    if from < j {
        lemma_next_sep_is(s, from + 1, j);
    }
}

/// Splits `s` at each `::`, as `str::split` does.
pub fn split_segments(s: &str) -> (out: Vec<String>)
    ensures
        strs(out@) == split_path(s@),
{
    let n: usize = s.unicode_len();
    let mut out: Vec<String> = Vec::new();
    let mut cur = String::new();
    let mut i: usize = 0;
    let ghost mut start: int = 0;
    proof {
        assert(s@.subrange(0, n as int) == s@);
        assert(strs(out@) + split_path(s@) == split_path(s@));
    }
    while i < n
        invariant
            n == s@.len(),
            0 <= start <= i <= n,
            cur@ == s@.subrange(start, i as int),
            forall|k: int| 0 <= k < i - start ==> !sep_at(s@.subrange(start, n as int), k),
            strs(out@) + split_path(s@.subrange(start, n as int)) == split_path(s@),
        decreases n - i,
    {
        let c = s.get_char(i);
        let ghost rest = s@.subrange(start, n as int);
        if c == ':' && i + 1 < n && s.get_char(i + 1) == ':' {
            proof {
                assert(sep_at(rest, i - start));
                lemma_split_at_sep(rest, i - start);
                assert(rest.subrange(0, i - start) == cur@);
                assert(rest.subrange(i - start + 2, rest.len() as int) == s@.subrange(
                    i + 2,
                    n as int,
                ));
                assert(strs(out@.push(cur)) == strs(out@) + seq![cur@]);
            }
            out.push(cur);
            cur = String::new();
            i = i + 2;
            proof {
                start = i as int;
                assert(cur@ == s@.subrange(start, i as int));
            }
        } else {
            proof {
                assert(!sep_at(rest, i - start));
                assert(s@.subrange(start, i as int).push(c) == s@.subrange(start, i + 1));
            }
            push_char(&mut cur, c);
            i = i + 1;
        }
    }
    proof {
        let rest = s@.subrange(start, n as int);
        lemma_split_no_sep(rest);
        assert(cur@ == rest);
        assert(strs(out@.push(cur)) == strs(out@) + seq![cur@]);
    }
    out.push(cur);
    out
}

/// The strings of `parts` from index `from` on, joined by `sep`.
pub fn join_from(parts: &Vec<String>, from: usize, sep: &str) -> (out: String)
    requires
        from <= parts.len(),
    ensures
        out@ == join(strs(parts@).subrange(from as int, parts.len() as int), sep@),
{
    let mut out = String::new();
    let mut i: usize = from;
    while i < parts.len()
        invariant
            from <= i <= parts.len(),
            out@ == join(strs(parts@).subrange(from as int, i as int), sep@),
        decreases parts.len() - i,
    {
        proof {
            let all = strs(parts@);
            let next = all.subrange(from as int, i + 1);
            assert(next.drop_last() == all.subrange(from as int, i as int));
            assert(next.last() == parts@[i as int]@);
            if i > from {
                assert(all.subrange(from as int, i as int).len() > 0);
            } else {
                assert(Seq::<char>::empty() + parts@[i as int]@ == parts@[i as int]@);
            }
        }
        if i > from {
            out.append(sep);
        }
        out.append(parts[i].as_str());
        i = i + 1;
    }
    proof {
        assert(strs(parts@).subrange(from as int, i as int) == strs(parts@).subrange(
            from as int,
            parts.len() as int,
        ));
    }
    out
}

/// The character of a digit below ten.
pub fn digit(d: u8) -> (c: char)
    requires
        d < 10,
    ensures
        c == digit_char(d as nat),
{
    if d == 0 {
        '0'
    } else if d == 1 {
        '1'
    } else if d == 2 {
        '2'
    } else if d == 3 {
        '3'
    } else if d == 4 {
        '4'
    } else if d == 5 {
        '5'
    } else if d == 6 {
        '6'
    } else if d == 7 {
        '7'
    } else if d == 8 {
        '8'
    } else {
        '9'
    }
}

/// Appends `n` in decimal.
pub fn push_decimal(out: &mut String, n: u64)
    ensures
        final(out)@ == old(out)@ + decimal(n as nat),
    decreases n,
{
    if n >= 10 {
        push_decimal(out, n / 10);
    }
    let d: u8 = (n % 10) as u8;
    push_char(out, digit(d));
    proof {
        if n >= 10 {
            assert((old(out)@ + decimal((n / 10) as nat)).push(digit_char((n % 10) as nat))
                =~= old(out)@ + decimal(n as nat));
        } else {
            assert(old(out)@.push(digit_char(n as nat)) =~= old(out)@ + decimal(n as nat));
        }
    }
}

/// A copy of a list of strings.
pub fn copy_strings(v: &Vec<String>) -> (out: Vec<String>)
    ensures
        strs(out@) == strs(v@),
{
    let mut out: Vec<String> = Vec::new();
    let mut i: usize = 0;
    while i < v.len()
        invariant
            i <= v.len(),
            out@.len() == i,
            forall|k: int| 0 <= k < i ==> out@[k]@ == v@[k]@,
        decreases v.len() - i,
    {
        out.push(v[i].clone());
        i = i + 1;
    }
    proof {
        assert(strs(out@) =~= strs(v@));
    }
    out
}

} // verus!
