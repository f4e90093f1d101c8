//! From parse trees to syntax trees: what each form of the grammar stands
//! for.

use vstd::prelude::*;
use vstd::string::*;
use vstd::utf8::encode_utf8;
use crate::ast::{
    AnonArg, Array, Block, Def, Expression, Field, Import, Include, InfixOperator, Local,
    Location, Module, NamedArg, Pointer, PostfixOperator, PrefixOperator, Statement, Storage,
    Tags, Tail, Type, Typed, Visibility,
};
use crate::name::Name;
use crate::parser::{
    infix_of, infix_operator, lowers, postfix_of, postfix_operator, prefix_of, prefix_operator,
    sooner, unescape, unescaped, Node, ParseError, Rule,
};
use crate::text::{split_path, strs};

verus! {

/// A pick of an import, as plain values: the symbol, and the identifier it is
/// imported as where one is given.
pub type Pick = (Seq<char>, Option<Seq<char>>);

pub open spec fn picks_of(v: Seq<(String, Option<String>)>) -> Seq<Pick> {
    Seq::new(
        v.len(),
        |i: int|
            (
                v[i].0@,
                match v[i].1 {
                    Some(a) => Some(a@),
                    None => None,
                },
            ),
    )
}

/// Why one pick `name` or `name as other` is malformed, if it is.
pub open spec fn pick_fault(item: Node) -> Option<ParseError> {
    if item.rule != Rule::local_i {
        Some(ParseError::Unexpected(item.rule, item.loc))
    } else if item.children@.len() == 0 {
        Some(ParseError::Missing(item.loc))
    } else if item.children@[0].rule == Rule::ident {
        None
    } else if item.children@[0].rule == Rule::qident {
        if item.children@[0].children@.len() == 0 {
            Some(ParseError::Missing(item.children@[0].loc))
        } else {
            None
        }
    } else {
        Some(ParseError::Unexpected(item.children@[0].rule, item.children@[0].loc))
    }
}

/// What one pick stands for: the symbol, written plainly or quoted, and the
/// identifier after it where there is one.
pub open spec fn pick_of(item: Node) -> Pick {
    (
        if item.children@[0].rule == Rule::ident {
            item.children@[0].text@
        } else {
            item.children@[0].children@[0].text@
        },
        if item.children@.len() > 1 {
            Some(item.children@[1].text@)
        } else {
            None
        },
    )
}

pub open spec fn picks_fault(items: Seq<Node>, n: nat) -> Option<ParseError>
    decreases n,
{
    if n == 0 || n > items.len() {
        None
    } else {
        sooner(picks_fault(items, (n - 1) as nat), pick_fault(items[n - 1]))
    }
}

pub open spec fn picks_in(items: Seq<Node>, n: nat) -> Seq<Pick>
    decreases n,
{
    if n == 0 || n > items.len() {
        Seq::empty()
    } else {
        picks_in(items, (n - 1) as nat).push(pick_of(items[n - 1]))
    }
}

/// Why the path of an import is malformed, if it is: the first part that is
/// no identifier, no list of picks and no nested path, or the first malformed
/// pick.
pub open spec fn import_fault(decl: Node) -> Option<ParseError>
    decreases decl, 0nat,
{
    import_parts_fault(decl.children@, decl.children@.len())
}

pub open spec fn import_parts_fault(parts: Seq<Node>, n: nat) -> Option<ParseError>
    decreases parts, n,
{
    if n == 0 || n > parts.len() {
        None
    } else {
        sooner(
            import_parts_fault(parts, (n - 1) as nat),
            if parts[n - 1].rule == Rule::ident {
                None
            } else if parts[n - 1].rule == Rule::local {
                picks_fault(parts[n - 1].children@, parts[n - 1].children@.len())
            } else if parts[n - 1].rule == Rule::type_ref || parts[n - 1].rule == Rule::importname {
                import_fault(parts[n - 1])
            } else {
                Some(ParseError::Unexpected(parts[n - 1].rule, parts[n - 1].loc))
            },
        )
    }
}

/// The segments that the path of an import names, left to right.
pub open spec fn import_segments(decl: Node) -> Seq<Seq<char>>
    decreases decl, 0nat,
{
    import_parts_segments(decl.children@, decl.children@.len())
}

pub open spec fn import_parts_segments(parts: Seq<Node>, n: nat) -> Seq<Seq<char>>
    decreases parts, n,
{
    if n == 0 || n > parts.len() {
        Seq::empty()
    } else {
        import_parts_segments(parts, (n - 1) as nat) + (if parts[n - 1].rule == Rule::ident {
            seq![parts[n - 1].text@]
        } else if parts[n - 1].rule == Rule::type_ref || parts[n - 1].rule == Rule::importname {
            import_segments(parts[n - 1])
        } else {
            Seq::empty()
        })
    }
}

/// The picks that the path of an import lists, left to right.
pub open spec fn import_picks(decl: Node) -> Seq<Pick>
    decreases decl, 0nat,
{
    import_parts_picks(decl.children@, decl.children@.len())
}

pub open spec fn import_parts_picks(parts: Seq<Node>, n: nat) -> Seq<Pick>
    decreases parts, n,
{
    if n == 0 || n > parts.len() {
        Seq::empty()
    } else {
        import_parts_picks(parts, (n - 1) as nat) + (if parts[n - 1].rule == Rule::local {
            picks_in(parts[n - 1].children@, parts[n - 1].children@.len())
        } else if parts[n - 1].rule == Rule::type_ref || parts[n - 1].rule == Rule::importname {
            import_picks(parts[n - 1])
        } else {
            Seq::empty()
        })
    }
}

proof fn lemma_picks_fault(items: Seq<Node>, k: nat, n: nat)
    requires
        k <= n <= items.len(),
    ensures
        picks_fault(items, k) is Some ==> picks_fault(items, n) == picks_fault(items, k),
    decreases n,
{
    if k < n {
        lemma_picks_fault(items, k, (n - 1) as nat);
    }
}

proof fn lemma_import_parts_fault(parts: Seq<Node>, k: nat, n: nat)
    requires
        k <= n <= parts.len(),
    ensures
        import_parts_fault(parts, k) is Some ==> import_parts_fault(parts, n) == import_parts_fault(
            parts,
            k,
        ),
    decreases n,
{
    if k < n {
        lemma_import_parts_fault(parts, k, (n - 1) as nat);
    }
}

fn parse_picks(items: &Vec<Node>, out: &mut Vec<(String, Option<String>)>) -> (r: Result<(), ParseError>)
    ensures
        lowers(
            r,
            picks_fault(items@, items@.len()),
            |u: ()| picks_of(final(out)@) == picks_of(old(out)@) + picks_in(items@, items@.len()),
        ),
{
    let mut i: usize = 0;
    proof {
        assert(picks_of(out@) =~= picks_of(old(out)@) + picks_in(items@, 0));
    }
    while i < items.len()
        invariant
            i <= items.len(),
            picks_fault(items@, i as nat) is None,
            picks_of(out@) == picks_of(old(out)@) + picks_in(items@, i as nat),
        decreases items.len() - i,
    {
        let item = &items[i];
        proof {
            lemma_picks_fault(items@, (i + 1) as nat, items@.len());
        }
        match item.rule {
            Rule::local_i => {},
            _ => {
                return Err(ParseError::Unexpected(item.rule, item.loc.clone()));
            },
        }
        if item.children.len() == 0 {
            return Err(ParseError::Missing(item.loc.clone()));
        }
        let first = &item.children[0];
        let name = match first.rule {
            Rule::ident => first.text.clone(),
            Rule::qident => {
                if first.children.len() == 0 {
                    return Err(ParseError::Missing(first.loc.clone()));
                }
                first.children[0].text.clone()
            },
            _ => {
                return Err(ParseError::Unexpected(first.rule, first.loc.clone()));
            },
        };
        let import_as = if item.children.len() > 1 {
            Some(item.children[1].text.clone())
        } else {
            None
        };
        let ghost before = picks_of(out@);
        out.push((name, import_as));
        proof {
            assert(picks_of(out@) =~= before.push(pick_of(items@[i as int])));
            assert(picks_of(out@) =~= picks_of(old(out)@) + picks_in(items@, (i + 1) as nat));
        }
        i = i + 1;
    }
    Ok(())
}

/// Appends what the path of an import names and lists; see [`import_fault`],
/// [`import_segments`] and [`import_picks`].
fn parse_import_parts(
    decl: &Node,
    segments: &mut Vec<String>,
    picks: &mut Vec<(String, Option<String>)>,
) -> (r: Result<(), ParseError>)
    ensures
        lowers(
            r,
            import_fault(*decl),
            |u: ()|
                strs(final(segments)@) == strs(old(segments)@) + import_segments(*decl) && picks_of(
                    final(picks)@,
                ) == picks_of(old(picks)@) + import_picks(*decl),
        ),
    decreases decl,
{
    let mut i: usize = 0;
    proof {
        assert(strs(segments@) =~= strs(old(segments)@) + import_parts_segments(decl.children@, 0));
        assert(picks_of(picks@) =~= picks_of(old(picks)@) + import_parts_picks(decl.children@, 0));
    }
    while i < decl.children.len()
        invariant
            i <= decl.children.len(),
            import_parts_fault(decl.children@, i as nat) is None,
            strs(segments@) == strs(old(segments)@) + import_parts_segments(decl.children@, i as nat),
            picks_of(picks@) == picks_of(old(picks)@) + import_parts_picks(decl.children@, i as nat),
        decreases decl.children.len() - i,
    {
        let part = &decl.children[i];
        let ghost seg0 = strs(segments@);
        let ghost pick0 = picks_of(picks@);
        proof {
            lemma_import_parts_fault(decl.children@, (i + 1) as nat, decl.children@.len());
        }
        match part.rule {
            Rule::ident => {
                segments.push(part.text.clone());
                proof {
                    assert(strs(segments@) =~= seg0 + seq![part.text@]);
                    assert(pick0 + Seq::<Pick>::empty() =~= pick0);
                }
            },
            Rule::local => {
                match parse_picks(&part.children, picks) {
                    Err(e) => {
                        return Err(e);
                    },
                    Ok(()) => {},
                }
                proof {
                    assert(seg0 + Seq::<Seq<char>>::empty() =~= seg0);
                }
            },
            Rule::type_ref | Rule::importname => {
                match parse_import_parts(part, segments, picks) {
                    Err(e) => {
                        return Err(e);
                    },
                    Ok(()) => {},
                }
            },
            _ => {
                return Err(ParseError::Unexpected(part.rule, part.loc.clone()));
            },
        }
        proof {
            let next = (i + 1) as nat;
            assert(strs(segments@) =~= strs(old(segments)@) + import_parts_segments(
                decl.children@,
                next,
            ));
            assert(picks_of(picks@) =~= picks_of(old(picks)@) + import_parts_picks(
                decl.children@,
                next,
            ));
        }
        i = i + 1;
    }
    Ok(())
}

/// What the path of an import names and lists: the module or symbol, and the
/// picks `{a, b as c}`.
pub fn parse_importname(decl: &Node) -> (r: Result<(Name, Vec<(String, Option<String>)>), ParseError>)
    ensures
        lowers(
            r,
            import_fault(*decl),
            |p: (Name, Vec<(String, Option<String>)>)|
                p.0@ == import_segments(*decl) && picks_of(p.1@) == import_picks(*decl),
        ),
{
    let mut segments: Vec<String> = Vec::new();
    let mut picks: Vec<(String, Option<String>)> = Vec::new();
    proof {
        assert(strs(segments@) =~= Seq::<Seq<char>>::empty());
        assert(picks_of(picks@) =~= Seq::<Pick>::empty());
    }
    match parse_import_parts(decl, &mut segments, &mut picks) {
        Err(e) => Err(e),
        Ok(()) => {
            proof {
                assert(Seq::<Seq<char>>::empty() + import_segments(*decl) =~= import_segments(*decl));
                assert(Seq::<Pick>::empty() + import_picks(*decl) =~= import_picks(*decl));
            }
            Ok((Name(segments), picks))
        },
    }
}

/// A tag as plain values: its key and the place where it was written.
pub type Tag = (Seq<char>, Location);

/// The key of the tag that a part of a type writes: `mut` for the keyword, its
/// text for an identifier; none for a pointer.
pub open spec fn part_key(part: Node) -> Option<Seq<char>> {
    if part.rule == Rule::key_mut {
        Some("mut"@)
    } else if part.rule == Rule::ident {
        Some(part.text@)
    } else {
        None
    }
}

/// The first of the parts `from..to` of a type that is no pointer, no keyword
/// and no identifier.
pub open spec fn parts_fault(parts: Seq<Node>, from: int, to: int) -> Option<ParseError>
    decreases to - from,
{
    if to <= from || to > parts.len() || from < 0 {
        None
    } else {
        sooner(
            parts_fault(parts, from, to - 1),
            if parts[to - 1].rule == Rule::ptr || part_key(parts[to - 1]) is Some {
                None
            } else {
                Some(ParseError::Unexpected(parts[to - 1].rule, parts[to - 1].loc))
            },
        )
    }
}

/// The tags written among the parts `from..to` after the last pointer: those
/// that no pointer has taken up.
pub open spec fn pending(parts: Seq<Node>, from: int, to: int) -> Seq<Tag>
    decreases to - from,
{
    if to <= from || to > parts.len() || from < 0 {
        Seq::empty()
    } else if parts[to - 1].rule == Rule::ptr {
        Seq::empty()
    } else if part_key(parts[to - 1]) is Some {
        pending(parts, from, to - 1).push((part_key(parts[to - 1])->0, parts[to - 1].loc))
    } else {
        pending(parts, from, to - 1)
    }
}

/// The pointers among the parts `from..to`, outermost first, each with its
/// place and the tags written before it.
pub open spec fn pointers(parts: Seq<Node>, from: int, to: int) -> Seq<(Location, Seq<Tag>)>
    decreases to - from,
{
    if to <= from || to > parts.len() || from < 0 {
        Seq::empty()
    } else if parts[to - 1].rule == Rule::ptr {
        pointers(parts, from, to - 1).push((parts[to - 1].loc, pending(parts, from, to - 1)))
    } else {
        pointers(parts, from, to - 1)
    }
}

/// The tags that the first `n` of a list of tags make: each key with one
/// value, the empty text, at the place of its last writing.
pub open spec fn tags_map(tags: Seq<Tag>, n: nat) -> Map<Seq<char>, Map<Seq<char>, Location>>
    decreases n,
{
    if n == 0 || n > tags.len() {
        Map::empty()
    } else {
        let m = tags_map(tags, (n - 1) as nat);
        m.insert(
            tags[n - 1].0,
            (if m.contains_key(tags[n - 1].0) {
                m[tags[n - 1].0]
            } else {
                Map::empty()
            }).insert(Seq::empty(), tags[n - 1].1),
        )
    }
}

/// Whether the pointer layers are those written: as many, each at its place
/// and with its tags.
pub open spec fn pointers_match(ptr: Seq<Pointer>, want: Seq<(Location, Seq<Tag>)>) -> bool {
    ptr.len() == want.len() && forall|j: int|
        0 <= j < ptr.len() ==> (#[trigger] ptr[j]).loc == want[j].0 && ptr[j].tags@ == tags_map(
            want[j].1,
            want[j].1.len(),
        )
}

/// Whether `typed` is the type that the node writes with its parts up to
/// `to`: named by the first part, with the pointers among the rest.
pub open spec fn typed_of(node: Node, typed: Typed, to: int) -> bool {
    typed.name@ == split_path(node.children@[0].text@) && typed.t == Type::Other && typed.loc
        == node.loc && pointers_match(typed.ptr@, pointers(node.children@, 1, to))
}

/// Why a type without a name to bind is malformed, if it is.
pub open spec fn anon_fault(node: Node) -> Option<ParseError> {
    if node.rule != Rule::anon_type {
        Some(ParseError::Unexpected(node.rule, node.loc))
    } else if node.children@.len() == 0 {
        Some(ParseError::Missing(node.loc))
    } else {
        sooner(
            parts_fault(node.children@, 1, node.children@.len() as int),
            if pending(node.children@, 1, node.children@.len() as int).len() > 0 {
                Some(
                    ParseError::AnonymousTypeTags(
                        pending(node.children@, 1, node.children@.len() as int)[0].1,
                    ),
                )
            } else {
                None
            },
        )
    }
}

/// A declared name with its type and the tags written on it.
#[derive(Debug)]
pub struct TypedName {
    pub name: String,
    pub typed: Typed,
    pub tags: Tags,
    /// The place of the first tag, where there is one.
    pub tagged_at: Option<Location>,
}

/// Why a type with a name is malformed, if it is.
pub open spec fn named_fault(node: Node) -> Option<ParseError> {
    if node.rule != Rule::named_type {
        Some(ParseError::Unexpected(node.rule, node.loc))
    } else if node.children@.len() < 2 {
        Some(ParseError::Missing(node.loc))
    } else if node.children@.last().rule != Rule::ident {
        Some(ParseError::ExpectedName(node.children@.last().loc))
    } else {
        parts_fault(node.children@, 1, node.children@.len() - 1)
    }
}

/// Whether `r` is what a type with a name writes: the name is the last part,
/// the type is named by the first, and the tags are those that no pointer took
/// up.
pub open spec fn named_of(node: Node, r: TypedName) -> bool {
    r.name@ == node.children@.last().text@ && typed_of(node, r.typed, node.children@.len() - 1)
        && r.tags@ == tags_map(
        pending(node.children@, 1, node.children@.len() - 1),
        pending(node.children@, 1, node.children@.len() - 1).len(),
    ) && r.tagged_at == (if pending(node.children@, 1, node.children@.len() - 1).len() > 0 {
        Some(pending(node.children@, 1, node.children@.len() - 1)[0].1)
    } else {
        None
    })
}

/// The tags that a list makes depend on its first `n` entries only.
proof fn lemma_tags_prefix(a: Seq<Tag>, b: Seq<Tag>, n: nat)
    requires
        n <= a.len(),
        n <= b.len(),
        forall|i: int| 0 <= i < n ==> a[i] == b[i],
    ensures
        tags_map(a, n) == tags_map(b, n),
    decreases n,
{
    if n > 0 {
        lemma_tags_prefix(a, b, (n - 1) as nat);
    }
}

proof fn lemma_parts_fault(parts: Seq<Node>, from: int, k: int, n: int)
    requires
        0 <= from <= k <= n <= parts.len(),
    ensures
        parts_fault(parts, from, k) is Some ==> parts_fault(parts, from, n) == parts_fault(
            parts,
            from,
            k,
        ),
    decreases n - k,
{
    if k < n {
        lemma_parts_fault(parts, from, k, n - 1);
    }
}

/// The pointers and the pending tags among the parts `from..to`, with the
/// place of the first pending tag.
fn parse_type_parts(parts: &Vec<Node>, from: usize, to: usize) -> (r: Result<
    (Vec<Pointer>, Tags, Option<Location>),
    ParseError,
>)
    requires
        from <= to <= parts.len(),
    ensures
        lowers(
            r,
            parts_fault(parts@, from as int, to as int),
            |p: (Vec<Pointer>, Tags, Option<Location>)|
                pointers_match(p.0@, pointers(parts@, from as int, to as int)) && p.1@ == tags_map(
                    pending(parts@, from as int, to as int),
                    pending(parts@, from as int, to as int).len(),
                ) && (p.2 is Some <==> pending(parts@, from as int, to as int).len() > 0) && (
                p.2 matches Some(l) ==> l == pending(parts@, from as int, to as int)[0].1),
        ),
{
    let mut ptr: Vec<Pointer> = Vec::new();
    let mut tags = Tags::new();
    let mut first: Option<Location> = None;
    let mut i: usize = from;
    while i < to
        invariant
            from <= i <= to <= parts.len(),
            parts_fault(parts@, from as int, i as int) is None,
            pointers_match(ptr@, pointers(parts@, from as int, i as int)),
            tags@ == tags_map(
                pending(parts@, from as int, i as int),
                pending(parts@, from as int, i as int).len(),
            ),
            first is Some <==> pending(parts@, from as int, i as int).len() > 0,
            first matches Some(l) ==> l == pending(parts@, from as int, i as int)[0].1,
        decreases to - i,
    {
        let part = &parts[i];
        let ghost ptr0 = ptr@;
        let ghost was = pending(parts@, from as int, i as int);
        proof {
            lemma_parts_fault(parts@, from as int, i + 1, to as int);
        }
        match part.rule {
            Rule::ptr => {
                ptr.push(Pointer { loc: part.loc.clone(), tags });
                tags = Tags::new();
                first = None;
                proof {
                    let want = pointers(parts@, from as int, i + 1);
                    assert forall|j: int| 0 <= j < ptr@.len() implies (#[trigger] ptr@[j]).loc
                        == want[j].0 && ptr@[j].tags@ == tags_map(want[j].1, want[j].1.len()) by {
                        if j < ptr0.len() {
                            assert(ptr@[j] == ptr0[j]);
                        }
                    }
                }
            },
            Rule::key_mut => {
                if first.is_none() {
                    first = Some(part.loc.clone());
                }
                tags.insert(String::from_str("mut"), String::new(), part.loc.clone());
                proof {
                    let now = pending(parts@, from as int, i + 1);
                    assert(now.drop_last() =~= was);
                    assert(now[0].1 == first->0);
                    lemma_tags_prefix(now, was, was.len());
                }
            },
            Rule::ident => {
                if first.is_none() {
                    first = Some(part.loc.clone());
                }
                tags.insert(part.text.clone(), String::new(), part.loc.clone());
                proof {
                    let now = pending(parts@, from as int, i + 1);
                    assert(now.drop_last() =~= was);
                    assert(now[0].1 == first->0);
                    lemma_tags_prefix(now, was, was.len());
                }
            },
            _ => {
                return Err(ParseError::Unexpected(part.rule, part.loc.clone()));
            },
        }
        i = i + 1;
    }
    Ok((ptr, tags, first))
}

/// The type that an `anon_type` node writes; see [`anon_fault`] and
/// [`typed_of`].
pub fn parse_anon_type(decl: &Node) -> (r: Result<Typed, ParseError>)
    ensures
        lowers(
            r,
            anon_fault(*decl),
            |t: Typed| typed_of(*decl, t, decl.children@.len() as int),
        ),
{
    match decl.rule {
        Rule::anon_type => {},
        _ => {
            return Err(ParseError::Unexpected(decl.rule, decl.loc.clone()));
        },
    }
    if decl.children.len() == 0 {
        return Err(ParseError::Missing(decl.loc.clone()));
    }
    let name = Name::parse(decl.children[0].text.as_str());
    match parse_type_parts(&decl.children, 1, decl.children.len()) {
        Err(e) => Err(e),
        Ok((ptr, _, Some(l))) => Err(ParseError::AnonymousTypeTags(l)),
        Ok((ptr, _, None)) => Ok(Typed { name, t: Type::Other, loc: decl.loc.clone(), ptr }),
    }
}

/// The name, type and tags that a `named_type` node writes; see
/// [`named_fault`] and [`named_of`].
pub fn parse_named_type(decl: &Node) -> (r: Result<TypedName, ParseError>)
    ensures
        lowers(r, named_fault(*decl), |t: TypedName| named_of(*decl, t)),
{
    match decl.rule {
        Rule::named_type => {},
        _ => {
            return Err(ParseError::Unexpected(decl.rule, decl.loc.clone()));
        },
    }
    let n = decl.children.len();
    if n < 2 {
        return Err(ParseError::Missing(decl.loc.clone()));
    }
    let typename = Name::parse(decl.children[0].text.as_str());
    let last = &decl.children[n - 1];
    let name = match last.rule {
        Rule::ident => last.text.clone(),
        _ => {
            return Err(ParseError::ExpectedName(last.loc.clone()));
        },
    };
    match parse_type_parts(&decl.children, 1, n - 1) {
        Err(e) => Err(e),
        Ok((ptr, tags, tagged_at)) => Ok(
            TypedName {
                name,
                typed: Typed { name: typename, t: Type::Other, loc: decl.loc.clone(), ptr },
                tags,
                tagged_at,
            },
        ),
    }
}

/// Whether a rule is one of those that an expression node may carry.
pub open spec fn is_expr_rule(r: Rule) -> bool {
    r == Rule::lhs || r == Rule::expr || r == Rule::termish
}

/// Whether a rule is that of an operand of an expression.
pub open spec fn is_operand(r: Rule) -> bool {
    r == Rule::unarypre || r == Rule::unarypost || r == Rule::cast || r == Rule::ptr_access || r
        == Rule::member_access || r == Rule::array_access || r == Rule::type_ref || r
        == Rule::number_literal || r == Rule::string_literal || r == Rule::char_literal || r
        == Rule::expr || r == Rule::deref || r == Rule::takeref || r == Rule::call || r
        == Rule::array_init || r == Rule::struct_init
}

/// The operator that waits for its right operand after the first `n` parts
/// of an expression: the position of the last `infix` part since the last
/// operand; `-1` where no part has been read; `-2` where the last operand took
/// it.
pub open spec fn waiting_op(parts: Seq<Node>, n: nat) -> int
    decreases n,
{
    if n == 0 || n > parts.len() {
        -1
    } else if parts[n - 1].rule == Rule::infix {
        n - 1
    } else if is_operand(parts[n - 1].rule) {
        -2
    } else {
        waiting_op(parts, (n - 1) as nat)
    }
}

/// The operands among the first `n` parts of an expression, each with the
/// operator that it took: pairs of positions.
pub open spec fn links(parts: Seq<Node>, n: nat) -> Seq<(int, int)>
    decreases n,
{
    if n == 0 || n > parts.len() {
        Seq::empty()
    } else if is_operand(parts[n - 1].rule) {
        links(parts, (n - 1) as nat).push((waiting_op(parts, (n - 1) as nat), n - 1))
    } else {
        links(parts, (n - 1) as nat)
    }
}

/// The name that a `type_ref` node writes in expression position.
pub open spec fn name_of(part: Node, e: Expression) -> bool {
    e is Name && e->Name_0.name@ == split_path(part.text@) && e->Name_0.t == Type::Other
        && e->Name_0.loc == part.loc && e->Name_0.ptr@.len() == 0
}

/// Why a term, a name or a nested expression, is malformed, if it is.
pub open spec fn term_fault(part: Node) -> Option<ParseError>
    decreases part, 1nat,
{
    if part.rule == Rule::type_ref {
        None
    } else {
        expr_fault(part)
    }
}

/// Whether `e` is what a term writes.
pub open spec fn term_of(part: Node, e: Expression) -> bool
    decreases part, 1nat,
{
    if part.rule == Rule::type_ref {
        name_of(part, e)
    } else {
        expr_of(part, e)
    }
}

/// The bytes between the quotes `q` of a literal, read with their escapes;
/// `None` where the text is not quoted or an escape is malformed.
pub open spec fn quoted(text: Seq<u8>, q: u8) -> Option<Seq<u8>> {
    if text.len() < 2 || text[0] != q || text[text.len() - 1] != q {
        None
    } else {
        unescaped(text.subrange(0, text.len() - 1), 1)
    }
}

/// The first malformed node among the first `n` of a list of expressions.
pub open spec fn exprs_fault(items: Seq<Node>, n: nat) -> Option<ParseError>
    decreases items, n,
{
    if n == 0 || n > items.len() {
        None
    } else {
        sooner(exprs_fault(items, (n - 1) as nat), expr_fault(items[n - 1]))
    }
}

pub open spec fn exprs_of(items: Seq<Node>, out: Seq<Box<Expression>>) -> bool
    decreases items, 0nat,
{
    items.len() == out.len() && forall|i: int|
        0 <= i < items.len() ==> expr_of(items[i], *#[trigger] out[i])
}

/// Why one field initialiser `name: value` is malformed, if it is.
pub open spec fn init_fault(item: Node) -> Option<ParseError>
    decreases item, 0nat,
{
    if item.rule != Rule::struct_init_field {
        Some(ParseError::Unexpected(item.rule, item.loc))
    } else if item.children@.len() < 2 {
        Some(ParseError::Missing(item.loc))
    } else {
        expr_fault(item.children@[1])
    }
}

pub open spec fn inits_fault(items: Seq<Node>, n: nat) -> Option<ParseError>
    decreases items, n,
{
    if n == 0 || n > items.len() {
        None
    } else {
        sooner(inits_fault(items, (n - 1) as nat), init_fault(items[n - 1]))
    }
}

pub open spec fn inits_of(items: Seq<Node>, out: Seq<(String, Box<Expression>)>) -> bool
    decreases items, 0nat,
{
    &&& out.len() == items.len()
    &&& forall|i: int| 0 <= i < items.len() ==> (#[trigger] items[i]).children@.len() >= 2
    &&& forall|i: int|
        0 <= i < items.len() ==> (#[trigger] out[i]).0@ == items[i].children@[0].text@
    &&& forall|i: int|
        0 <= i < items.len() && items[i].children@.len() >= 2 ==> expr_of(
            items[i].children@[1],
            *#[trigger] out[i].1,
        )
}

/// Why an operand is malformed, if it is.
pub open spec fn operand_fault(part: Node) -> Option<ParseError>
    decreases part, 2nat,
{
    if part.rule == Rule::unarypre {
        if part.children@.len() < 2 {
            Some(ParseError::Missing(part.loc))
        } else if prefix_of(part.children@[0].text@) is None {
            Some(ParseError::UnknownOperator(part.children@[0].loc))
        } else {
            term_fault(part.children@[1])
        }
    } else if part.rule == Rule::unarypost {
        if part.children@.len() < 2 {
            Some(ParseError::Missing(part.loc))
        } else {
            sooner(
                term_fault(part.children@[0]),
                if postfix_of(part.children@[1].text@) is None {
                    Some(ParseError::UnknownOperator(part.children@[1].loc))
                } else {
                    None
                },
            )
        }
    } else if part.rule == Rule::cast {
        if part.children@.len() < 2 {
            Some(ParseError::Missing(part.loc))
        } else {
            sooner(anon_fault(part.children@[0]), expr_fault(part.children@[1]))
        }
    } else if part.rule == Rule::ptr_access || part.rule == Rule::member_access {
        if part.children@.len() < 2 {
            Some(ParseError::Missing(part.loc))
        } else {
            term_fault(part.children@[0])
        }
    } else if part.rule == Rule::array_access {
        if part.children@.len() < 2 {
            Some(ParseError::Missing(part.loc))
        } else {
            sooner(
                term_fault(part.children@[0]),
                if part.children@[1].rule != Rule::array {
                    Some(ParseError::Unexpected(part.children@[1].rule, part.children@[1].loc))
                } else if part.children@[1].children@.len() == 0 {
                    Some(ParseError::Missing(part.children@[1].loc))
                } else {
                    expr_fault(part.children@[1].children@[0])
                },
            )
        }
    } else if part.rule == Rule::type_ref || part.rule == Rule::number_literal {
        None
    } else if part.rule == Rule::string_literal {
        if quoted(encode_utf8(part.text@), 34) is None {
            Some(ParseError::BadLiteral(part.loc))
        } else {
            None
        }
    } else if part.rule == Rule::char_literal {
        if quoted(encode_utf8(part.text@), 39) is None || quoted(encode_utf8(part.text@), 39)->0.len()
            != 1 {
            Some(ParseError::BadLiteral(part.loc))
        } else {
            None
        }
    } else if part.rule == Rule::expr {
        expr_fault(part)
    } else if part.rule == Rule::deref || part.rule == Rule::takeref {
        if part.children@.len() < 1 {
            Some(ParseError::Missing(part.loc))
        } else {
            term_fault(part.children@[0])
        }
    } else if part.rule == Rule::call {
        if part.children@.len() < 1 {
            Some(ParseError::Missing(part.loc))
        } else if part.children@.len() < 2 {
            None
        } else {
            exprs_fault(part.children@[1].children@, part.children@[1].children@.len())
        }
    } else if part.rule == Rule::array_init {
        exprs_fault(part.children@, part.children@.len())
    } else if part.rule == Rule::struct_init {
        if part.children@.len() < 1 {
            Some(ParseError::Missing(part.loc))
        } else {
            sooner(
                anon_fault(part.children@[0]),
                inits_fault(
                    part.children@.subrange(1, part.children@.len() as int),
                    (part.children@.len() - 1) as nat,
                ),
            )
        }
    } else {
        Some(ParseError::Unexpected(part.rule, part.loc))
    }
}

/// Whether `e` is what an operand writes.
pub open spec fn operand_of(part: Node, e: Expression) -> bool
    decreases part, 2nat,
{
    if part.rule == Rule::unarypre {
        part.children@.len() >= 2 && (e matches Expression::UnaryPre { loc, op, expr } && loc
            == part.loc && Some(op) == prefix_of(part.children@[0].text@) && term_of(
            part.children@[1],
            *expr,
        ))
    } else if part.rule == Rule::unarypost {
        part.children@.len() >= 2 && (e matches Expression::UnaryPost { loc, op, expr } && loc
            == part.loc && Some(op) == postfix_of(part.children@[1].text@) && term_of(
            part.children@[0],
            *expr,
        ))
    } else if part.rule == Rule::cast {
        part.children@.len() >= 2 && (e matches Expression::Cast { loc, into, expr } && loc
            == part.loc && typed_of(
            part.children@[0],
            into,
            part.children@[0].children@.len() as int,
        ) && expr_of(part.children@[1], *expr))
    } else if part.rule == Rule::ptr_access || part.rule == Rule::member_access {
        part.children@.len() >= 2 && (e matches Expression::MemberAccess { loc, lhs, op, rhs }
            && loc == part.loc && op@ == (
        if part.rule == Rule::ptr_access {
            "->"@
        } else {
            "."@
        }) && rhs@ == part.children@[1].text@ && term_of(part.children@[0], *lhs))
    } else if part.rule == Rule::array_access {
        part.children@.len() >= 2 && part.children@[1].children@.len() >= 1
            && (e matches Expression::ArrayAccess { loc, lhs, rhs } && loc == part.loc && term_of(
            part.children@[0],
            *lhs,
        ) && expr_of(part.children@[1].children@[0], *rhs))
    } else if part.rule == Rule::type_ref {
        name_of(part, e)
    } else if part.rule == Rule::number_literal {
        e matches Expression::Literal { loc, v } && loc == part.loc && v@ == part.text@
    } else if part.rule == Rule::string_literal {
        e matches Expression::LiteralString { loc, v } && loc == part.loc && Some(v@) == quoted(
            encode_utf8(part.text@),
            34,
        )
    } else if part.rule == Rule::char_literal {
        e matches Expression::LiteralChar { loc, v } && loc == part.loc && Some(seq![v]) == quoted(
            encode_utf8(part.text@),
            39,
        )
    } else if part.rule == Rule::expr {
        expr_of(part, e)
    } else if part.rule == Rule::deref || part.rule == Rule::takeref {
        part.children@.len() >= 1 && (e matches Expression::UnaryPre { loc, op, expr } && loc
            == part.loc && op == (if part.rule == Rule::deref {
            PrefixOperator::Deref
        } else {
            PrefixOperator::AddressOf
        }) && term_of(part.children@[0], *expr))
    } else if part.rule == Rule::call {
        part.children@.len() >= 1 && (e matches Expression::Call { loc, name, args } && loc
            == part.loc && name.name@
            == split_path(part.children@[0].text@) && name.t == Type::Other && name.loc
            == part.children@[0].loc && name.ptr@.len() == 0 && (if part.children@.len() < 2 {
            args@.len() == 0
        } else {
            exprs_of(part.children@[1].children@, args@)
        }))
    } else if part.rule == Rule::array_init {
        e matches Expression::ArrayInit { loc, fields } && loc == part.loc && exprs_of(
            part.children@,
            fields@,
        )
    } else if part.rule == Rule::struct_init {
        part.children@.len() >= 1 && (e matches Expression::StructInit { loc, typed, fields }
            && loc == part.loc && typed_of(
            part.children@[0],
            typed,
            part.children@[0].children@.len() as int,
        ) && inits_of(part.children@.subrange(1, part.children@.len() as int), fields@))
    } else {
        false
    }
}

/// Why the part at `n - 1` of an expression is malformed, if it is: a part
/// that is no operator and no operand; an operand that follows another without
/// an operator between; an operator that the language does not have; or a
/// malformed operand.
pub open spec fn part_fault(parts: Seq<Node>, n: nat) -> Option<ParseError>
    decreases parts, 0nat,
{
    if n == 0 || n > parts.len() {
        None
    } else if parts[n - 1].rule == Rule::infix {
        None
    } else if !is_operand(parts[n - 1].rule) {
        Some(ParseError::Unexpected(parts[n - 1].rule, parts[n - 1].loc))
    } else if waiting_op(parts, (n - 1) as nat) == -2 {
        Some(ParseError::Unexpected(parts[n - 1].rule, parts[n - 1].loc))
    } else if links(parts, (n - 1) as nat).len() > 0 && infix_of(
        parts[waiting_op(parts, (n - 1) as nat)].text@,
    ) is None {
        Some(ParseError::UnknownOperator(parts[waiting_op(parts, (n - 1) as nat)].loc))
    } else {
        operand_fault(parts[n - 1])
    }
}

pub open spec fn chain_fault(parts: Seq<Node>, n: nat) -> Option<ParseError>
    decreases parts, n + 1,
{
    if n == 0 || n > parts.len() {
        None
    } else {
        sooner(chain_fault(parts, (n - 1) as nat), part_fault(parts, n))
    }
}

/// Why an expression node is malformed, if it is.
pub open spec fn expr_fault(node: Node) -> Option<ParseError>
    decreases node, 0nat,
{
    if !is_expr_rule(node.rule) {
        Some(ParseError::Unexpected(node.rule, node.loc))
    } else {
        sooner(
            chain_fault(node.children@, node.children@.len()),
            if links(node.children@, node.children@.len()).len() == 0 {
                Some(ParseError::Missing(node.loc))
            } else {
                None
            },
        )
    }
}

/// Whether `item` is the link `l` of an operator chain: the operator that the
/// operand took, with its place, and the operand.
pub open spec fn link_of(parts: Seq<Node>, l: (int, int), item: ((InfixOperator, Location), Box<Expression>)) -> bool
    decreases parts, 0nat,
{
    0 <= l.0 < parts.len() && 0 <= l.1 < parts.len() && Some(item.0.0) == infix_of(parts[l.0].text@)
        && item.0.1 == parts[l.0].loc && operand_of(parts[l.1], *item.1)
}

/// Whether `e` is what an expression node writes: its one operand, or, where
/// there are more, the chain of all operands with the operators between them,
/// placed where the node is, or where the operator before the first operand
/// is.
pub open spec fn expr_of(node: Node, e: Expression) -> bool
    decreases node, 0nat,
{
    let parts = node.children@;
    let l = links(parts, parts.len());
    if l.len() == 0 {
        false
    } else if l.len() == 1 {
        0 <= l[0].1 < parts.len() && operand_of(parts[l[0].1], e)
    } else {
        e matches Expression::InfixOperation { loc, lhs, rhs } && loc == (if l[0].0 >= 0 {
            parts[l[0].0].loc
        } else {
            node.loc
        }) && 0 <= l[0].1 < parts.len() && operand_of(parts[l[0].1], *lhs) && rhs@.len() == l.len()
            - 1 && forall|k: int| 0 <= k < rhs@.len() ==> link_of(parts, l[k + 1], #[trigger] rhs@[k])
    }
}

proof fn lemma_exprs_fault(items: Seq<Node>, k: nat, n: nat)
    requires
        k <= n <= items.len(),
    ensures
        exprs_fault(items, k) is Some ==> exprs_fault(items, n) == exprs_fault(items, k),
    decreases n,
{
    if k < n {
        lemma_exprs_fault(items, k, (n - 1) as nat);
    }
}

proof fn lemma_inits_fault(items: Seq<Node>, k: nat, n: nat)
    requires
        k <= n <= items.len(),
    ensures
        inits_fault(items, k) is Some ==> inits_fault(items, n) == inits_fault(items, k),
    decreases n,
{
    if k < n {
        lemma_inits_fault(items, k, (n - 1) as nat);
    }
}

proof fn lemma_chain_fault(parts: Seq<Node>, k: nat, n: nat)
    requires
        k <= n <= parts.len(),
    ensures
        chain_fault(parts, k) is Some ==> chain_fault(parts, n) == chain_fault(parts, k),
    decreases n,
{
    if k < n {
        lemma_chain_fault(parts, k, (n - 1) as nat);
    }
}

/// After an operand, an operator waits or the operand has taken it; and every
/// link points into the parts read.
proof fn lemma_links(parts: Seq<Node>, n: nat)
    requires
        n <= parts.len(),
    ensures
        links(parts, n).len() > 0 ==> waiting_op(parts, n) != -1,
        -2 <= waiting_op(parts, n) < n,
        waiting_op(parts, n) >= 0 ==> parts[waiting_op(parts, n)].rule == Rule::infix,
        links(parts, n).len() <= n,
        forall|k: int|
            0 <= k < links(parts, n).len() ==> -2 <= (#[trigger] links(parts, n)[k]).0 < n && 0
                <= links(parts, n)[k].1 < n,
    decreases n,
{
    if n > 0 {
        lemma_links(parts, (n - 1) as nat);
        let before = links(parts, (n - 1) as nat);
        assert forall|k: int| 0 <= k < links(parts, n).len() implies -2 <= (#[trigger] links(
            parts,
            n,
        )[k]).0 < n && 0 <= links(parts, n)[k].1 < n by {
            if k < before.len() {
                assert(links(parts, n)[k] == before[k]);
            }
        }
    }
}

fn is_operand_rule(r: Rule) -> (b: bool)
    ensures
        b == is_operand(r),
{
    match r {
        Rule::unarypre
        | Rule::unarypost
        | Rule::cast
        | Rule::ptr_access
        | Rule::member_access
        | Rule::array_access
        | Rule::type_ref
        | Rule::number_literal
        | Rule::string_literal
        | Rule::char_literal
        | Rule::expr
        | Rule::deref
        | Rule::takeref
        | Rule::call
        | Rule::array_init
        | Rule::struct_init => true,
        _ => false,
    }
}

fn name_expr(part: &Node) -> (e: Expression)
    ensures
        name_of(*part, e),
{
    Expression::Name(
        Typed {
            name: Name::parse(part.text.as_str()),
            t: Type::Other,
            loc: part.loc.clone(),
            ptr: Vec::new(),
        },
    )
}

fn parse_term(part: &Node) -> (r: Result<Expression, ParseError>)
    ensures
        lowers(r, term_fault(*part), |e: Expression| term_of(*part, e)),
    decreases part, 1nat,
{
    match part.rule {
        Rule::type_ref => Ok(name_expr(part)),
        _ => parse_expr(part),
    }
}

/// The bytes between the quotes `q` of a literal; see [`quoted`].
fn read_quoted(text: &String, q: u8) -> (r: Option<Vec<u8>>)
    ensures
        (match r {
            Some(v) => Some(v@),
            None => None,
        }) == quoted(encode_utf8(text@), q),
{
    let bytes = text.as_str().as_bytes_vec();
    let n = bytes.len();
    if n < 2 || bytes[0] != q || bytes[n - 1] != q {
        return None;
    }
    unescape(&bytes, 1, n - 1)
}

fn parse_exprs(items: &Vec<Node>) -> (r: Result<Vec<Box<Expression>>, ParseError>)
    ensures
        lowers(
            r,
            exprs_fault(items@, items@.len()),
            |out: Vec<Box<Expression>>| exprs_of(items@, out@),
        ),
    decreases items, 1nat,
{
    let mut out: Vec<Box<Expression>> = Vec::new();
    let mut i: usize = 0;
    while i < items.len()
        invariant
            i <= items.len(),
            out@.len() == i,
            exprs_fault(items@, i as nat) is None,
            forall|k: int| 0 <= k < i ==> expr_of(items@[k], *#[trigger] out@[k]),
        decreases items.len() - i,
    {
        proof {
            lemma_exprs_fault(items@, (i + 1) as nat, items@.len());
        }
        match parse_expr(&items[i]) {
            Err(e) => {
                return Err(e);
            },
            Ok(e) => {
                out.push(Box::new(e));
            },
        }
        i = i + 1;
    }
    Ok(out)
}

fn parse_inits(items: &Vec<Node>, from: usize) -> (r: Result<
    Vec<(String, Box<Expression>)>,
    ParseError,
>)
    requires
        from <= items.len(),
    ensures
        lowers(
            r,
            inits_fault(
                items@.subrange(from as int, items@.len() as int),
                (items@.len() - from) as nat,
            ),
            |out: Vec<(String, Box<Expression>)>|
                inits_of(items@.subrange(from as int, items@.len() as int), out@),
        ),
    decreases items, 1nat,
{
    let ghost tail = items@.subrange(from as int, items@.len() as int);
    let mut out: Vec<(String, Box<Expression>)> = Vec::new();
    let mut i: usize = from;
    while i < items.len()
        invariant
            from <= i <= items.len(),
            tail == items@.subrange(from as int, items@.len() as int),
            out@.len() == i - from,
            inits_fault(tail, (i - from) as nat) is None,
            forall|k: int| 0 <= k < i - from ==> (#[trigger] tail[k]).children@.len() >= 2,
            forall|k: int|
                0 <= k < i - from ==> (#[trigger] out@[k]).0@ == tail[k].children@[0].text@,
            forall|k: int|
                0 <= k < i - from && tail[k].children@.len() >= 2 ==> expr_of(
                    tail[k].children@[1],
                    *#[trigger] out@[k].1,
                ),
        decreases items.len() - i,
    {
        let item = &items[i];
        let ghost cur = (i - from) as nat;
        let ghost next = (i - from + 1) as nat;
        let ghost out0 = out@;
        proof {
            assert(tail[i - from] == items@[i as int]);
            lemma_inits_fault(tail, next, tail.len());
            assert(inits_fault(tail, next) == sooner(inits_fault(tail, cur), init_fault(tail[cur as int])));
            assert(init_fault(*item) == (if item.rule != Rule::struct_init_field {
                Some(ParseError::Unexpected(item.rule, item.loc))
            } else if item.children@.len() < 2 {
                Some(ParseError::Missing(item.loc))
            } else {
                expr_fault(item.children@[1])
            }));
        }
        match item.rule {
            Rule::struct_init_field => {},
            _ => {
                return Err(ParseError::Unexpected(item.rule, item.loc.clone()));
            },
        }
        if item.children.len() < 2 {
            return Err(ParseError::Missing(item.loc.clone()));
        }
        match parse_expr(&item.children[1]) {
            Err(e) => {
                return Err(e);
            },
            Ok(e) => {
                out.push((item.children[0].text.clone(), Box::new(e)));
            },
        }
        i = i + 1;
    }
    Ok(out)
}

fn parse_operand(part: &Node) -> (r: Result<Expression, ParseError>)
    ensures
        lowers(r, operand_fault(*part), |e: Expression| operand_of(*part, e)),
    decreases part, 2nat,
{
    let n = part.children.len();
    match part.rule {
        Rule::unarypre => {
            if n < 2 {
                return Err(ParseError::Missing(part.loc.clone()));
            }
            let op = match prefix_operator(part.children[0].text.as_str()) {
                None => {
                    return Err(ParseError::UnknownOperator(part.children[0].loc.clone()));
                },
                Some(op) => op,
            };
            match parse_term(&part.children[1]) {
                Err(e) => Err(e),
                Ok(x) => Ok(Expression::UnaryPre { loc: part.loc.clone(), op, expr: Box::new(x) }),
            }
        },
        Rule::unarypost => {
            if n < 2 {
                return Err(ParseError::Missing(part.loc.clone()));
            }
            let x = match parse_term(&part.children[0]) {
                Err(e) => {
                    return Err(e);
                },
                Ok(x) => x,
            };
            match postfix_operator(part.children[1].text.as_str()) {
                None => Err(ParseError::UnknownOperator(part.children[1].loc.clone())),
                Some(op) => Ok(
                    Expression::UnaryPost { loc: part.loc.clone(), op, expr: Box::new(x) },
                ),
            }
        },
        Rule::cast => {
            if n < 2 {
                return Err(ParseError::Missing(part.loc.clone()));
            }
            let into = match parse_anon_type(&part.children[0]) {
                Err(e) => {
                    return Err(e);
                },
                Ok(t) => t,
            };
            match parse_expr(&part.children[1]) {
                Err(e) => Err(e),
                Ok(x) => Ok(Expression::Cast { loc: part.loc.clone(), into, expr: Box::new(x) }),
            }
        },
        Rule::ptr_access | Rule::member_access => {
            if n < 2 {
                return Err(ParseError::Missing(part.loc.clone()));
            }
            let op = match part.rule {
                Rule::ptr_access => String::from_str("->"),
                _ => String::from_str("."),
            };
            match parse_term(&part.children[0]) {
                Err(e) => Err(e),
                Ok(x) => Ok(
                    Expression::MemberAccess {
                        loc: part.loc.clone(),
                        lhs: Box::new(x),
                        op,
                        rhs: part.children[1].text.clone(),
                    },
                ),
            }
        },
        Rule::array_access => {
            if n < 2 {
                return Err(ParseError::Missing(part.loc.clone()));
            }
            let lhs = match parse_term(&part.children[0]) {
                Err(e) => {
                    return Err(e);
                },
                Ok(x) => x,
            };
            let index = &part.children[1];
            match index.rule {
                Rule::array => {},
                _ => {
                    return Err(ParseError::Unexpected(index.rule, index.loc.clone()));
                },
            }
            if index.children.len() == 0 {
                return Err(ParseError::Missing(index.loc.clone()));
            }
            match parse_expr(&index.children[0]) {
                Err(e) => Err(e),
                Ok(rhs) => Ok(
                    Expression::ArrayAccess {
                        loc: part.loc.clone(),
                        lhs: Box::new(lhs),
                        rhs: Box::new(rhs),
                    },
                ),
            }
        },
        Rule::type_ref => Ok(name_expr(part)),
        Rule::number_literal => Ok(
            Expression::Literal { loc: part.loc.clone(), v: part.text.clone() },
        ),
        Rule::string_literal => {
            match read_quoted(&part.text, 34) {
                None => Err(ParseError::BadLiteral(part.loc.clone())),
                Some(v) => Ok(Expression::LiteralString { loc: part.loc.clone(), v }),
            }
        },
        Rule::char_literal => {
            match read_quoted(&part.text, 39) {
                None => Err(ParseError::BadLiteral(part.loc.clone())),
                Some(v) => {
                    if v.len() != 1 {
                        return Err(ParseError::BadLiteral(part.loc.clone()));
                    }
                    proof {
                        assert(v@ =~= seq![v@[0]]);
                    }
                    Ok(Expression::LiteralChar { loc: part.loc.clone(), v: v[0] })
                },
            }
        },
        Rule::expr => parse_expr(part),
        Rule::deref | Rule::takeref => {
            if n < 1 {
                return Err(ParseError::Missing(part.loc.clone()));
            }
            let op = match part.rule {
                Rule::deref => PrefixOperator::Deref,
                _ => PrefixOperator::AddressOf,
            };
            match parse_term(&part.children[0]) {
                Err(e) => Err(e),
                Ok(x) => Ok(Expression::UnaryPre { loc: part.loc.clone(), op, expr: Box::new(x) }),
            }
        },
        Rule::call => {
            if n < 1 {
                return Err(ParseError::Missing(part.loc.clone()));
            }
            let callee = &part.children[0];
            let name = Typed {
                name: Name::parse(callee.text.as_str()),
                t: Type::Other,
                loc: callee.loc.clone(),
                ptr: Vec::new(),
            };
            let args = if n < 2 {
                Vec::new()
            } else {
                match parse_exprs(&part.children[1].children) {
                    Err(e) => {
                        return Err(e);
                    },
                    Ok(a) => a,
                }
            };
            Ok(Expression::Call { loc: part.loc.clone(), name, args })
        },
        Rule::array_init => {
            match parse_exprs(&part.children) {
                Err(e) => Err(e),
                Ok(fields) => Ok(Expression::ArrayInit { loc: part.loc.clone(), fields }),
            }
        },
        Rule::struct_init => {
            if n < 1 {
                return Err(ParseError::Missing(part.loc.clone()));
            }
            let typed = match parse_anon_type(&part.children[0]) {
                Err(e) => {
                    return Err(e);
                },
                Ok(t) => t,
            };
            match parse_inits(&part.children, 1) {
                Err(e) => Err(e),
                Ok(fields) => Ok(Expression::StructInit { loc: part.loc.clone(), typed, fields }),
            }
        },
        _ => Err(ParseError::Unexpected(part.rule, part.loc.clone())),
    }
}

/// The expression that an `lhs`, `expr` or `termish` node writes; see
/// [`expr_fault`] and [`expr_of`].
pub fn parse_expr(decl: &Node) -> (r: Result<Expression, ParseError>)
    ensures
        lowers(r, expr_fault(*decl), |e: Expression| expr_of(*decl, e)),
    decreases decl, 0nat,
{
    match decl.rule {
        Rule::lhs | Rule::expr | Rule::termish => {},
        _ => {
            return Err(ParseError::Unexpected(decl.rule, decl.loc.clone()));
        },
    }
    let parts = &decl.children;
    let mut first: Option<(Location, Expression)> = None;
    let mut rest: Vec<((InfixOperator, Location), Box<Expression>)> = Vec::new();
    let mut waiting: Option<usize> = None;
    let mut taken = false;
    let mut i: usize = 0;
    while i < parts.len()
        invariant
            i <= parts.len(),
            parts == &decl.children,
            is_expr_rule(decl.rule),
            chain_fault(parts@, i as nat) is None,
            waiting_op(parts@, i as nat) == (if taken {
                -2
            } else {
                match waiting {
                    Some(w) => w as int,
                    None => -1,
                }
            }),
            first is None <==> links(parts@, i as nat).len() == 0,
            first is None ==> rest@.len() == 0,
            first matches Some(f) ==> links(parts@, i as nat).len() == rest@.len() + 1 && f.0 == (
            if links(parts@, i as nat)[0].0 >= 0 {
                parts@[links(parts@, i as nat)[0].0].loc
            } else {
                decl.loc
            }) && 0 <= links(parts@, i as nat)[0].1 < parts@.len() && operand_of(
                parts@[links(parts@, i as nat)[0].1],
                f.1,
            ),
            forall|k: int|
                0 <= k < rest@.len() ==> link_of(
                    parts@,
                    links(parts@, i as nat)[k + 1],
                    #[trigger] rest@[k],
                ),
        decreases parts.len() - i,
    {
        let part = &parts[i];
        let ghost before = links(parts@, i as nat);
        let ghost rest0 = rest@;
        proof {
            lemma_chain_fault(parts@, (i + 1) as nat, parts@.len());
            lemma_links(parts@, i as nat);
            lemma_links(parts@, (i + 1) as nat);
            assert(chain_fault(parts@, (i + 1) as nat) == sooner(
                chain_fault(parts@, i as nat),
                part_fault(parts@, (i + 1) as nat),
            ));
        }
        match part.rule {
            Rule::infix => {
                waiting = Some(i);
                taken = false;
            },
            _ => {
                if !is_operand_rule(part.rule) {
                    return Err(ParseError::Unexpected(part.rule, part.loc.clone()));
                }
                if taken {
                    return Err(ParseError::Unexpected(part.rule, part.loc.clone()));
                }
                if first.is_some() {
                    let w = match waiting {
                        Some(w) => w,
                        None => 0,
                    };
                    let op = match infix_operator(parts[w].text.as_str()) {
                        None => {
                            return Err(ParseError::UnknownOperator(parts[w].loc.clone()));
                        },
                        Some(op) => op,
                    };
                    match parse_operand(part) {
                        Err(e) => {
                            return Err(e);
                        },
                        Ok(x) => {
                            rest.push(((op, parts[w].loc.clone()), Box::new(x)));
                        },
                    }
                    proof {
                        let now = links(parts@, (i + 1) as nat);
                        assert(now == before.push((w as int, i as int)));
                        assert forall|k: int| 0 <= k < rest@.len() implies link_of(
                            parts@,
                            now[k + 1],
                            #[trigger] rest@[k],
                        ) by {
                            if k < rest0.len() {
                                assert(rest@[k] == rest0[k]);
                                assert(now[k + 1] == before[k + 1]);
                            }
                        }
                    }
                } else {
                    let loc = match waiting {
                        Some(w) => parts[w].loc.clone(),
                        None => decl.loc.clone(),
                    };
                    match parse_operand(part) {
                        Err(e) => {
                            return Err(e);
                        },
                        Ok(x) => {
                            first = Some((loc, x));
                        },
                    }
                }
                taken = true;
                waiting = None;
            },
        }
        i = i + 1;
    }
    match first {
        None => Err(ParseError::Missing(decl.loc.clone())),
        Some((loc, lhs)) => {
            if rest.len() == 0 {
                Ok(lhs)
            } else {
                Ok(Expression::InfixOperation { loc, lhs: Box::new(lhs), rhs: rest })
            }
        },
    }
}

/// The position of the last of the first `n` parts with rule `r`; `-1` where
/// there is none.
pub open spec fn last_with(parts: Seq<Node>, n: nat, r: Rule) -> int
    decreases n,
{
    if n == 0 || n > parts.len() {
        -1
    } else if parts[n - 1].rule == r {
        n - 1
    } else {
        last_with(parts, (n - 1) as nat, r)
    }
}

/// The number of the clause of a loop header that the part after the first
/// `n` parts belongs to: one more than the semicolons read.
pub open spec fn clause(parts: Seq<Node>, n: nat) -> int
    decreases n,
{
    if n == 0 || n > parts.len() {
        1
    } else if parts[n - 1].rule == Rule::semicolon {
        clause(parts, (n - 1) as nat) + 1
    } else {
        clause(parts, (n - 1) as nat)
    }
}

/// The position, among the first `n` parts of a loop, of its body: the first
/// block in the third clause; `-1` where there is none.
pub open spec fn body_at(parts: Seq<Node>, n: nat) -> int
    decreases n,
{
    if n == 0 || n > parts.len() {
        -1
    } else if body_at(parts, (n - 1) as nat) >= 0 {
        body_at(parts, (n - 1) as nat)
    } else if parts[n - 1].rule == Rule::block && clause(parts, (n - 1) as nat) == 3 {
        n - 1
    } else {
        -1
    }
}

/// The positions, among the first `n` parts of a loop, of the statements of
/// clause `c`: every part of the clause but the separators and the body.
pub open spec fn clause_items(parts: Seq<Node>, n: nat, c: int) -> Seq<int>
    decreases n,
{
    if n == 0 || n > parts.len() {
        Seq::empty()
    } else if parts[n - 1].rule != Rule::semicolon && body_at(parts, n) != n - 1 && clause(
        parts,
        (n - 1) as nat,
    ) == c {
        clause_items(parts, (n - 1) as nat, c).push(n - 1)
    } else {
        clause_items(parts, (n - 1) as nat, c)
    }
}

/// Why a statement node is malformed, if it is.
pub open spec fn stmt_fault(node: Node) -> Option<ParseError>
    decreases node, 1nat,
{
    let parts = node.children@;
    if node.rule == Rule::mark_stm {
        if parts.len() < 2 {
            Some(ParseError::Missing(node.loc))
        } else {
            expr_fault(parts[0])
        }
    } else if node.rule == Rule::label || node.rule == Rule::goto_stm {
        if parts.len() < 1 {
            Some(ParseError::Missing(node.loc))
        } else {
            None
        }
    } else if node.rule == Rule::block {
        block_fault(node)
    } else if node.rule == Rule::return_stm {
        if parts.len() < 1 {
            Some(ParseError::Missing(node.loc))
        } else if parts[0].rule != Rule::key_return {
            Some(ParseError::Unexpected(parts[0].rule, parts[0].loc))
        } else if parts.len() < 2 {
            None
        } else {
            expr_fault(parts[1])
        }
    } else if node.rule == Rule::expr {
        expr_fault(node)
    } else if node.rule == Rule::if_stm || node.rule == Rule::elseif_stm {
        if parts.len() < 2 {
            Some(ParseError::Missing(node.loc))
        } else {
            sooner(expr_fault(parts[0]), block_fault(parts[1]))
        }
    } else if node.rule == Rule::else_stm {
        if parts.len() < 1 {
            Some(ParseError::Missing(node.loc))
        } else {
            block_fault(parts[0])
        }
    } else if node.rule == Rule::for_stm {
        sooner(
            loop_fault(parts, parts.len()),
            if body_at(parts, parts.len()) < 0 {
                Some(ParseError::Missing(node.loc))
            } else {
                None
            },
        )
    } else if node.rule == Rule::vardecl {
        sooner(
            var_fault(parts, parts.len()),
            if last_with(parts, parts.len(), Rule::named_type) < 0 {
                Some(ParseError::Missing(node.loc))
            } else {
                None
            },
        )
    } else if node.rule == Rule::assign {
        sooner(
            assign_fault(parts, parts.len()),
            if last_with(parts, parts.len(), Rule::lhs) < 0 || last_with(
                parts,
                parts.len(),
                Rule::assignop,
            ) < 0 || last_with(parts, parts.len(), Rule::expr) < 0 {
                Some(ParseError::Missing(node.loc))
            } else {
                None
            },
        )
    } else {
        Some(ParseError::Unexpected(node.rule, node.loc))
    }
}

/// The first fault among the first `n` parts of a loop: a malformed statement
/// or body, or a part after the third clause.
pub open spec fn loop_fault(parts: Seq<Node>, n: nat) -> Option<ParseError>
    decreases parts, n,
{
    if n == 0 || n > parts.len() {
        None
    } else {
        sooner(
            loop_fault(parts, (n - 1) as nat),
            if parts[n - 1].rule == Rule::semicolon {
                None
            } else if body_at(parts, n) == n - 1 {
                block_fault(parts[n - 1])
            } else if clause(parts, (n - 1) as nat) > 3 {
                Some(ParseError::Unexpected(parts[n - 1].rule, parts[n - 1].loc))
            } else {
                stmt_fault(parts[n - 1])
            },
        )
    }
}

/// The first fault among the first `n` parts of a declaration of a variable.
pub open spec fn var_fault(parts: Seq<Node>, n: nat) -> Option<ParseError>
    decreases parts, n,
{
    if n == 0 || n > parts.len() {
        None
    } else {
        sooner(
            var_fault(parts, (n - 1) as nat),
            if parts[n - 1].rule == Rule::named_type {
                named_fault(parts[n - 1])
            } else if parts[n - 1].rule == Rule::expr {
                expr_fault(parts[n - 1])
            } else if parts[n - 1].rule == Rule::array {
                if parts[n - 1].children@.len() < 1 {
                    Some(ParseError::Missing(parts[n - 1].loc))
                } else {
                    expr_fault(parts[n - 1].children@[0])
                }
            } else {
                Some(ParseError::Unexpected(parts[n - 1].rule, parts[n - 1].loc))
            },
        )
    }
}

/// The first fault among the first `n` parts of an assignment: a second
/// target or value, a part of another kind, or a malformed expression.
pub open spec fn assign_fault(parts: Seq<Node>, n: nat) -> Option<ParseError>
    decreases parts, n,
{
    if n == 0 || n > parts.len() {
        None
    } else {
        sooner(
            assign_fault(parts, (n - 1) as nat),
            if parts[n - 1].rule == Rule::assignop {
                None
            } else if (parts[n - 1].rule == Rule::lhs || parts[n - 1].rule == Rule::expr)
                && last_with(parts, (n - 1) as nat, parts[n - 1].rule) < 0 {
                expr_fault(parts[n - 1])
            } else {
                Some(ParseError::Unexpected(parts[n - 1].rule, parts[n - 1].loc))
            },
        )
    }
}

/// Why a block node is malformed, if it is.
pub open spec fn block_fault(node: Node) -> Option<ParseError>
    decreases node, 0nat,
{
    if node.rule != Rule::block {
        Some(ParseError::Unexpected(node.rule, node.loc))
    } else {
        stmts_fault(node.children@, node.children@.len())
    }
}

pub open spec fn stmts_fault(items: Seq<Node>, n: nat) -> Option<ParseError>
    decreases items, n,
{
    if n == 0 || n > items.len() {
        None
    } else {
        sooner(stmts_fault(items, (n - 1) as nat), stmt_fault(items[n - 1]))
    }
}

/// Whether `b` is what a block node writes: its statements in order, and the
/// place after it.
pub open spec fn block_of(node: Node, b: Block) -> bool
    decreases node, 0nat,
{
    b.end == node.end && b.statements@.len() == node.children@.len() && forall|i: int|
        0 <= i < node.children@.len() ==> stmt_of(node.children@[i], #[trigger] b.statements@[i])
}

/// Whether the statements `out` are what the parts at the positions `at`
/// write.
pub open spec fn picked_of(parts: Seq<Node>, at: Seq<int>, out: Seq<Box<Statement>>) -> bool
    decreases parts, 0nat,
{
    out.len() == at.len() && forall|j: int|
        0 <= j < at.len() && 0 <= at[j] < parts.len() ==> stmt_of(parts[at[j]], *#[trigger] out[j])
}

pub open spec fn optional_of(parts: Seq<Node>, at: int, out: Option<Expression>) -> bool
    decreases parts, 0nat,
{
    if 0 <= at < parts.len() {
        out is Some && expr_of(parts[at], out->0)
    } else {
        out is None
    }
}

/// Whether `s` is what a statement node writes.
pub open spec fn stmt_of(node: Node, s: Statement) -> bool
    decreases node, 1nat,
{
    let parts = node.children@;
    if node.rule == Rule::mark_stm {
        parts.len() >= 2 && (s matches Statement::Mark { lhs, loc, key, value } && loc
            == parts[1].loc && key@ == parts[1].text@ && value@.len() == 0 && expr_of(
            parts[0],
            lhs,
        ))
    } else if node.rule == Rule::label {
        parts.len() >= 1 && (s matches Statement::Label { loc, label } && loc == node.loc
            && label@ == parts[0].text@)
    } else if node.rule == Rule::goto_stm {
        parts.len() >= 1 && (s matches Statement::Goto { loc, label } && loc == node.loc && label@
            == parts[0].text@)
    } else if node.rule == Rule::block {
        s is Block && block_of(node, *s->Block_0)
    } else if node.rule == Rule::return_stm {
        s matches Statement::Return { loc, expr } && loc == node.loc && optional_of(
            parts,
            if parts.len() >= 2 {
                1
            } else {
                -1
            },
            expr,
        )
    } else if node.rule == Rule::expr {
        s matches Statement::Expr { loc, expr } && loc == node.loc && expr_of(node, expr)
    } else if node.rule == Rule::if_stm || node.rule == Rule::elseif_stm {
        parts.len() >= 2 && (s matches Statement::Cond { op, expr, body } && op@ == (if node.rule
            == Rule::if_stm {
            "if"@
        } else {
            "else if"@
        }) && expr is Some && expr_of(parts[0], expr->0) && block_of(parts[1], body))
    } else if node.rule == Rule::else_stm {
        parts.len() >= 1 && (s matches Statement::Cond { op, expr, body } && op@ == "else"@
            && expr is None && block_of(parts[0], body))
    } else if node.rule == Rule::for_stm {
        0 <= body_at(parts, parts.len()) < parts.len() && (s matches Statement::For {
            e1,
            e2,
            e3,
            body,
        } && picked_of(parts, clause_items(parts, parts.len(), 1), e1@) && picked_of(
            parts,
            clause_items(parts, parts.len(), 2),
            e2@,
        ) && picked_of(parts, clause_items(parts, parts.len(), 3), e3@) && block_of(
            parts[body_at(parts, parts.len())],
            body,
        ))
    } else if node.rule == Rule::vardecl {
        0 <= last_with(parts, parts.len(), Rule::named_type) < parts.len() && (
        s matches Statement::Var { loc, typed, tags, name, array, assign } && loc == node.loc
            && named_parts_of(
            parts[last_with(parts, parts.len(), Rule::named_type)],
            name,
            typed,
            tags,
        ) && optional_of(parts, last_with(parts, parts.len(), Rule::expr), assign) && (if 0
            <= last_with(parts, parts.len(), Rule::array) < parts.len() {
            parts[last_with(parts, parts.len(), Rule::array)].children@.len() >= 1 && array is Some
                && expr_of(parts[last_with(parts, parts.len(), Rule::array)].children@[0], array->0)
        } else {
            array is None
        }))
    } else if node.rule == Rule::assign {
        0 <= last_with(parts, parts.len(), Rule::lhs) < parts.len() && 0 <= last_with(
            parts,
            parts.len(),
            Rule::assignop,
        ) < parts.len() && 0 <= last_with(parts, parts.len(), Rule::expr) < parts.len() && (
        s matches Statement::Assign { loc, lhs, op, rhs } && loc == node.loc && op@
            == parts[last_with(parts, parts.len(), Rule::assignop)].text@ && expr_of(
            parts[last_with(parts, parts.len(), Rule::lhs)],
            lhs,
        ) && expr_of(parts[last_with(parts, parts.len(), Rule::expr)], rhs))
    } else {
        false
    }
}

/// Whether name, type and tags are what a type with a name writes.
pub open spec fn named_parts_of(node: Node, name: String, typed: Typed, tags: Tags) -> bool {
    node.children@.len() >= 2 && name@ == node.children@.last().text@ && typed_of(
        node,
        typed,
        node.children@.len() - 1,
    ) && tags@ == tags_map(
        pending(node.children@, 1, node.children@.len() - 1),
        pending(node.children@, 1, node.children@.len() - 1).len(),
    )
}

proof fn lemma_stmts_fault(items: Seq<Node>, k: nat, n: nat)
    requires
        k <= n <= items.len(),
    ensures
        stmts_fault(items, k) is Some ==> stmts_fault(items, n) == stmts_fault(items, k),
    decreases n,
{
    if k < n {
        lemma_stmts_fault(items, k, (n - 1) as nat);
    }
}

proof fn lemma_loop_fault(parts: Seq<Node>, k: nat, n: nat)
    requires
        k <= n <= parts.len(),
    ensures
        loop_fault(parts, k) is Some ==> loop_fault(parts, n) == loop_fault(parts, k),
    decreases n,
{
    if k < n {
        lemma_loop_fault(parts, k, (n - 1) as nat);
    }
}

proof fn lemma_var_fault(parts: Seq<Node>, k: nat, n: nat)
    requires
        k <= n <= parts.len(),
    ensures
        var_fault(parts, k) is Some ==> var_fault(parts, n) == var_fault(parts, k),
    decreases n,
{
    if k < n {
        lemma_var_fault(parts, k, (n - 1) as nat);
    }
}

proof fn lemma_assign_fault(parts: Seq<Node>, k: nat, n: nat)
    requires
        k <= n <= parts.len(),
    ensures
        assign_fault(parts, k) is Some ==> assign_fault(parts, n) == assign_fault(parts, k),
    decreases n,
{
    if k < n {
        lemma_assign_fault(parts, k, (n - 1) as nat);
    }
}

/// Positions that the helpers give lie among the parts read.
proof fn lemma_positions(parts: Seq<Node>, n: nat, r: Rule, c: int)
    requires
        n <= parts.len(),
    ensures
        -1 <= last_with(parts, n, r) < n,
        last_with(parts, n, r) >= 0 ==> parts[last_with(parts, n, r)].rule == r,
        -1 <= body_at(parts, n) < n,
        1 <= clause(parts, n) <= n + 1,
        forall|j: int|
            0 <= j < clause_items(parts, n, c).len() ==> 0 <= (#[trigger] clause_items(
                parts,
                n,
                c,
            )[j]) < n,
    decreases n,
{
    if n > 0 {
        lemma_positions(parts, (n - 1) as nat, r, c);
        let before = clause_items(parts, (n - 1) as nat, c);
        assert forall|j: int| 0 <= j < clause_items(parts, n, c).len() implies 0 <= (
        #[trigger] clause_items(parts, n, c)[j]) < n by {
            if j < before.len() {
                assert(clause_items(parts, n, c)[j] == before[j]);
            }
        }
    }
}

/// The block that a `block` node writes; see [`block_fault`] and
/// [`block_of`].
pub fn parse_block(decl: &Node) -> (r: Result<Block, ParseError>)
    ensures
        lowers(r, block_fault(*decl), |b: Block| block_of(*decl, b)),
    decreases decl, 0nat,
{
    match decl.rule {
        Rule::block => {},
        _ => {
            return Err(ParseError::Unexpected(decl.rule, decl.loc.clone()));
        },
    }
    let mut statements: Vec<Statement> = Vec::new();
    let mut i: usize = 0;
    while i < decl.children.len()
        invariant
            i <= decl.children.len(),
            decl.rule == Rule::block,
            statements@.len() == i,
            stmts_fault(decl.children@, i as nat) is None,
            forall|k: int| 0 <= k < i ==> stmt_of(decl.children@[k], #[trigger] statements@[k]),
        decreases decl.children.len() - i,
    {
        proof {
            lemma_stmts_fault(decl.children@, (i + 1) as nat, decl.children@.len());
        }
        match parse_statement(&decl.children[i]) {
            Err(e) => {
                return Err(e);
            },
            Ok(s) => {
                statements.push(s);
            },
        }
        i = i + 1;
    }
    Ok(Block { end: decl.end.clone(), statements })
}

fn parse_for(stm: &Node) -> (r: Result<Statement, ParseError>)
    requires
        stm.rule == Rule::for_stm,
    ensures
        lowers(r, stmt_fault(*stm), |s: Statement| stmt_of(*stm, s)),
    decreases stm, 0nat,
{
    let parts = &stm.children;
    let mut e1: Vec<Box<Statement>> = Vec::new();
    let mut e2: Vec<Box<Statement>> = Vec::new();
    let mut e3: Vec<Box<Statement>> = Vec::new();
    let mut body: Option<Block> = None;
    let mut cur: usize = 1;
    let mut i: usize = 0;
    while i < parts.len()
        invariant
            i <= parts.len(),
            parts == &stm.children,
            stm.rule == Rule::for_stm,
            loop_fault(parts@, i as nat) is None,
            cur == (if clause(parts@, i as nat) <= 4 {
                clause(parts@, i as nat)
            } else {
                4
            }),
            body is Some <==> body_at(parts@, i as nat) >= 0,
            body matches Some(b) ==> 0 <= body_at(parts@, i as nat) < parts@.len() && block_of(
                parts@[body_at(parts@, i as nat)],
                b,
            ),
            picked_of(parts@, clause_items(parts@, i as nat, 1), e1@),
            picked_of(parts@, clause_items(parts@, i as nat, 2), e2@),
            picked_of(parts@, clause_items(parts@, i as nat, 3), e3@),
        decreases parts.len() - i,
    {
        let part = &parts[i];
        let ghost next = (i + 1) as nat;
        let ghost a1 = e1@;
        let ghost a2 = e2@;
        let ghost a3 = e3@;
        proof {
            lemma_loop_fault(parts@, next, parts@.len());
            lemma_positions(parts@, i as nat, Rule::block, 1);
            lemma_positions(parts@, i as nat, Rule::block, 2);
            lemma_positions(parts@, i as nat, Rule::block, 3);
            assert(loop_fault(parts@, next) == sooner(
                loop_fault(parts@, i as nat),
                if parts@[i as int].rule == Rule::semicolon {
                    None
                } else if body_at(parts@, next) == i {
                    block_fault(parts@[i as int])
                } else if clause(parts@, i as nat) > 3 {
                    Some(ParseError::Unexpected(parts@[i as int].rule, parts@[i as int].loc))
                } else {
                    stmt_fault(parts@[i as int])
                },
            ));
        }
        let is_body = match part.rule {
            Rule::block => cur == 3 && body.is_none(),
            _ => false,
        };
        match part.rule {
            Rule::semicolon => {
                if cur < 4 {
                    cur = cur + 1;
                }
            },
            _ => {
                if is_body {
                    match parse_block(part) {
                        Err(e) => {
                            return Err(e);
                        },
                        Ok(b) => {
                            body = Some(b);
                        },
                    }
                } else if cur > 3 {
                    return Err(ParseError::Unexpected(part.rule, part.loc.clone()));
                } else {
                    let s = match parse_statement(part) {
                        Err(e) => {
                            return Err(e);
                        },
                        Ok(s) => s,
                    };
                    if cur == 1 {
                        e1.push(Box::new(s));
                    } else if cur == 2 {
                        e2.push(Box::new(s));
                    } else {
                        e3.push(Box::new(s));
                    }
                }
            },
        }
        proof {
            let b1 = clause_items(parts@, i as nat, 1);
            let b2 = clause_items(parts@, i as nat, 2);
            let b3 = clause_items(parts@, i as nat, 3);
            let n1 = clause_items(parts@, next, 1);
            let n2 = clause_items(parts@, next, 2);
            let n3 = clause_items(parts@, next, 3);
            assert forall|j: int| 0 <= j < n1.len() && 0 <= n1[j] < parts@.len() implies stmt_of(
                parts@[n1[j]],
                *#[trigger] e1@[j],
            ) by {
                if j < b1.len() {
                    assert(n1[j] == b1[j]);
                    assert(e1@[j] == a1[j]);
                }
            }
            assert forall|j: int| 0 <= j < n2.len() && 0 <= n2[j] < parts@.len() implies stmt_of(
                parts@[n2[j]],
                *#[trigger] e2@[j],
            ) by {
                if j < b2.len() {
                    assert(n2[j] == b2[j]);
                    assert(e2@[j] == a2[j]);
                }
            }
            assert forall|j: int| 0 <= j < n3.len() && 0 <= n3[j] < parts@.len() implies stmt_of(
                parts@[n3[j]],
                *#[trigger] e3@[j],
            ) by {
                if j < b3.len() {
                    assert(n3[j] == b3[j]);
                    assert(e3@[j] == a3[j]);
                }
            }
        }
        i = i + 1;
    }
    match body {
        None => Err(ParseError::Missing(stm.loc.clone())),
        Some(body) => Ok(Statement::For { e1, e2, e3, body }),
    }
}

fn parse_var(stm: &Node) -> (r: Result<Statement, ParseError>)
    requires
        stm.rule == Rule::vardecl,
    ensures
        lowers(r, stmt_fault(*stm), |s: Statement| stmt_of(*stm, s)),
    decreases stm, 0nat,
{
    let parts = &stm.children;
    let mut typed: Option<TypedName> = None;
    let mut assign: Option<Expression> = None;
    let mut array: Option<Expression> = None;
    let mut i: usize = 0;
    while i < parts.len()
        invariant
            i <= parts.len(),
            parts == &stm.children,
            stm.rule == Rule::vardecl,
            var_fault(parts@, i as nat) is None,
            typed is Some <==> last_with(parts@, i as nat, Rule::named_type) >= 0,
            typed matches Some(t) ==> named_of(
                parts@[last_with(parts@, i as nat, Rule::named_type)],
                t,
            ) && parts@[last_with(parts@, i as nat, Rule::named_type)].children@.len() >= 2,
            assign is Some <==> last_with(parts@, i as nat, Rule::expr) >= 0,
            assign matches Some(e) ==> expr_of(parts@[last_with(parts@, i as nat, Rule::expr)], e),
            array is Some <==> last_with(parts@, i as nat, Rule::array) >= 0,
            array matches Some(a) ==> parts@[last_with(
                parts@,
                i as nat,
                Rule::array,
            )].children@.len() >= 1 && expr_of(
                parts@[last_with(parts@, i as nat, Rule::array)].children@[0],
                a,
            ),
        decreases parts.len() - i,
    {
        let part = &parts[i];
        let ghost next = (i + 1) as nat;
        proof {
            lemma_var_fault(parts@, next, parts@.len());
            lemma_positions(parts@, i as nat, Rule::named_type, 1);
            lemma_positions(parts@, i as nat, Rule::expr, 1);
            lemma_positions(parts@, i as nat, Rule::array, 1);
            assert(var_fault(parts@, next) == sooner(
                var_fault(parts@, i as nat),
                if parts@[i as int].rule == Rule::named_type {
                    named_fault(parts@[i as int])
                } else if parts@[i as int].rule == Rule::expr {
                    expr_fault(parts@[i as int])
                } else if parts@[i as int].rule == Rule::array {
                    if parts@[i as int].children@.len() < 1 {
                        Some(ParseError::Missing(parts@[i as int].loc))
                    } else {
                        expr_fault(parts@[i as int].children@[0])
                    }
                } else {
                    Some(ParseError::Unexpected(parts@[i as int].rule, parts@[i as int].loc))
                },
            ));
        }
        match part.rule {
            Rule::named_type => {
                match parse_named_type(part) {
                    Err(e) => {
                        return Err(e);
                    },
                    Ok(t) => {
                        typed = Some(t);
                    },
                }
            },
            Rule::expr => {
                match parse_expr(part) {
                    Err(e) => {
                        return Err(e);
                    },
                    Ok(e) => {
                        assign = Some(e);
                    },
                }
            },
            Rule::array => {
                if part.children.len() < 1 {
                    return Err(ParseError::Missing(part.loc.clone()));
                }
                match parse_expr(&part.children[0]) {
                    Err(e) => {
                        return Err(e);
                    },
                    Ok(e) => {
                        array = Some(e);
                    },
                }
            },
            _ => {
                return Err(ParseError::Unexpected(part.rule, part.loc.clone()));
            },
        }
        i = i + 1;
    }
    proof {
        lemma_positions(parts@, parts@.len(), Rule::named_type, 1);
        lemma_positions(parts@, parts@.len(), Rule::expr, 1);
        lemma_positions(parts@, parts@.len(), Rule::array, 1);
    }
    match typed {
        None => Err(ParseError::Missing(stm.loc.clone())),
        Some(t) => Ok(
            Statement::Var {
                loc: stm.loc.clone(),
                typed: t.typed,
                tags: t.tags,
                name: t.name,
                array,
                assign,
            },
        ),
    }
}

fn parse_assign(stm: &Node) -> (r: Result<Statement, ParseError>)
    requires
        stm.rule == Rule::assign,
    ensures
        lowers(r, stmt_fault(*stm), |s: Statement| stmt_of(*stm, s)),
    decreases stm, 0nat,
{
    let parts = &stm.children;
    let mut lhs: Option<Expression> = None;
    let mut rhs: Option<Expression> = None;
    let mut op: Option<String> = None;
    let mut i: usize = 0;
    while i < parts.len()
        invariant
            i <= parts.len(),
            parts == &stm.children,
            stm.rule == Rule::assign,
            assign_fault(parts@, i as nat) is None,
            lhs is Some <==> last_with(parts@, i as nat, Rule::lhs) >= 0,
            lhs matches Some(e) ==> expr_of(parts@[last_with(parts@, i as nat, Rule::lhs)], e),
            rhs is Some <==> last_with(parts@, i as nat, Rule::expr) >= 0,
            rhs matches Some(e) ==> expr_of(parts@[last_with(parts@, i as nat, Rule::expr)], e),
            op is Some <==> last_with(parts@, i as nat, Rule::assignop) >= 0,
            op matches Some(o) ==> o@ == parts@[last_with(parts@, i as nat, Rule::assignop)].text@,
        decreases parts.len() - i,
    {
        let part = &parts[i];
        let ghost next = (i + 1) as nat;
        proof {
            lemma_assign_fault(parts@, next, parts@.len());
            lemma_positions(parts@, i as nat, Rule::lhs, 1);
            lemma_positions(parts@, i as nat, Rule::expr, 1);
            lemma_positions(parts@, i as nat, Rule::assignop, 1);
            assert(assign_fault(parts@, next) == sooner(
                assign_fault(parts@, i as nat),
                if parts@[i as int].rule == Rule::assignop {
                    None
                } else if (parts@[i as int].rule == Rule::lhs || parts@[i as int].rule
                    == Rule::expr) && last_with(parts@, i as nat, parts@[i as int].rule) < 0 {
                    expr_fault(parts@[i as int])
                } else {
                    Some(ParseError::Unexpected(parts@[i as int].rule, parts@[i as int].loc))
                },
            ));
        }
        match part.rule {
            Rule::assignop => {
                op = Some(part.text.clone());
            },
            Rule::lhs => {
                if lhs.is_some() {
                    return Err(ParseError::Unexpected(part.rule, part.loc.clone()));
                }
                match parse_expr(part) {
                    Err(e) => {
                        return Err(e);
                    },
                    Ok(e) => {
                        lhs = Some(e);
                    },
                }
            },
            Rule::expr => {
                if rhs.is_some() {
                    return Err(ParseError::Unexpected(part.rule, part.loc.clone()));
                }
                match parse_expr(part) {
                    Err(e) => {
                        return Err(e);
                    },
                    Ok(e) => {
                        rhs = Some(e);
                    },
                }
            },
            _ => {
                return Err(ParseError::Unexpected(part.rule, part.loc.clone()));
            },
        }
        i = i + 1;
    }
    proof {
        lemma_positions(parts@, parts@.len(), Rule::lhs, 1);
        lemma_positions(parts@, parts@.len(), Rule::expr, 1);
        lemma_positions(parts@, parts@.len(), Rule::assignop, 1);
    }
    match (lhs, op, rhs) {
        (Some(lhs), Some(op), Some(rhs)) => Ok(
            Statement::Assign { loc: stm.loc.clone(), lhs, op, rhs },
        ),
        _ => Err(ParseError::Missing(stm.loc.clone())),
    }
}

/// The statement that a node writes; see [`stmt_fault`] and [`stmt_of`].
pub fn parse_statement(stm: &Node) -> (r: Result<Statement, ParseError>)
    ensures
        lowers(r, stmt_fault(*stm), |s: Statement| stmt_of(*stm, s)),
    decreases stm, 1nat,
{
    let n = stm.children.len();
    match stm.rule {
        Rule::mark_stm => {
            if n < 2 {
                return Err(ParseError::Missing(stm.loc.clone()));
            }
            match parse_expr(&stm.children[0]) {
                Err(e) => Err(e),
                Ok(lhs) => Ok(
                    Statement::Mark {
                        lhs,
                        loc: stm.children[1].loc.clone(),
                        key: stm.children[1].text.clone(),
                        value: String::new(),
                    },
                ),
            }
        },
        Rule::label => {
            if n < 1 {
                return Err(ParseError::Missing(stm.loc.clone()));
            }
            Ok(Statement::Label { loc: stm.loc.clone(), label: stm.children[0].text.clone() })
        },
        Rule::goto_stm => {
            if n < 1 {
                return Err(ParseError::Missing(stm.loc.clone()));
            }
            Ok(Statement::Goto { loc: stm.loc.clone(), label: stm.children[0].text.clone() })
        },
        Rule::block => {
            match parse_block(stm) {
                Err(e) => Err(e),
                Ok(b) => Ok(Statement::Block(Box::new(b))),
            }
        },
        Rule::return_stm => {
            if n < 1 {
                return Err(ParseError::Missing(stm.loc.clone()));
            }
            match stm.children[0].rule {
                Rule::key_return => {},
                _ => {
                    return Err(
                        ParseError::Unexpected(stm.children[0].rule, stm.children[0].loc.clone()),
                    );
                },
            }
            if n < 2 {
                return Ok(Statement::Return { loc: stm.loc.clone(), expr: None });
            }
            match parse_expr(&stm.children[1]) {
                Err(e) => Err(e),
                Ok(e) => Ok(Statement::Return { loc: stm.loc.clone(), expr: Some(e) }),
            }
        },
        Rule::expr => {
            match parse_expr(stm) {
                Err(e) => Err(e),
                Ok(expr) => Ok(Statement::Expr { loc: stm.loc.clone(), expr }),
            }
        },
        Rule::if_stm | Rule::elseif_stm => {
            if n < 2 {
                return Err(ParseError::Missing(stm.loc.clone()));
            }
            let op = match stm.rule {
                Rule::if_stm => String::from_str("if"),
                _ => String::from_str("else if"),
            };
            let expr = match parse_expr(&stm.children[0]) {
                Err(e) => {
                    return Err(e);
                },
                Ok(e) => e,
            };
            match parse_block(&stm.children[1]) {
                Err(e) => Err(e),
                Ok(body) => Ok(Statement::Cond { op, expr: Some(expr), body }),
            }
        },
        Rule::else_stm => {
            if n < 1 {
                return Err(ParseError::Missing(stm.loc.clone()));
            }
            match parse_block(&stm.children[0]) {
                Err(e) => Err(e),
                Ok(body) => Ok(Statement::Cond { op: String::from_str("else"), expr: None, body }),
            }
        },
        Rule::for_stm => parse_for(stm),
        Rule::vardecl => parse_var(stm),
        Rule::assign => parse_assign(stm),
        _ => Err(ParseError::Unexpected(stm.rule, stm.loc.clone())),
    }
}

/// The visibility that the first `n` parts of a declaration write: that of
/// the last `shared` or `export`; private to the object file where there is
/// none.
pub open spec fn vis_of(parts: Seq<Node>, n: nat) -> Visibility
    decreases n,
{
    if n == 0 || n > parts.len() {
        Visibility::Object
    } else if parts[n - 1].rule == Rule::key_shared {
        Visibility::Shared
    } else if parts[n - 1].rule == Rule::exported {
        Visibility::Export
    } else {
        vis_of(parts, (n - 1) as nat)
    }
}

/// The name that the first `n` parts of a declaration export it under: the
/// last identifier of the last `export` that has one.
pub open spec fn export_name(parts: Seq<Node>, n: nat) -> Option<Seq<char>>
    decreases n,
{
    if n == 0 || n > parts.len() {
        None
    } else if parts[n - 1].rule == Rule::exported && parts[n - 1].children@.len() > 0 {
        Some(parts[n - 1].children@.last().text@)
    } else {
        export_name(parts, (n - 1) as nat)
    }
}

/// The first part of an `export` that is no identifier.
pub open spec fn exported_fault(items: Seq<Node>, n: nat) -> Option<ParseError>
    decreases n,
{
    if n == 0 || n > items.len() {
        None
    } else {
        sooner(
            exported_fault(items, (n - 1) as nat),
            if items[n - 1].rule != Rule::ident {
                Some(ParseError::Unexpected(items[n - 1].rule, items[n - 1].loc))
            } else {
                None
            },
        )
    }
}

proof fn lemma_exported_fault(items: Seq<Node>, k: nat, n: nat)
    requires
        k <= n <= items.len(),
    ensures
        exported_fault(items, k) is Some ==> exported_fault(items, n) == exported_fault(items, k),
    decreases n,
{
    if k < n {
        lemma_exported_fault(items, k, (n - 1) as nat);
    }
}

pub open spec fn text_view(o: Option<String>) -> Option<Seq<char>> {
    match o {
        Some(s) => Some(s@),
        None => None,
    }
}

/// Reads one `export` part: the name it gives, if any.
fn parse_exported(part: &Node) -> (r: Result<Option<String>, ParseError>)
    ensures
        lowers(
            r,
            exported_fault(part.children@, part.children@.len()),
            |o: Option<String>|
                text_view(o) == (if part.children@.len() > 0 {
                    Some(part.children@.last().text@)
                } else {
                    None
                }),
        ),
{
    let mut i: usize = 0;
    while i < part.children.len()
        invariant
            i <= part.children.len(),
            exported_fault(part.children@, i as nat) is None,
        decreases part.children.len() - i,
    {
        proof {
            lemma_exported_fault(part.children@, (i + 1) as nat, part.children@.len());
        }
        match part.children[i].rule {
            Rule::ident => {},
            _ => {
                return Err(
                    ParseError::Unexpected(part.children[i].rule, part.children[i].loc.clone()),
                );
            },
        }
        i = i + 1;
    }
    if part.children.len() > 0 {
        Ok(Some(part.children[part.children.len() - 1].text.clone()))
    } else {
        Ok(None)
    }
}

/// The first malformed argument among the first `n` of a parameter list.
pub open spec fn args_fault(items: Seq<Node>, n: nat) -> Option<ParseError>
    decreases n,
{
    if n == 0 || n > items.len() {
        None
    } else {
        sooner(args_fault(items, (n - 1) as nat), named_fault(items[n - 1]))
    }
}

pub open spec fn args_of(items: Seq<Node>, out: Seq<NamedArg>) -> bool {
    &&& out.len() == items.len()
    &&& forall|i: int| 0 <= i < items.len() ==> (#[trigger] out[i]).loc == items[i].loc
    &&& forall|i: int|
        0 <= i < items.len() ==> named_parts_of(
            items[i],
            (#[trigger] out[i]).name,
            out[i].typed,
            out[i].tags,
        )
}

proof fn lemma_args_fault(items: Seq<Node>, k: nat, n: nat)
    requires
        k <= n <= items.len(),
    ensures
        args_fault(items, k) is Some ==> args_fault(items, n) == args_fault(items, k),
    decreases n,
{
    if k < n {
        lemma_args_fault(items, k, (n - 1) as nat);
    }
}

fn parse_args(items: &Vec<Node>) -> (r: Result<Vec<NamedArg>, ParseError>)
    ensures
        lowers(r, args_fault(items@, items@.len()), |out: Vec<NamedArg>| args_of(items@, out@)),
{
    let mut out: Vec<NamedArg> = Vec::new();
    let mut i: usize = 0;
    while i < items.len()
        invariant
            i <= items.len(),
            out@.len() == i,
            args_fault(items@, i as nat) is None,
            forall|k: int| 0 <= k < i ==> (#[trigger] out@[k]).loc == items@[k].loc,
            forall|k: int|
                0 <= k < i ==> named_parts_of(
                    items@[k],
                    (#[trigger] out@[k]).name,
                    out@[k].typed,
                    out@[k].tags,
                ),
        decreases items.len() - i,
    {
        proof {
            lemma_args_fault(items@, (i + 1) as nat, items@.len());
        }
        match parse_named_type(&items[i]) {
            Err(e) => {
                return Err(e);
            },
            Ok(t) => {
                out.push(
                    NamedArg { typed: t.typed, name: t.name, tags: t.tags, loc: items[i].loc.clone() },
                );
            },
        }
        i = i + 1;
    }
    Ok(out)
}

/// The position of the first of the first `n` parts with rule `r`; `-1` where
/// there is none.
pub open spec fn first_with(parts: Seq<Node>, n: nat, r: Rule) -> int
    decreases n,
{
    if n == 0 || n > parts.len() {
        -1
    } else if first_with(parts, (n - 1) as nat, r) >= 0 {
        first_with(parts, (n - 1) as nat, r)
    } else if parts[n - 1].rule == r {
        n - 1
    } else {
        -1
    }
}

proof fn lemma_first_with(parts: Seq<Node>, n: nat, r: Rule)
    requires
        n <= parts.len(),
    ensures
        -1 <= first_with(parts, n, r) < n,
        first_with(parts, n, r) >= 0 ==> parts[first_with(parts, n, r)].rule == r,
    decreases n,
{
    if n > 0 {
        lemma_first_with(parts, (n - 1) as nat, r);
    }
}

/// The fault of the part at `n - 1` of a function declaration.
pub open spec fn function_part_fault(parts: Seq<Node>, n: nat) -> Option<ParseError> {
    let part = parts[n - 1];
    if part.rule == Rule::key_shared || part.rule == Rule::ident {
        None
    } else if part.rule == Rule::exported {
        exported_fault(part.children@, part.children@.len())
    } else if part.rule == Rule::ret_arg {
        if part.children@.len() < 1 {
            Some(ParseError::Missing(part.loc))
        } else {
            anon_fault(part.children@[0])
        }
    } else if part.rule == Rule::fn_args && first_with(parts, (n - 1) as nat, Rule::fn_args) < 0 {
        args_fault(part.children@, part.children@.len())
    } else if part.rule == Rule::block {
        block_fault(part)
    } else {
        Some(ParseError::Unexpected(part.rule, part.loc))
    }
}

pub open spec fn function_fault(parts: Seq<Node>, n: nat) -> Option<ParseError>
    decreases n,
{
    if n == 0 || n > parts.len() {
        None
    } else {
        sooner(function_fault(parts, (n - 1) as nat), function_part_fault(parts, n))
    }
}

proof fn lemma_function_fault(parts: Seq<Node>, k: nat, n: nat)
    requires
        k <= n <= parts.len(),
    ensures
        function_fault(parts, k) is Some ==> function_fault(parts, n) == function_fault(parts, k),
    decreases n,
{
    if k < n {
        lemma_function_fault(parts, k, (n - 1) as nat);
    }
}

/// Why a function declaration is malformed, if it is.
pub open spec fn function_decl_fault(decl: Node) -> Option<ParseError> {
    sooner(
        function_fault(decl.children@, decl.children@.len()),
        if last_with(decl.children@, decl.children@.len(), Rule::block) < 0 {
            Some(ParseError::Missing(decl.loc))
        } else {
            None
        },
    )
}

/// Whether `l` is what a function declaration writes: named by its last
/// identifier, with the return type, the arguments and the body written.
pub open spec fn function_of(decl: Node, l: Local) -> bool {
    let parts = decl.children@;
    let n = parts.len();
    &&& l.loc == decl.loc
    &&& l.vis == vis_of(parts, n)
    &&& text_view(l.export_as) == export_name(parts, n)
    &&& l.name@ == (if last_with(parts, n, Rule::ident) >= 0 {
        parts[last_with(parts, n, Rule::ident)].text@
    } else {
        Seq::empty()
    })
    &&& l.def matches Def::Function { ret, args, body, vararg } && !vararg && (if last_with(
        parts,
        n,
        Rule::ret_arg,
    ) >= 0 {
        parts[last_with(parts, n, Rule::ret_arg)].children@.len() >= 1 && ret is Some && typed_of(
            parts[last_with(parts, n, Rule::ret_arg)].children@[0],
            ret->0.typed,
            parts[last_with(parts, n, Rule::ret_arg)].children@[0].children@.len() as int,
        )
    } else {
        ret is None
    }) && (if first_with(parts, n, Rule::fn_args) >= 0 {
        args_of(parts[first_with(parts, n, Rule::fn_args)].children@, args@)
    } else {
        args@.len() == 0
    }) && 0 <= last_with(parts, n, Rule::block) < n && block_of(
        parts[last_with(parts, n, Rule::block)],
        body,
    )
}

/// The function that a `function` node declares; see
/// [`function_decl_fault`] and [`function_of`].
pub fn parse_function(decl: &Node) -> (r: Result<Local, ParseError>)
    ensures
        lowers(r, function_decl_fault(*decl), |l: Local| function_of(*decl, l)),
{
    let parts = &decl.children;
    let mut name = String::new();
    let mut export_as: Option<String> = None;
    let mut vis = Visibility::Object;
    let mut ret: Option<AnonArg> = None;
    let mut args: Option<Vec<NamedArg>> = None;
    let mut body: Option<Block> = None;
    let mut i: usize = 0;
    while i < parts.len()
        invariant
            i <= parts.len(),
            parts == &decl.children,
            function_fault(parts@, i as nat) is None,
            vis == vis_of(parts@, i as nat),
            text_view(export_as) == export_name(parts@, i as nat),
            name@ == (if last_with(parts@, i as nat, Rule::ident) >= 0 {
                parts@[last_with(parts@, i as nat, Rule::ident)].text@
            } else {
                Seq::empty()
            }),
            ret is Some <==> last_with(parts@, i as nat, Rule::ret_arg) >= 0,
            ret matches Some(a) ==> parts@[last_with(
                parts@,
                i as nat,
                Rule::ret_arg,
            )].children@.len() >= 1 && typed_of(
                parts@[last_with(parts@, i as nat, Rule::ret_arg)].children@[0],
                a.typed,
                parts@[last_with(parts@, i as nat, Rule::ret_arg)].children@[0].children@.len() as int,
            ),
            args is Some <==> first_with(parts@, i as nat, Rule::fn_args) >= 0,
            args matches Some(a) ==> args_of(
                parts@[first_with(parts@, i as nat, Rule::fn_args)].children@,
                a@,
            ),
            body is Some <==> last_with(parts@, i as nat, Rule::block) >= 0,
            body matches Some(b) ==> block_of(parts@[last_with(parts@, i as nat, Rule::block)], b),
        decreases parts.len() - i,
    {
        let part = &parts[i];
        proof {
            lemma_function_fault(parts@, (i + 1) as nat, parts@.len());
            lemma_positions(parts@, i as nat, Rule::ident, 1);
            lemma_positions(parts@, i as nat, Rule::ret_arg, 1);
            lemma_positions(parts@, i as nat, Rule::block, 1);
            lemma_first_with(parts@, i as nat, Rule::fn_args);
        }
        match part.rule {
            Rule::key_shared => {
                vis = Visibility::Shared;
            },
            Rule::exported => {
                vis = Visibility::Export;
                match parse_exported(part) {
                    Err(e) => {
                        return Err(e);
                    },
                    Ok(Some(a)) => {
                        export_as = Some(a);
                    },
                    Ok(None) => {},
                }
            },
            Rule::ident => {
                name = part.text.clone();
            },
            Rule::ret_arg => {
                if part.children.len() < 1 {
                    return Err(ParseError::Missing(part.loc.clone()));
                }
                match parse_anon_type(&part.children[0]) {
                    Err(e) => {
                        return Err(e);
                    },
                    Ok(typed) => {
                        ret = Some(AnonArg { typed });
                    },
                }
            },
            Rule::fn_args => {
                if args.is_some() {
                    return Err(ParseError::Unexpected(part.rule, part.loc.clone()));
                }
                match parse_args(&part.children) {
                    Err(e) => {
                        return Err(e);
                    },
                    Ok(a) => {
                        args = Some(a);
                    },
                }
            },
            Rule::block => {
                match parse_block(part) {
                    Err(e) => {
                        return Err(e);
                    },
                    Ok(b) => {
                        body = Some(b);
                    },
                }
            },
            _ => {
                return Err(ParseError::Unexpected(part.rule, part.loc.clone()));
            },
        }
        i = i + 1;
    }
    proof {
        lemma_positions(parts@, parts@.len(), Rule::block, 1);
    }
    let body = match body {
        None => {
            return Err(ParseError::Missing(decl.loc.clone()));
        },
        Some(b) => b,
    };
    let args = match args {
        Some(a) => a,
        None => Vec::new(),
    };
    Ok(
        Local {
            name,
            export_as,
            vis,
            loc: decl.loc.clone(),
            def: Def::Function { ret, args, body, vararg: false },
        },
    )
}

/// The texts of a list of nodes.
pub open spec fn texts(items: Seq<Node>) -> Seq<Seq<char>> {
    Seq::new(items.len(), |i: int| items[i].text@)
}

fn texts_of(items: &Vec<Node>) -> (out: Vec<String>)
    ensures
        strs(out@) == texts(items@),
{
    let mut out: Vec<String> = Vec::new();
    let mut i: usize = 0;
    while i < items.len()
        invariant
            i <= items.len(),
            out@.len() == i,
            forall|k: int| 0 <= k < i ==> out@[k]@ == items@[k].text@,
        decreases items.len() - i,
    {
        out.push(items[i].text.clone());
        i = i + 1;
    }
    proof {
        assert(strs(out@) =~= texts(items@));
    }
    out
}

/// The fault of the part at `n - 1` of a macro declaration.
pub open spec fn macro_part_fault(parts: Seq<Node>, n: nat) -> Option<ParseError> {
    let part = parts[n - 1];
    if part.rule == Rule::key_shared {
        None
    } else if part.rule == Rule::exported {
        exported_fault(part.children@, part.children@.len())
    } else if (part.rule == Rule::ident || part.rule == Rule::macro_args) && first_with(
        parts,
        (n - 1) as nat,
        part.rule,
    ) < 0 {
        None
    } else if part.rule == Rule::block && first_with(parts, (n - 1) as nat, Rule::block) < 0 {
        block_fault(part)
    } else {
        Some(ParseError::Unexpected(part.rule, part.loc))
    }
}

pub open spec fn macro_fault(parts: Seq<Node>, n: nat) -> Option<ParseError>
    decreases n,
{
    if n == 0 || n > parts.len() {
        None
    } else {
        sooner(macro_fault(parts, (n - 1) as nat), macro_part_fault(parts, n))
    }
}

proof fn lemma_macro_fault(parts: Seq<Node>, k: nat, n: nat)
    requires
        k <= n <= parts.len(),
    ensures
        macro_fault(parts, k) is Some ==> macro_fault(parts, n) == macro_fault(parts, k),
    decreases n,
{
    if k < n {
        lemma_macro_fault(parts, k, (n - 1) as nat);
    }
}

/// Why a macro declaration is malformed, if it is.
pub open spec fn macro_decl_fault(decl: Node) -> Option<ParseError> {
    sooner(
        macro_fault(decl.children@, decl.children@.len()),
        if first_with(decl.children@, decl.children@.len(), Rule::ident) < 0 || first_with(
            decl.children@,
            decl.children@.len(),
            Rule::block,
        ) < 0 {
            Some(ParseError::Missing(decl.loc))
        } else {
            None
        },
    )
}

/// Whether `l` is what a macro declaration writes.
pub open spec fn macro_of(decl: Node, l: Local) -> bool {
    let parts = decl.children@;
    let n = parts.len();
    &&& l.loc == decl.loc
    &&& l.vis == vis_of(parts, n)
    &&& text_view(l.export_as) == export_name(parts, n)
    &&& 0 <= first_with(parts, n, Rule::ident) < n
    &&& l.name@ == parts[first_with(parts, n, Rule::ident)].text@
    &&& 0 <= first_with(parts, n, Rule::block) < n
    &&& l.def matches Def::Macro { args, body } && strs(args@) == (if first_with(
        parts,
        n,
        Rule::macro_args,
    ) >= 0 {
        texts(parts[first_with(parts, n, Rule::macro_args)].children@)
    } else {
        Seq::empty()
    }) && block_of(parts[first_with(parts, n, Rule::block)], body)
}

/// The macro that an `imacro` node declares; see [`macro_decl_fault`] and
/// [`macro_of`].
pub fn parse_macro(decl: &Node) -> (r: Result<Local, ParseError>)
    ensures
        lowers(r, macro_decl_fault(*decl), |l: Local| macro_of(*decl, l)),
{
    let parts = &decl.children;
    let mut name: Option<String> = None;
    let mut export_as: Option<String> = None;
    let mut vis = Visibility::Object;
    let mut args: Option<Vec<String>> = None;
    let mut body: Option<Block> = None;
    let mut i: usize = 0;
    while i < parts.len()
        invariant
            i <= parts.len(),
            parts == &decl.children,
            macro_fault(parts@, i as nat) is None,
            vis == vis_of(parts@, i as nat),
            text_view(export_as) == export_name(parts@, i as nat),
            name is Some <==> first_with(parts@, i as nat, Rule::ident) >= 0,
            name matches Some(x) ==> x@ == parts@[first_with(parts@, i as nat, Rule::ident)].text@,
            args is Some <==> first_with(parts@, i as nat, Rule::macro_args) >= 0,
            args matches Some(a) ==> strs(a@) == texts(
                parts@[first_with(parts@, i as nat, Rule::macro_args)].children@,
            ),
            body is Some <==> first_with(parts@, i as nat, Rule::block) >= 0,
            body matches Some(b) ==> block_of(parts@[first_with(parts@, i as nat, Rule::block)], b),
        decreases parts.len() - i,
    {
        let part = &parts[i];
        proof {
            lemma_macro_fault(parts@, (i + 1) as nat, parts@.len());
            lemma_first_with(parts@, i as nat, Rule::ident);
            lemma_first_with(parts@, i as nat, Rule::macro_args);
            lemma_first_with(parts@, i as nat, Rule::block);
        }
        match part.rule {
            Rule::key_shared => {
                vis = Visibility::Shared;
            },
            Rule::exported => {
                vis = Visibility::Export;
                match parse_exported(part) {
                    Err(e) => {
                        return Err(e);
                    },
                    Ok(Some(a)) => {
                        export_as = Some(a);
                    },
                    Ok(None) => {},
                }
            },
            Rule::ident => {
                if name.is_some() {
                    return Err(ParseError::Unexpected(part.rule, part.loc.clone()));
                }
                name = Some(part.text.clone());
            },
            Rule::macro_args => {
                if args.is_some() {
                    return Err(ParseError::Unexpected(part.rule, part.loc.clone()));
                }
                args = Some(texts_of(&part.children));
            },
            Rule::block => {
                if body.is_some() {
                    return Err(ParseError::Unexpected(part.rule, part.loc.clone()));
                }
                match parse_block(part) {
                    Err(e) => {
                        return Err(e);
                    },
                    Ok(b) => {
                        body = Some(b);
                    },
                }
            },
            _ => {
                return Err(ParseError::Unexpected(part.rule, part.loc.clone()));
            },
        }
        i = i + 1;
    }
    proof {
        lemma_first_with(parts@, parts@.len(), Rule::ident);
        lemma_first_with(parts@, parts@.len(), Rule::block);
    }
    match (name, body) {
        (Some(name), Some(body)) => {
            let args = match args {
                Some(a) => a,
                None => {
                    let a: Vec<String> = Vec::new();
                    proof {
                        assert(strs(a@) =~= Seq::<Seq<char>>::empty());
                    }
                    a
                },
            };
            Ok(Local { name, export_as, vis, loc: decl.loc.clone(), def: Def::Macro { args, body } })
        },
        _ => Err(ParseError::Missing(decl.loc.clone())),
    }
}

/// The positions of the parts with rule `r` among the first `n`.
pub open spec fn rule_items(parts: Seq<Node>, n: nat, r: Rule) -> Seq<int>
    decreases n,
{
    if n == 0 || n > parts.len() {
        Seq::empty()
    } else if parts[n - 1].rule == r {
        rule_items(parts, (n - 1) as nat, r).push(n - 1)
    } else {
        rule_items(parts, (n - 1) as nat, r)
    }
}

/// Why a field of a struct is malformed, if it is.
pub open spec fn field_fault(f: Node) -> Option<ParseError> {
    if f.children@.len() < 1 {
        Some(ParseError::Missing(f.loc))
    } else {
        sooner(
            named_fault(f.children@[0]),
            if f.children@.len() >= 2 && f.children@[1].children@.len() >= 1 {
                expr_fault(f.children@[1].children@[0])
            } else {
                None
            },
        )
    }
}

/// Whether `out` is what a field node writes: the declared name with its type
/// and tags, and after it no array, an array without a size, or an array with
/// the size written.
pub open spec fn field_of(f: Node, out: Field) -> bool {
    &&& f.children@.len() >= 1
    &&& out.loc == f.loc
    &&& named_parts_of(f.children@[0], out.name, out.typed, out.tags)
    &&& (if f.children@.len() < 2 {
        out.array is Absent
    } else if f.children@[1].children@.len() < 1 {
        out.array is Unsized
    } else {
        out.array is Sized && expr_of(f.children@[1].children@[0], out.array->Sized_0)
    })
}

fn parse_field(f: &Node) -> (r: Result<Field, ParseError>)
    ensures
        lowers(r, field_fault(*f), |out: Field| field_of(*f, out)),
{
    if f.children.len() < 1 {
        return Err(ParseError::Missing(f.loc.clone()));
    }
    let t = match parse_named_type(&f.children[0]) {
        Err(e) => {
            return Err(e);
        },
        Ok(t) => t,
    };
    let array = if f.children.len() < 2 {
        Array::Absent
    } else if f.children[1].children.len() < 1 {
        Array::Unsized
    } else {
        match parse_expr(&f.children[1].children[0]) {
            Err(e) => {
                return Err(e);
            },
            Ok(e) => Array::Sized(e),
        }
    };
    Ok(Field { typed: t.typed, name: t.name, array, tags: t.tags, loc: f.loc.clone() })
}

/// The fault of the part at `n - 1` of a struct declaration.
pub open spec fn struct_part_fault(part: Node) -> Option<ParseError> {
    if part.rule == Rule::key_packed || part.rule == Rule::key_shared || part.rule == Rule::ident {
        None
    } else if part.rule == Rule::exported {
        exported_fault(part.children@, part.children@.len())
    } else if part.rule == Rule::struct_f {
        field_fault(part)
    } else {
        Some(ParseError::Unexpected(part.rule, part.loc))
    }
}

pub open spec fn struct_fault(parts: Seq<Node>, n: nat) -> Option<ParseError>
    decreases n,
{
    if n == 0 || n > parts.len() {
        None
    } else {
        sooner(struct_fault(parts, (n - 1) as nat), struct_part_fault(parts[n - 1]))
    }
}

proof fn lemma_struct_fault(parts: Seq<Node>, k: nat, n: nat)
    requires
        k <= n <= parts.len(),
    ensures
        struct_fault(parts, k) is Some ==> struct_fault(parts, n) == struct_fault(parts, k),
    decreases n,
{
    if k < n {
        lemma_struct_fault(parts, k, (n - 1) as nat);
    }
}

/// Why a struct declaration is malformed, if it is.
pub open spec fn struct_decl_fault(decl: Node) -> Option<ParseError> {
    sooner(
        struct_fault(decl.children@, decl.children@.len()),
        if last_with(decl.children@, decl.children@.len(), Rule::ident) < 0 {
            Some(ParseError::Missing(decl.loc))
        } else {
            None
        },
    )
}

/// Whether the fields `out` are what the parts at the positions `at` write.
pub open spec fn fields_of(parts: Seq<Node>, at: Seq<int>, out: Seq<Field>) -> bool {
    out.len() == at.len() && forall|j: int|
        0 <= j < at.len() && 0 <= at[j] < parts.len() ==> field_of(parts[at[j]], #[trigger] out[j])
}

/// The tail of a struct with these fields: sized at run time where the last
/// field is an array without a size, none otherwise.
pub open spec fn tail_of(fields: Seq<Field>) -> Tail {
    if fields.len() > 0 && fields.last().array is Unsized {
        Tail::Dynamic
    } else {
        Tail::Absent
    }
}

/// Whether `l` is what a struct declaration writes: named by its last
/// identifier and placed there, with the fields in order.
pub open spec fn struct_of(decl: Node, l: Local) -> bool {
    let parts = decl.children@;
    let n = parts.len();
    &&& 0 <= last_with(parts, n, Rule::ident) < n
    &&& l.loc == parts[last_with(parts, n, Rule::ident)].loc
    &&& l.name@ == parts[last_with(parts, n, Rule::ident)].text@
    &&& l.vis == vis_of(parts, n)
    &&& text_view(l.export_as) == export_name(parts, n)
    &&& l.def matches Def::Struct { fields, packed, tail, union } && !union && packed == (
    last_with(parts, n, Rule::key_packed) >= 0) && fields_of(
        parts,
        rule_items(parts, n, Rule::struct_f),
        fields@,
    ) && tail == tail_of(fields@)
}

/// The struct that a `struct_d` node declares; see [`struct_decl_fault`] and
/// [`struct_of`].
pub fn parse_struct(decl: &Node) -> (r: Result<Local, ParseError>)
    ensures
        lowers(r, struct_decl_fault(*decl), |l: Local| struct_of(*decl, l)),
{
    let parts = &decl.children;
    let mut name: Option<(String, Location)> = None;
    let mut export_as: Option<String> = None;
    let mut vis = Visibility::Object;
    let mut packed = false;
    let mut fields: Vec<Field> = Vec::new();
    let mut i: usize = 0;
    while i < parts.len()
        invariant
            i <= parts.len(),
            parts == &decl.children,
            struct_fault(parts@, i as nat) is None,
            vis == vis_of(parts@, i as nat),
            text_view(export_as) == export_name(parts@, i as nat),
            packed == (last_with(parts@, i as nat, Rule::key_packed) >= 0),
            name is Some <==> last_with(parts@, i as nat, Rule::ident) >= 0,
            name matches Some(x) ==> x.0@ == parts@[last_with(parts@, i as nat, Rule::ident)].text@
                && x.1 == parts@[last_with(parts@, i as nat, Rule::ident)].loc,
            fields_of(parts@, rule_items(parts@, i as nat, Rule::struct_f), fields@),
        decreases parts.len() - i,
    {
        let part = &parts[i];
        let ghost before = rule_items(parts@, i as nat, Rule::struct_f);
        let ghost now = rule_items(parts@, (i + 1) as nat, Rule::struct_f);
        let ghost f0 = fields@;
        proof {
            lemma_struct_fault(parts@, (i + 1) as nat, parts@.len());
            lemma_positions(parts@, i as nat, Rule::ident, 1);
            lemma_positions(parts@, i as nat, Rule::key_packed, 1);
        }
        match part.rule {
            Rule::key_packed => {
                packed = true;
            },
            Rule::key_shared => {
                vis = Visibility::Shared;
            },
            Rule::exported => {
                vis = Visibility::Export;
                match parse_exported(part) {
                    Err(e) => {
                        return Err(e);
                    },
                    Ok(Some(a)) => {
                        export_as = Some(a);
                    },
                    Ok(None) => {},
                }
            },
            Rule::ident => {
                name = Some((part.text.clone(), part.loc.clone()));
            },
            Rule::struct_f => {
                match parse_field(part) {
                    Err(e) => {
                        return Err(e);
                    },
                    Ok(f) => {
                        fields.push(f);
                    },
                }
            },
            _ => {
                return Err(ParseError::Unexpected(part.rule, part.loc.clone()));
            },
        }
        proof {
            assert forall|j: int| 0 <= j < now.len() && 0 <= now[j] < parts@.len() implies field_of(
                parts@[now[j]],
                #[trigger] fields@[j],
            ) by {
                if j < before.len() {
                    assert(now[j] == before[j]);
                    assert(fields@[j] == f0[j]);
                }
            }
        }
        i = i + 1;
    }
    proof {
        lemma_positions(parts@, parts@.len(), Rule::ident, 1);
    }
    match name {
        None => Err(ParseError::Missing(decl.loc.clone())),
        Some((name, loc)) => {
            let tail = if fields.len() > 0 {
                match fields[fields.len() - 1].array {
                    Array::Unsized => Tail::Dynamic,
                    _ => Tail::Absent,
                }
            } else {
                Tail::Absent
            };
            Ok(
                Local {
                    name,
                    export_as,
                    vis,
                    loc,
                    def: Def::Struct { fields, packed, tail, union: false },
                },
            )
        },
    }
}

/// The storage class that the first `n` parts of a declaration write: that of
/// the last keyword; `static` where there is none.
pub open spec fn storage_of(parts: Seq<Node>, n: nat) -> Storage
    decreases n,
{
    if n == 0 || n > parts.len() {
        Storage::Static
    } else if parts[n - 1].rule == Rule::key_thread_local {
        Storage::ThreadLocal
    } else if parts[n - 1].rule == Rule::key_static {
        Storage::Static
    } else if parts[n - 1].rule == Rule::key_atomic {
        Storage::Atomic
    } else {
        storage_of(parts, (n - 1) as nat)
    }
}

/// The fault of the part at `n - 1` of the declaration of a static variable
/// (`fixed`) or of a constant.
pub open spec fn value_part_fault(parts: Seq<Node>, n: nat, fixed: bool) -> Option<ParseError> {
    let part = parts[n - 1];
    if part.rule == Rule::key_thread_local || part.rule == Rule::key_static || part.rule
        == Rule::key_atomic {
        None
    } else if part.rule == Rule::key_shared || part.rule == Rule::exported {
        if fixed {
            Some(ParseError::StaticVisibility(part.loc))
        } else {
            None
        }
    } else if part.rule == Rule::named_type {
        named_fault(part)
    } else if part.rule == Rule::expr && first_with(parts, (n - 1) as nat, Rule::expr) < 0 {
        expr_fault(part)
    } else {
        Some(ParseError::Unexpected(part.rule, part.loc))
    }
}

pub open spec fn value_fault(parts: Seq<Node>, n: nat, fixed: bool) -> Option<ParseError>
    decreases n,
{
    if n == 0 || n > parts.len() {
        None
    } else {
        sooner(value_fault(parts, (n - 1) as nat, fixed), value_part_fault(parts, n, fixed))
    }
}

proof fn lemma_value_fault(parts: Seq<Node>, k: nat, n: nat, fixed: bool)
    requires
        k <= n <= parts.len(),
    ensures
        value_fault(parts, k, fixed) is Some ==> value_fault(parts, n, fixed) == value_fault(
            parts,
            k,
            fixed,
        ),
    decreases n,
{
    if k < n {
        lemma_value_fault(parts, k, (n - 1) as nat, fixed);
    }
}

/// The tags that no pointer took up in a type with a name.
pub open spec fn own_tags(named: Node) -> Seq<Tag> {
    pending(named.children@, 1, named.children@.len() - 1)
}

/// Why the declaration of a static variable or of a constant is malformed, if
/// it is. A static variable keeps to its object file; a constant takes no tags.
pub open spec fn value_decl_fault(decl: Node) -> Option<ParseError> {
    let parts = decl.children@;
    let n = parts.len();
    if decl.rule != Rule::istatic && decl.rule != Rule::constant {
        Some(ParseError::Unexpected(decl.rule, decl.loc))
    } else {
        sooner(
            value_fault(parts, n, decl.rule == Rule::istatic),
            if last_with(parts, n, Rule::named_type) < 0 || first_with(parts, n, Rule::expr) < 0 {
                Some(ParseError::Missing(decl.loc))
            } else if decl.rule == Rule::constant && own_tags(
                parts[last_with(parts, n, Rule::named_type)],
            ).len() > 0 {
                Some(
                    ParseError::TagsNotAllowed(
                        own_tags(parts[last_with(parts, n, Rule::named_type)])[0].1,
                    ),
                )
            } else {
                None
            },
        )
    }
}

/// Whether `l` is what the declaration of a static variable or of a constant
/// writes.
pub open spec fn value_of(decl: Node, l: Local) -> bool {
    let parts = decl.children@;
    let n = parts.len();
    let named = parts[last_with(parts, n, Rule::named_type)];
    let value = parts[first_with(parts, n, Rule::expr)];
    &&& 0 <= last_with(parts, n, Rule::named_type) < n
    &&& 0 <= first_with(parts, n, Rule::expr) < n
    &&& named.children@.len() >= 2
    &&& l.loc == decl.loc
    &&& l.export_as is None
    &&& l.name@ == named.children@.last().text@
    &&& if decl.rule == Rule::istatic {
        l.vis == Visibility::Object && (l.def matches Def::Static { tags, typed, expr, storage }
            && storage == storage_of(parts, n) && typed_of(
            named,
            typed,
            named.children@.len() - 1,
        ) && tags@ == tags_map(own_tags(named), own_tags(named).len()) && expr_of(value, expr))
    } else {
        l.vis == vis_of(parts, n) && (l.def matches Def::Const { typed, expr } && typed_of(
            named,
            typed,
            named.children@.len() - 1,
        ) && expr_of(value, expr))
    }
}

/// The static variable or constant that an `istatic` or `constant` node
/// declares; see [`value_decl_fault`] and [`value_of`].
pub fn parse_value(decl: &Node) -> (r: Result<Local, ParseError>)
    ensures
        lowers(r, value_decl_fault(*decl), |l: Local| value_of(*decl, l)),
{
    let fixed = match decl.rule {
        Rule::istatic => true,
        Rule::constant => false,
        _ => {
            return Err(ParseError::Unexpected(decl.rule, decl.loc.clone()));
        },
    };
    let parts = &decl.children;
    let mut storage = Storage::Static;
    let mut vis = Visibility::Object;
    let mut typed: Option<TypedName> = None;
    let mut expr: Option<Expression> = None;
    let mut i: usize = 0;
    while i < parts.len()
        invariant
            i <= parts.len(),
            parts == &decl.children,
            fixed == (decl.rule == Rule::istatic),
            decl.rule == Rule::istatic || decl.rule == Rule::constant,
            value_fault(parts@, i as nat, fixed) is None,
            storage == storage_of(parts@, i as nat),
            !fixed ==> vis == vis_of(parts@, i as nat),
            typed is Some <==> last_with(parts@, i as nat, Rule::named_type) >= 0,
            typed matches Some(t) ==> named_of(
                parts@[last_with(parts@, i as nat, Rule::named_type)],
                t,
            ) && parts@[last_with(parts@, i as nat, Rule::named_type)].children@.len() >= 2,
            expr is Some <==> first_with(parts@, i as nat, Rule::expr) >= 0,
            expr matches Some(e) ==> expr_of(parts@[first_with(parts@, i as nat, Rule::expr)], e),
        decreases parts.len() - i,
    {
        let part = &parts[i];
        proof {
            lemma_value_fault(parts@, (i + 1) as nat, parts@.len(), fixed);
            lemma_positions(parts@, i as nat, Rule::named_type, 1);
            lemma_first_with(parts@, i as nat, Rule::expr);
        }
        match part.rule {
            Rule::key_thread_local => {
                storage = Storage::ThreadLocal;
            },
            Rule::key_static => {
                storage = Storage::Static;
            },
            Rule::key_atomic => {
                storage = Storage::Atomic;
            },
            Rule::key_shared => {
                if fixed {
                    return Err(ParseError::StaticVisibility(part.loc.clone()));
                }
                vis = Visibility::Shared;
            },
            Rule::exported => {
                if fixed {
                    return Err(ParseError::StaticVisibility(part.loc.clone()));
                }
                vis = Visibility::Export;
            },
            Rule::named_type => {
                match parse_named_type(part) {
                    Err(e) => {
                        return Err(e);
                    },
                    Ok(t) => {
                        typed = Some(t);
                    },
                }
            },
            Rule::expr => {
                if expr.is_some() {
                    return Err(ParseError::Unexpected(part.rule, part.loc.clone()));
                }
                match parse_expr(part) {
                    Err(e) => {
                        return Err(e);
                    },
                    Ok(e) => {
                        expr = Some(e);
                    },
                }
            },
            _ => {
                return Err(ParseError::Unexpected(part.rule, part.loc.clone()));
            },
        }
        i = i + 1;
    }
    proof {
        lemma_positions(parts@, parts@.len(), Rule::named_type, 1);
        lemma_first_with(parts@, parts@.len(), Rule::expr);
    }
    match (typed, expr) {
        (Some(t), Some(expr)) => {
            if fixed {
                Ok(
                    Local {
                        export_as: None,
                        name: t.name,
                        loc: decl.loc.clone(),
                        vis: Visibility::Object,
                        def: Def::Static { tags: t.tags, typed: t.typed, expr, storage },
                    },
                )
            } else {
                match t.tagged_at {
                    Some(l) => Err(ParseError::TagsNotAllowed(l)),
                    None => Ok(
                        Local {
                            export_as: None,
                            name: t.name,
                            loc: decl.loc.clone(),
                            vis,
                            def: Def::Const { typed: t.typed, expr },
                        },
                    ),
                }
            }
        },
        _ => Err(ParseError::Missing(decl.loc.clone())),
    }
}

/// The first part, among the first `n` of an import, that is neither
/// `export` nor the path.
pub open spec fn import_head_fault(parts: Seq<Node>, n: nat) -> Option<ParseError>
    decreases n,
{
    if n == 0 || n > parts.len() {
        None
    } else {
        sooner(
            import_head_fault(parts, (n - 1) as nat),
            if parts[n - 1].rule == Rule::exported || parts[n - 1].rule == Rule::importname {
                None
            } else {
                Some(ParseError::Unexpected(parts[n - 1].rule, parts[n - 1].loc))
            },
        )
    }
}

proof fn lemma_import_head_fault(parts: Seq<Node>, k: nat, n: nat)
    requires
        k <= n <= parts.len(),
    ensures
        import_head_fault(parts, k) is Some ==> import_head_fault(parts, n) == import_head_fault(
            parts,
            k,
        ),
    decreases n,
{
    if k < n {
        lemma_import_head_fault(parts, k, (n - 1) as nat);
    }
}

/// Why an import is malformed, if it is. What follows the path is not read.
pub open spec fn import_decl_fault(decl: Node) -> Option<ParseError> {
    let parts = decl.children@;
    let at = first_with(parts, parts.len(), Rule::importname);
    if at < 0 {
        sooner(import_head_fault(parts, parts.len()), Some(ParseError::Missing(decl.loc)))
    } else {
        sooner(import_head_fault(parts, at as nat), import_fault(parts[at]))
    }
}

/// Whether `im` is what an import writes: the path and the picks, exported
/// where `export` stands before the path.
pub open spec fn import_of(decl: Node, im: Import) -> bool {
    let parts = decl.children@;
    let at = first_with(parts, parts.len(), Rule::importname);
    &&& 0 <= at < parts.len()
    &&& im.loc == decl.loc
    &&& im.alias is None
    &&& im.vis == (if last_with(parts, at as nat, Rule::exported) >= 0 {
        Visibility::Export
    } else {
        Visibility::Object
    })
    &&& im.name@ == import_segments(parts[at])
    &&& picks_of(im.local@) == import_picks(parts[at])
}

/// A position that is the first with its rule stays so when more parts are
/// read.
proof fn lemma_first_found(parts: Seq<Node>, k: nat, n: nat, r: Rule)
    requires
        k <= n <= parts.len(),
        first_with(parts, k, r) >= 0,
    ensures
        first_with(parts, n, r) == first_with(parts, k, r),
    decreases n,
{
    if k < n {
        lemma_first_found(parts, k, (n - 1) as nat, r);
    }
}

/// The import that an `import` node writes; see [`import_decl_fault`] and
/// [`import_of`].
pub fn parse_import(decl: &Node) -> (r: Result<Import, ParseError>)
    ensures
        lowers(r, import_decl_fault(*decl), |im: Import| import_of(*decl, im)),
{
    let parts = &decl.children;
    let mut vis = Visibility::Object;
    let mut i: usize = 0;
    while i < parts.len()
        invariant
            i <= parts.len(),
            parts == &decl.children,
            import_head_fault(parts@, i as nat) is None,
            first_with(parts@, i as nat, Rule::importname) < 0,
            vis == (if last_with(parts@, i as nat, Rule::exported) >= 0 {
                Visibility::Export
            } else {
                Visibility::Object
            }),
        decreases parts.len() - i,
    {
        let part = &parts[i];
        proof {
            lemma_import_head_fault(parts@, (i + 1) as nat, parts@.len());
            lemma_first_with(parts@, i as nat, Rule::importname);
        }
        match part.rule {
            Rule::importname => {
                proof {
                    assert(first_with(parts@, (i + 1) as nat, Rule::importname) == i);
                    lemma_first_found(parts@, (i + 1) as nat, parts@.len(), Rule::importname);
                }
                return match parse_importname(part) {
                    Err(e) => Err(e),
                    Ok((name, local)) => Ok(
                        Import { name, alias: None, local, vis, loc: decl.loc.clone() },
                    ),
                };
            },
            Rule::exported => {
                vis = Visibility::Export;
            },
            _ => {
                proof {
                    lemma_first_with(parts@, parts@.len(), Rule::importname);
                    if first_with(parts@, parts@.len(), Rule::importname) >= 0 {
                        let at = first_with(parts@, parts@.len(), Rule::importname);
                        lemma_first_before(parts@, (i + 1) as nat, parts@.len(), Rule::importname);
                        lemma_import_head_fault(parts@, (i + 1) as nat, at as nat);
                    }
                }
                return Err(ParseError::Unexpected(part.rule, part.loc.clone()));
            },
        }
        i = i + 1;
    }
    Err(ParseError::Missing(decl.loc.clone()))
}

/// Where no part with the rule is among the first `k`, the first one among
/// the first `n` stands at or after `k`.
proof fn lemma_first_before(parts: Seq<Node>, k: nat, n: nat, r: Rule)
    requires
        k <= n <= parts.len(),
        first_with(parts, k, r) < 0,
    ensures
        first_with(parts, n, r) < 0 || first_with(parts, n, r) >= k,
    decreases n,
{
    if k < n {
        lemma_first_before(parts, k, (n - 1) as nat, r);
        lemma_first_with(parts, (n - 1) as nat, r);
    }
}

/// Whether `inc` is what an include of a C header writes: the header as
/// written, not yet resolved to a name.
pub open spec fn include_of(decl: Node, inc: Include) -> bool {
    inc.loc == decl.loc && inc.fqn@.len() == 0 && inc.expr@ == (if decl.children@.len() > 0 {
        decl.children@[0].text@
    } else {
        decl.text@
    })
}

/// The include that a header node writes.
pub fn parse_include(decl: &Node) -> (inc: Include)
    ensures
        include_of(*decl, inc),
{
    let expr = if decl.children.len() > 0 {
        decl.children[0].text.clone()
    } else {
        decl.text.clone()
    };
    let fqn = Name(Vec::new());
    proof {
        assert(fqn@ =~= Seq::<Seq<char>>::empty());
    }
    Include { expr, loc: decl.loc.clone(), fqn }
}

/// Whether a rule is that of a declaration that defines something.
pub open spec fn defines(r: Rule) -> bool {
    r == Rule::imacro || r == Rule::function || r == Rule::struct_d || r == Rule::istatic || r
        == Rule::constant
}

/// Why a top-level declaration is malformed, if it is. Comments and the end
/// of input are passed over.
pub open spec fn decl_fault(decl: Node) -> Option<ParseError> {
    if decl.rule == Rule::imacro {
        macro_decl_fault(decl)
    } else if decl.rule == Rule::function {
        function_decl_fault(decl)
    } else if decl.rule == Rule::struct_d {
        struct_decl_fault(decl)
    } else if decl.rule == Rule::istatic || decl.rule == Rule::constant {
        value_decl_fault(decl)
    } else if decl.rule == Rule::import {
        import_decl_fault(decl)
    } else if decl.rule == Rule::c_header || decl.rule == Rule::comment || decl.rule == Rule::EOI {
        None
    } else {
        Some(ParseError::Unexpected(decl.rule, decl.loc))
    }
}

/// Whether `l` is what a defining declaration writes.
pub open spec fn local_of(decl: Node, l: Local) -> bool {
    if decl.rule == Rule::imacro {
        macro_of(decl, l)
    } else if decl.rule == Rule::function {
        function_of(decl, l)
    } else if decl.rule == Rule::struct_d {
        struct_of(decl, l)
    } else {
        value_of(decl, l)
    }
}

pub open spec fn decls_fault(decls: Seq<Node>, n: nat) -> Option<ParseError>
    decreases n,
{
    if n == 0 || n > decls.len() {
        None
    } else {
        sooner(decls_fault(decls, (n - 1) as nat), decl_fault(decls[n - 1]))
    }
}

proof fn lemma_decls_fault(decls: Seq<Node>, k: nat, n: nat)
    requires
        k <= n <= decls.len(),
    ensures
        decls_fault(decls, k) is Some ==> decls_fault(decls, n) == decls_fault(decls, k),
    decreases n,
{
    if k < n {
        lemma_decls_fault(decls, k, (n - 1) as nat);
    }
}

/// The positions of the defining declarations among the first `n`.
pub open spec fn defining(decls: Seq<Node>, n: nat) -> Seq<int>
    decreases n,
{
    if n == 0 || n > decls.len() {
        Seq::empty()
    } else if defines(decls[n - 1].rule) {
        defining(decls, (n - 1) as nat).push(n - 1)
    } else {
        defining(decls, (n - 1) as nat)
    }
}

pub open spec fn locals_of(decls: Seq<Node>, at: Seq<int>, out: Seq<Local>) -> bool {
    out.len() == at.len() && forall|j: int|
        0 <= j < at.len() && 0 <= at[j] < decls.len() ==> local_of(decls[at[j]], #[trigger] out[j])
}

pub open spec fn imports_of(decls: Seq<Node>, at: Seq<int>, out: Seq<Import>) -> bool {
    out.len() == at.len() && forall|j: int|
        0 <= j < at.len() && 0 <= at[j] < decls.len() ==> import_of(decls[at[j]], #[trigger] out[j])
}

pub open spec fn includes_of(decls: Seq<Node>, at: Seq<int>, out: Seq<Include>) -> bool {
    out.len() == at.len() && forall|j: int|
        0 <= j < at.len() && 0 <= at[j] < decls.len() ==> include_of(
            decls[at[j]],
            #[trigger] out[j],
        )
}

/// Why the parse tree of a file is no module, if it is not.
pub open spec fn file_fault(file: Node) -> Option<ParseError> {
    if file.rule != Rule::file {
        Some(ParseError::Unexpected(file.rule, file.loc))
    } else {
        decls_fault(file.children@, file.children@.len())
    }
}

/// Whether `m` is the module that the parse tree of a file writes: named by
/// the file's stem, read from `path`, with the file itself as its one source so
/// far, and holding what the declarations define, import and include, each
/// kind in the order written.
pub open spec fn module_of(file: Node, path: Seq<char>, canonical: Seq<char>, stem: Seq<char>, m: Module) -> bool {
    let decls = file.children@;
    let n = decls.len();
    &&& m.name@ == split_path(stem)
    &&& m.source@ == path
    &&& strs(m.sources@) == seq![canonical]
    &&& m.aliases@.len() == 0
    &&& locals_of(decls, defining(decls, n), m.locals@)
    &&& imports_of(decls, rule_items(decls, n, Rule::import), m.imports@)
    &&& includes_of(decls, rule_items(decls, n, Rule::c_header), m.includes@)
}

/// The definition that a defining declaration writes.
fn parse_local(decl: &Node) -> (r: Result<Local, ParseError>)
    requires
        defines(decl.rule),
    ensures
        lowers(r, decl_fault(*decl), |l: Local| local_of(*decl, l)),
{
    match decl.rule {
        Rule::imacro => parse_macro(decl),
        Rule::function => parse_function(decl),
        Rule::struct_d => parse_struct(decl),
        _ => parse_value(decl),
    }
}

/// The module that the parse tree of a file writes; see [`file_fault`] and
/// [`module_of`].
pub fn p(file: &Node, path: &str, canonical: &str, stem: &str) -> (r: Result<Module, ParseError>)
    ensures
        lowers(r, file_fault(*file), |m: Module| module_of(*file, path@, canonical@, stem@, m)),
{
    match file.rule {
        Rule::file => {},
        _ => {
            return Err(ParseError::Unexpected(file.rule, file.loc.clone()));
        },
    }
    let decls = &file.children;
    let mut locals: Vec<Local> = Vec::new();
    let mut imports: Vec<Import> = Vec::new();
    let mut includes: Vec<Include> = Vec::new();
    let mut i: usize = 0;
    while i < decls.len()
        invariant
            i <= decls.len(),
            decls == &file.children,
            file.rule == Rule::file,
            decls_fault(decls@, i as nat) is None,
            locals_of(decls@, defining(decls@, i as nat), locals@),
            imports_of(decls@, rule_items(decls@, i as nat, Rule::import), imports@),
            includes_of(decls@, rule_items(decls@, i as nat, Rule::c_header), includes@),
        decreases decls.len() - i,
    {
        let decl = &decls[i];
        let ghost next = (i + 1) as nat;
        let ghost l0 = locals@;
        let ghost i0 = imports@;
        let ghost c0 = includes@;
        proof {
            lemma_decls_fault(decls@, next, decls@.len());
        }
        match decl.rule {
            Rule::imacro | Rule::function | Rule::struct_d | Rule::istatic | Rule::constant => {
                match parse_local(decl) {
                    Err(e) => {
                        return Err(e);
                    },
                    Ok(l) => {
                        locals.push(l);
                    },
                }
            },
            Rule::import => {
                match parse_import(decl) {
                    Err(e) => {
                        return Err(e);
                    },
                    Ok(im) => {
                        imports.push(im);
                    },
                }
            },
            Rule::c_header => {
                includes.push(parse_include(decl));
            },
            Rule::comment | Rule::EOI => {},
            _ => {
                return Err(ParseError::Unexpected(decl.rule, decl.loc.clone()));
            },
        }
        proof {
            let d0 = defining(decls@, i as nat);
            let d1 = defining(decls@, next);
            assert forall|j: int| 0 <= j < d1.len() && 0 <= d1[j] < decls@.len() implies local_of(
                decls@[d1[j]],
                #[trigger] locals@[j],
            ) by {
                if j < d0.len() {
                    assert(d1[j] == d0[j]);
                    assert(locals@[j] == l0[j]);
                }
            }
            let m0 = rule_items(decls@, i as nat, Rule::import);
            let m1 = rule_items(decls@, next, Rule::import);
            assert forall|j: int| 0 <= j < m1.len() && 0 <= m1[j] < decls@.len() implies import_of(
                decls@[m1[j]],
                #[trigger] imports@[j],
            ) by {
                if j < m0.len() {
                    assert(m1[j] == m0[j]);
                    assert(imports@[j] == i0[j]);
                }
            }
            let h0 = rule_items(decls@, i as nat, Rule::c_header);
            let h1 = rule_items(decls@, next, Rule::c_header);
            assert forall|j: int| 0 <= j < h1.len() && 0 <= h1[j] < decls@.len() implies include_of(
                decls@[h1[j]],
                #[trigger] includes@[j],
            ) by {
                if j < h0.len() {
                    assert(h1[j] == h0[j]);
                    assert(includes@[j] == c0[j]);
                }
            }
        }
        i = i + 1;
    }
    let mut sources: Vec<String> = Vec::new();
    sources.push(String::from_str(canonical));
    proof {
        assert(strs(sources@) =~= seq![canonical@]);
    }
    Ok(
        Module {
            name: Name::parse(stem),
            source: String::from_str(path),
            locals,
            imports,
            includes,
            sources,
            aliases: Vec::new(),
        },
    )
}

} // verus!
