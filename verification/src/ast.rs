//! The syntax tree: modules, top-level definitions, statements, expressions,
//! types and tags.

use vstd::prelude::*;
use vstd::string::*;
use crate::assoc::{as_map, find, lookup, lemma_lookup_none, lemma_lookup_remove, put, remove_key};
use crate::name::Name;
use crate::parser::{pest_line_col, span_line_col, span_ok};
use crate::text::{decimal, push_decimal};

verus! {

/// A place in a source file: the byte range of a span, with the line and column
/// of its start counted from 1.
#[derive(Debug, PartialEq)]
pub struct Location {
    pub file: String,
    pub start: usize,
    pub end: usize,
    pub line: usize,
    pub col: usize,
}

impl Location {
    /// The place of the bytes `start..end` of the text `source` of `file`, with
    /// the line and column of `start`. `None` iff the range is no range of whole
    /// characters of the text.
    pub fn locate(file: &str, source: &str, start: usize, end: usize) -> (r: Option<Location>)
        ensures
            r is Some <==> span_ok(source, start, end),
            r matches Some(l) ==> l.file@ == file@ && l.start == start && l.end == end && (
            l.line,
            l.col,
            ) == pest_line_col(source@, start),
    {
        match span_line_col(source, start, end) {
            None => None,
            Some(lc) => Some(
                Location { file: String::from_str(file), start, end, line: lc.0, col: lc.1 },
            ),
        }
    }

    /// The line on which the span starts.
    pub fn line(&self) -> (l: usize)
        ensures
            l == self.line,
    {
        self.line
    }

    /// The short display form, `file:line`.
    pub fn to_string(&self) -> (out: String)
        ensures
            out@ == self.file@ + seq![':'] + decimal(self.line as nat),
    {
        let mut out = self.file.clone();
        proof {
            reveal_strlit(":");
            assert(":"@ =~= seq![':']);
        }
        out.append(":");
        push_decimal(&mut out, self.line as u64);
        out
    }
}

impl Clone for Location {
    fn clone(&self) -> (l: Location)
        ensures
            l == *self,
    {
        Location {
            file: self.file.clone(),
            start: self.start,
            end: self.end,
            line: self.line,
            col: self.col,
        }
    }
}

/// The values of one tag, each with the place where it was written.
pub type TagValues = Vec<(String, Location)>;

/// Attributes such as `mut` or `packed`: a map from tag key to the values given
/// for it.
#[derive(Clone, Debug, PartialEq)]
pub struct Tags(pub Vec<(String, TagValues)>);

impl View for Tags {
    type V = Map<Seq<char>, Map<Seq<char>, Location>>;

    open spec fn view(&self) -> Map<Seq<char>, Map<Seq<char>, Location>> {
        as_map(self.0@).map_values(|values: TagValues| as_map(values@))
    }
}

impl Tags {
    pub fn new() -> (tags: Tags)
        ensures
            tags@ == Map::<Seq<char>, Map<Seq<char>, Location>>::empty(),
    {
        let tags = Tags(Vec::new());
        proof {
            assert(tags@ =~= Map::<Seq<char>, Map<Seq<char>, Location>>::empty());
        }
        tags
    }

    /// The values recorded for the key `k`.
    pub fn get(&self, k: &str) -> (values: Option<&TagValues>)
        ensures
            values is Some <==> self@.contains_key(k@),
            values matches Some(v) ==> as_map(v@) == self@[k@],
    {
        match find(&self.0, k) {
            Some(i) => Some(&self.0[i].1),
            None => None,
        }
    }

    pub fn contains_key(&self, s: &str) -> (found: bool)
        ensures
            found == self@.contains_key(s@),
    {
        find(&self.0, s).is_some()
    }

    /// Records `value` under `key`, at `loc`; an earlier place of the same value
    /// is replaced.
    pub fn insert(&mut self, key: String, value: String, loc: Location)
        ensures
            final(self)@ == old(self)@.insert(
                key@,
                (if old(self)@.contains_key(key@) {
                    old(self)@[key@]
                } else {
                    Map::empty()
                }).insert(value@, loc),
            ),
    {
        let mut values: TagValues = Vec::new();
        let ghost had = as_map::<Location>(Seq::empty());
        match find(&self.0, key.as_str()) {
            Some(i) => {
                proof {
                    assert forall|q: Seq<char>| q != key@ implies lookup(self.0@.remove(i as int), q)
                        == lookup(self.0@, q) by {
                        lemma_lookup_remove(self.0@, i as int, q);
                    }
                }
                let entry = self.0.remove(i);
                values = entry.1;
            },
            None => {},
        }
        let ghost prior = as_map(values@);
        proof {
            assert(prior =~= (if old(self)@.contains_key(key@) {
                old(self)@[key@]
            } else {
                Map::empty()
            }));
        }
        put(&mut values, value, loc);
        let ghost rest = self.0@;
        put(&mut self.0, key, values);
        proof {
            assert(self@ =~= old(self)@.insert(key@, prior.insert(value@, loc)));
        }
    }

    /// Without `value`, forgets `key`. With one, forgets that value of `key`,
    /// and `key` itself once it has no value left.
    pub fn remove(&mut self, key: &str, value: Option<&str>)
        ensures
            !old(self)@.contains_key(key@) ==> final(self)@ == old(self)@,
            old(self)@.contains_key(key@) ==> final(self)@ == (match value {
                Some(v) if old(self)@[key@].remove(v@).len() > 0 => old(self)@.insert(
                    key@,
                    old(self)@[key@].remove(v@),
                ),
                _ => old(self)@.remove(key@),
            }),
    {
        match find(&self.0, key) {
            None => {},
            Some(i) => {
                proof {
                    assert forall|q: Seq<char>| q != key@ implies lookup(self.0@.remove(i as int), q)
                        == lookup(self.0@, q) by {
                        lemma_lookup_remove(self.0@, i as int, q);
                    }
                }
                let entry = self.0.remove(i);
                let mut values = entry.1;
                remove_key(&mut self.0, key);
                proof {
                    assert(self@ =~= old(self)@.remove(key@));
                }
                match value {
                    None => {},
                    Some(v) => {
                        remove_key(&mut values, v);
                        proof {
                            lemma_lookup_none(values@, v@);
                            if values@.len() > 0 {
                                let k0 = values@[0].0@;
                                lemma_lookup_none(values@, k0);
                                assert(as_map(values@).dom().contains(k0));
                                assert(as_map(values@).len() > 0) by {
                                    lemma_finite_tag_map(values@);
                                    if as_map(values@).len() == 0 {
                                        as_map(values@).dom().lemma_len0_is_empty();
                                    }
                                }
                            } else {
                                assert(as_map(values@) =~= Map::empty());
                            }
                        }
                        if values.len() > 0 {
                            let owned = entry.0;
                            put(&mut self.0, owned, values);
                            proof {
                                assert(self@ =~= old(self)@.insert(
                                    key@,
                                    old(self)@[key@].remove(v@),
                                ));
                            }
                        }
                    },
                }
            },
        }
    }
}

/// How a static variable is stored.
#[derive(Clone, Copy, Debug, PartialEq, Eq, Structural)]
pub enum Storage {
    Static,
    ThreadLocal,
    Atomic,
}

/// Who may see a definition: its own object file only, every module that
/// imports it, or everyone including foreign code.
#[derive(Clone, Copy, Debug, PartialEq, Eq, Structural)]
pub enum Visibility {
    Shared,
    Object,
    Export,
}

/// One `using` line: the imported module or symbol, the names picked from it
/// and the place of the line.
#[derive(Clone, Debug, PartialEq)]
pub struct Import {
    pub name: Name,
    pub alias: Option<String>,
    pub local: Vec<(String, Option<String>)>,
    pub vis: Visibility,
    pub loc: Location,
}

/// What a type reference denotes: a primitive kind, a user-defined type (named
/// by the reference's `name`), or a placeholder that later stages fill in.
#[derive(Clone, Copy, Debug, PartialEq, Eq, Structural)]
pub enum Type {
    U8,
    U16,
    U32,
    U64,
    U128,
    I8,
    I16,
    I32,
    I64,
    I128,
    Int,
    UInt,
    ISize,
    USize,
    Bool,
    F32,
    F64,
    Char,
    Void,
    Other,
    ILiteral,
    ULiteral,
    Elided,
    New,
    Typeid,
}

/// Whether a kind is a placeholder: it stands for a type that inference has
/// yet to fill in, and must not reach an emitter.
pub open spec fn is_placeholder(t: Type) -> bool {
    t == Type::ILiteral || t == Type::ULiteral || t == Type::Elided || t == Type::New || t
        == Type::Typeid
}

/// The trailing array of a struct: none, one sized at run time, or one bound to
/// a fixed number of elements.
#[derive(Clone, Copy, Debug, PartialEq, Eq, Structural)]
pub enum Tail {
    Absent,
    Dynamic,
    Static(u64),
}

/// One level of indirection, with its own tags.
#[derive(Clone, Debug, PartialEq)]
pub struct Pointer {
    pub loc: Location,
    pub tags: Tags,
}

/// A reference to a type: its name, what it denotes, and the pointer layers
/// around it, outermost first.
#[derive(Clone, Debug, PartialEq)]
pub struct Typed {
    pub name: Name,
    pub t: Type,
    pub loc: Location,
    pub ptr: Vec<Pointer>,
}

#[derive(Clone, Copy, Debug, PartialEq, Eq, Structural)]
pub enum PrefixOperator {
    Boolnot,
    Bitnot,
    Increment,
    Decrement,
    AddressOf,
    Deref,
}

#[derive(Clone, Copy, Debug, PartialEq, Eq, Structural)]
pub enum PostfixOperator {
    Increment,
    Decrement,
}

#[derive(Clone, Copy, Debug, PartialEq, Eq, Structural)]
pub enum InfixOperator {
    Equals,
    Nequals,
    Add,
    Subtract,
    Multiply,
    Divide,
    Bitxor,
    Booland,
    Boolor,
    Moreeq,
    Lesseq,
    Lessthan,
    Morethan,
    Shiftleft,
    Shiftright,
    Modulo,
    Bitand,
    Bitor,
}

#[derive(Debug, PartialEq)]
pub enum Expression {
    Name(Typed),
    MemberAccess { loc: Location, lhs: Box<Expression>, op: String, rhs: String },
    ArrayAccess { loc: Location, lhs: Box<Expression>, rhs: Box<Expression> },
    /// A numeric literal, kept as written.
    Literal { loc: Location, v: String },
    /// A string literal, as its bytes.
    LiteralString { loc: Location, v: Vec<u8> },
    /// A character literal, as its byte.
    LiteralChar { loc: Location, v: u8 },
    Call { loc: Location, name: Typed, args: Vec<Box<Expression>> },
    /// A chain `lhs op e1 op e2 ..`, kept flat until precedence is applied.
    InfixOperation {
        loc: Location,
        lhs: Box<Expression>,
        rhs: Vec<((InfixOperator, Location), Box<Expression>)>,
    },
    Cast { loc: Location, into: Typed, expr: Box<Expression> },
    UnaryPost { loc: Location, op: PostfixOperator, expr: Box<Expression> },
    UnaryPre { loc: Location, op: PrefixOperator, expr: Box<Expression> },
    StructInit { loc: Location, typed: Typed, fields: Vec<(String, Box<Expression>)> },
    ArrayInit { loc: Location, fields: Vec<Box<Expression>> },
    /// A macro call-site that expansion has not replaced yet.
    MacroCall { loc: Location, name: Name, args: Vec<Box<Expression>> },
}

impl Expression {
    /// The place where the expression was written.
    pub fn loc(&self) -> (l: &Location)
        ensures
            *l == self.location(),
    {
        match self {
            Expression::Name(name) => &name.loc,
            Expression::MemberAccess { loc, .. } => loc,
            Expression::ArrayAccess { loc, .. } => loc,
            Expression::Literal { loc, .. } => loc,
            Expression::LiteralString { loc, .. } => loc,
            Expression::LiteralChar { loc, .. } => loc,
            Expression::Call { loc, .. } => loc,
            Expression::InfixOperation { loc, .. } => loc,
            Expression::Cast { loc, .. } => loc,
            Expression::UnaryPost { loc, .. } => loc,
            Expression::UnaryPre { loc, .. } => loc,
            Expression::StructInit { loc, .. } => loc,
            Expression::ArrayInit { loc, .. } => loc,
            Expression::MacroCall { loc, .. } => loc,
        }
    }

    /// The place of an expression: that of its type reference for a name, and
    /// the recorded one for every other form.
    pub open spec fn location(&self) -> Location {
        match *self {
            Expression::Name(name) => name.loc,
            Expression::MemberAccess { loc, .. } => loc,
            Expression::ArrayAccess { loc, .. } => loc,
            Expression::Literal { loc, .. } => loc,
            Expression::LiteralString { loc, .. } => loc,
            Expression::LiteralChar { loc, .. } => loc,
            Expression::Call { loc, .. } => loc,
            Expression::InfixOperation { loc, .. } => loc,
            Expression::Cast { loc, .. } => loc,
            Expression::UnaryPost { loc, .. } => loc,
            Expression::UnaryPre { loc, .. } => loc,
            Expression::StructInit { loc, .. } => loc,
            Expression::ArrayInit { loc, .. } => loc,
            Expression::MacroCall { loc, .. } => loc,
        }
    }
}

/// The array clause of a field or variable.
#[derive(Clone, Debug, PartialEq)]
pub enum Array {
    Absent,
    Unsized,
    Sized(Expression),
}

#[derive(Clone, Debug, PartialEq)]
pub struct AnonArg {
    pub typed: Typed,
}

#[derive(Clone, Debug, PartialEq)]
pub struct NamedArg {
    pub typed: Typed,
    pub name: String,
    pub tags: Tags,
    pub loc: Location,
}

#[derive(Clone, Debug, PartialEq)]
pub struct Field {
    pub typed: Typed,
    pub name: String,
    pub array: Array,
    pub tags: Tags,
    pub loc: Location,
}

#[derive(Debug, PartialEq)]
pub enum Statement {
    Mark { lhs: Expression, loc: Location, key: String, value: String },
    Label { loc: Location, label: String },
    Goto { loc: Location, label: String },
    Assign { loc: Location, lhs: Expression, op: String, rhs: Expression },
    Expr { loc: Location, expr: Expression },
    Continue { loc: Location },
    Break { loc: Location },
    Return { loc: Location, expr: Option<Expression> },
    Var {
        loc: Location,
        typed: Typed,
        tags: Tags,
        name: String,
        array: Option<Expression>,
        assign: Option<Expression>,
    },
    For { e1: Vec<Box<Statement>>, e2: Vec<Box<Statement>>, e3: Vec<Box<Statement>>, body: Block },
    Cond { op: String, expr: Option<Expression>, body: Block },
    Block(Box<Block>),
}

#[derive(Debug, PartialEq)]
pub struct Block {
    pub end: Location,
    pub statements: Vec<Statement>,
}

/// What a top-level declaration defines.
#[derive(Clone, Debug, PartialEq)]
pub enum Def {
    Static { tags: Tags, typed: Typed, expr: Expression, storage: Storage },
    Const { typed: Typed, expr: Expression },
    Function { ret: Option<AnonArg>, args: Vec<NamedArg>, body: Block, vararg: bool },
    Struct { fields: Vec<Field>, packed: bool, tail: Tail, union: bool },
    Enum { names: Vec<(String, Option<u64>)> },
    Closure { ret: Option<AnonArg>, args: Vec<NamedArg>, attr: Tags },
    Macro { args: Vec<String>, body: Block },
}

/// A top-level declaration.
#[derive(Clone, Debug, PartialEq)]
pub struct Local {
    pub name: String,
    pub export_as: Option<String>,
    pub vis: Visibility,
    pub loc: Location,
    pub def: Def,
}

/// A C header that a module includes.
#[derive(Clone, Debug, PartialEq)]
pub struct Include {
    pub expr: String,
    pub loc: Location,
    pub fqn: Name,
}

/// One source module: its absolute name, the file it came from, what it
/// declares and imports, and the alias under which it refers to each outside
/// name.
#[derive(Clone, Debug, PartialEq)]
pub struct Module {
    pub name: Name,
    pub source: String,
    pub locals: Vec<Local>,
    pub imports: Vec<Import>,
    pub includes: Vec<Include>,
    pub sources: Vec<String>,
    pub aliases: Vec<(Name, String)>,
}

/// The values of one tag as plain values, in the order in which they are
/// held.
pub open spec fn values_held(v: TagValues) -> Seq<(Seq<char>, Location)> {
    Seq::new(v@.len(), |i: int| (v@[i].0@, v@[i].1))
}

/// The tags as plain values, in the order in which they are held.
pub open spec fn tags_held(t: Tags) -> Seq<(Seq<char>, Seq<(Seq<char>, Location)>)> {
    Seq::new(t.0@.len(), |i: int| (t.0@[i].0@, values_held(t.0@[i].1)))
}

/// Whether two sets of tags hold the same keys and values at the same places,
/// in the same order.
pub open spec fn same_tags(a: Tags, b: Tags) -> bool {
    tags_held(a) == tags_held(b)
}

/// Whether two stacks of pointer layers are alike, layer by layer.
pub open spec fn same_pointers(a: Seq<Pointer>, b: Seq<Pointer>) -> bool {
    a.len() == b.len() && forall|i: int|
        0 <= i < a.len() ==> a[i].loc == (#[trigger] b[i]).loc && same_tags(a[i].tags, b[i].tags)
}

/// Whether two type references are alike: the same name, kind and place, and
/// alike pointer layers.
pub open spec fn same_typed(a: Typed, b: Typed) -> bool {
    a.name@ == b.name@ && a.t == b.t && a.loc == b.loc && same_pointers(a.ptr@, b.ptr@)
}

/// Whether two expressions are alike: the same tree, with the same places,
/// names, operators and texts at every node.
pub open spec fn same_expression(a: Expression, b: Expression) -> bool
    decreases a, 0nat,
{
    match a {
        Expression::Name(t) => b is Name && same_typed(t, b->Name_0),
        Expression::MemberAccess { loc, lhs, op, rhs } => b matches Expression::MemberAccess {
            loc: l2,
            lhs: h2,
            op: o2,
            rhs: r2,
        } && l2 == loc && o2 == op && r2 == rhs && same_expression(*lhs, *h2),
        Expression::ArrayAccess { loc, lhs, rhs } => b matches Expression::ArrayAccess {
            loc: l2,
            lhs: h2,
            rhs: r2,
        } && l2 == loc && same_expression(*lhs, *h2) && same_expression(*rhs, *r2),
        Expression::Literal { loc, v } => b matches Expression::Literal { loc: l2, v: v2 } && l2
            == loc && v2 == v,
        Expression::LiteralString { loc, v } => b matches Expression::LiteralString {
            loc: l2,
            v: v2,
        } && l2 == loc && v2@ == v@,
        Expression::LiteralChar { loc, v } => b matches Expression::LiteralChar { loc: l2, v: v2 }
            && l2 == loc && v2 == v,
        Expression::Call { loc, name, args } => b matches Expression::Call {
            loc: l2,
            name: n2,
            args: a2,
        } && l2 == loc && same_typed(name, n2) && same_boxed(args@, a2@),
        Expression::InfixOperation { loc, lhs, rhs } => b matches Expression::InfixOperation {
            loc: l2,
            lhs: h2,
            rhs: r2,
        } && l2 == loc && same_expression(*lhs, *h2) && same_chain(rhs@, r2@),
        Expression::Cast { loc, into, expr } => b matches Expression::Cast {
            loc: l2,
            into: i2,
            expr: e2,
        } && l2 == loc && same_typed(into, i2) && same_expression(*expr, *e2),
        Expression::UnaryPost { loc, op, expr } => b matches Expression::UnaryPost {
            loc: l2,
            op: o2,
            expr: e2,
        } && l2 == loc && o2 == op && same_expression(*expr, *e2),
        Expression::UnaryPre { loc, op, expr } => b matches Expression::UnaryPre {
            loc: l2,
            op: o2,
            expr: e2,
        } && l2 == loc && o2 == op && same_expression(*expr, *e2),
        Expression::StructInit { loc, typed, fields } => b matches Expression::StructInit {
            loc: l2,
            typed: t2,
            fields: f2,
        } && l2 == loc && same_typed(typed, t2) && same_inits(fields@, f2@),
        Expression::ArrayInit { loc, fields } => b matches Expression::ArrayInit {
            loc: l2,
            fields: f2,
        } && l2 == loc && same_boxed(fields@, f2@),
        Expression::MacroCall { loc, name, args } => b matches Expression::MacroCall {
            loc: l2,
            name: n2,
            args: a2,
        } && l2 == loc && n2@ == name@ && same_boxed(args@, a2@),
    }
}

/// Whether two lists of expressions are alike, item by item.
pub open spec fn same_boxed(a: Seq<Box<Expression>>, b: Seq<Box<Expression>>) -> bool
    decreases a, 1nat,
{
    a.len() == b.len() && forall|i: int| 0 <= i < a.len() ==> same_expression(*a[i], *#[trigger] b[i])
}

/// Whether two operator chains are alike: the same operators at the same
/// places, before alike operands.
pub open spec fn same_chain(
    a: Seq<((InfixOperator, Location), Box<Expression>)>,
    b: Seq<((InfixOperator, Location), Box<Expression>)>,
) -> bool
    decreases a, 1nat,
{
    a.len() == b.len() && forall|i: int|
        0 <= i < a.len() ==> a[i].0 == (#[trigger] b[i]).0 && same_expression(*a[i].1, *b[i].1)
}

/// Whether two lists of field initialisers are alike: the same field names
/// with alike values.
pub open spec fn same_inits(a: Seq<(String, Box<Expression>)>, b: Seq<(String, Box<Expression>)>) -> bool
    decreases a, 1nat,
{
    a.len() == b.len() && forall|i: int|
        0 <= i < a.len() ==> a[i].0 == (#[trigger] b[i]).0 && same_expression(*a[i].1, *b[i].1)
}

/// Whether both are absent, or both are there and alike.
pub open spec fn same_optional(a: Option<Expression>, b: Option<Expression>) -> bool {
    match a {
        Some(x) => b is Some && same_expression(x, b->Some_0),
        None => b is None,
    }
}

/// Whether two statements are alike: the same tree, with the same places,
/// names, operators and texts at every node.
pub open spec fn same_statement(a: Statement, b: Statement) -> bool
    decreases a, 0nat,
{
    match a {
        Statement::Mark { lhs, loc, key, value } => b matches Statement::Mark {
            lhs: h2,
            loc: l2,
            key: k2,
            value: v2,
        } && l2 == loc && k2 == key && v2 == value && same_expression(lhs, h2),
        Statement::Label { loc, label } => b matches Statement::Label { loc: l2, label: b2 } && l2
            == loc && b2 == label,
        Statement::Goto { loc, label } => b matches Statement::Goto { loc: l2, label: b2 } && l2
            == loc && b2 == label,
        Statement::Assign { loc, lhs, op, rhs } => b matches Statement::Assign {
            loc: l2,
            lhs: h2,
            op: o2,
            rhs: r2,
        } && l2 == loc && o2 == op && same_expression(lhs, h2) && same_expression(rhs, r2),
        Statement::Expr { loc, expr } => b matches Statement::Expr { loc: l2, expr: e2 } && l2
            == loc && same_expression(expr, e2),
        Statement::Continue { loc } => b matches Statement::Continue { loc: l2 } && l2 == loc,
        Statement::Break { loc } => b matches Statement::Break { loc: l2 } && l2 == loc,
        Statement::Return { loc, expr } => b matches Statement::Return { loc: l2, expr: e2 } && l2
            == loc && same_optional(expr, e2),
        Statement::Var { loc, typed, tags, name, array, assign } => b matches Statement::Var {
            loc: l2,
            typed: t2,
            tags: g2,
            name: n2,
            array: a2,
            assign: v2,
        } && l2 == loc && same_typed(typed, t2) && same_tags(tags, g2) && n2 == name
            && same_optional(array, a2) && same_optional(assign, v2),
        Statement::For { e1, e2, e3, body } => b matches Statement::For {
            e1: a1,
            e2: a2,
            e3: a3,
            body: b2,
        } && same_boxed_statements(e1@, a1@) && same_boxed_statements(e2@, a2@)
            && same_boxed_statements(e3@, a3@) && same_block(body, b2),
        Statement::Cond { op, expr, body } => b matches Statement::Cond {
            op: o2,
            expr: e2,
            body: b2,
        } && o2 == op && same_optional(expr, e2) && same_block(body, b2),
        Statement::Block(x) => b is Block && same_block(*x, *b->Block_0),
    }
}

/// Whether two blocks are alike: they end at the same place and hold alike
/// statements in the same order.
pub open spec fn same_block(a: Block, b: Block) -> bool
    decreases a, 0nat,
{
    b.end == a.end && same_statements(a.statements@, b.statements@)
}

/// Whether two lists of statements are alike, item by item.
pub open spec fn same_statements(a: Seq<Statement>, b: Seq<Statement>) -> bool
    decreases a, 1nat,
{
    a.len() == b.len() && forall|i: int| 0 <= i < a.len() ==> same_statement(a[i], #[trigger] b[i])
}

/// Whether two lists of statements are alike, item by item.
pub open spec fn same_boxed_statements(a: Seq<Box<Statement>>, b: Seq<Box<Statement>>) -> bool
    decreases a, 1nat,
{
    a.len() == b.len() && forall|i: int| 0 <= i < a.len() ==> same_statement(*a[i], *#[trigger] b[i])
}

/// A copy of the values of one tag.
fn copy_values(v: &TagValues) -> (r: TagValues)
    ensures
        values_held(r) == values_held(*v),
{
    let mut out: TagValues = Vec::new();
    let mut i: usize = 0;
    while i < v.len()
        invariant
            i <= v.len(),
            out@.len() == i,
            forall|k: int| 0 <= k < i ==> (#[trigger] out@[k]).0@ == v@[k].0@ && out@[k].1 == v@[k].1,
        decreases v.len() - i,
    {
        out.push((v[i].0.clone(), v[i].1.clone()));
        i = i + 1;
    }
    proof {
        assert(values_held(out) =~= values_held(*v));
    }
    out
}

/// A copy of the tags: the same keys and values at the same places, in the
/// same order.
pub fn copy_tags(t: &Tags) -> (r: Tags)
    ensures
        same_tags(*t, r),
{
    let mut out: Vec<(String, TagValues)> = Vec::new();
    let mut i: usize = 0;
    while i < t.0.len()
        invariant
            i <= t.0.len(),
            out@.len() == i,
            forall|k: int|
                0 <= k < i ==> (#[trigger] out@[k]).0@ == t.0@[k].0@ && values_held(out@[k].1)
                    == values_held(t.0@[k].1),
        decreases t.0.len() - i,
    {
        out.push((t.0[i].0.clone(), copy_values(&t.0[i].1)));
        i = i + 1;
    }
    let r = Tags(out);
    proof {
        assert(tags_held(r) =~= tags_held(*t));
    }
    r
}

/// A copy of the type reference; see [`same_typed`].
pub fn copy_typed(t: &Typed) -> (r: Typed)
    ensures
        same_typed(*t, r),
{
    let mut ptr: Vec<Pointer> = Vec::new();
    let mut i: usize = 0;
    while i < t.ptr.len()
        invariant
            i <= t.ptr.len(),
            ptr@.len() == i,
            forall|k: int|
                0 <= k < i ==> t.ptr@[k].loc == (#[trigger] ptr@[k]).loc && same_tags(
                    t.ptr@[k].tags,
                    ptr@[k].tags,
                ),
        decreases t.ptr.len() - i,
    {
        ptr.push(Pointer { loc: t.ptr[i].loc.clone(), tags: copy_tags(&t.ptr[i].tags) });
        i = i + 1;
    }
    Typed { name: t.name.clone(), t: t.t, loc: t.loc.clone(), ptr }
}

fn copy_boxed(items: &Vec<Box<Expression>>) -> (r: Vec<Box<Expression>>)
    ensures
        same_boxed(items@, r@),
    decreases items,
{
    let mut out: Vec<Box<Expression>> = Vec::new();
    let mut i: usize = 0;
    while i < items.len()
        invariant
            i <= items.len(),
            out@.len() == i,
            forall|k: int| 0 <= k < i ==> same_expression(*items@[k], *#[trigger] out@[k]),
        decreases items.len() - i,
    {
        out.push(Box::new(copy_expression(&*items[i])));
        i = i + 1;
    }
    out
}

fn copy_chain(items: &Vec<((InfixOperator, Location), Box<Expression>)>) -> (r: Vec<
    ((InfixOperator, Location), Box<Expression>),
>)
    ensures
        same_chain(items@, r@),
    decreases items,
{
    let mut out: Vec<((InfixOperator, Location), Box<Expression>)> = Vec::new();
    let mut i: usize = 0;
    while i < items.len()
        invariant
            i <= items.len(),
            out@.len() == i,
            forall|k: int|
                0 <= k < i ==> items@[k].0 == (#[trigger] out@[k]).0 && same_expression(
                    *items@[k].1,
                    *out@[k].1,
                ),
        decreases items.len() - i,
    {
        let item = &items[i];
        out.push(((item.0.0, item.0.1.clone()), Box::new(copy_expression(&*item.1))));
        i = i + 1;
    }
    out
}

fn copy_inits(items: &Vec<(String, Box<Expression>)>) -> (r: Vec<(String, Box<Expression>)>)
    ensures
        same_inits(items@, r@),
    decreases items,
{
    let mut out: Vec<(String, Box<Expression>)> = Vec::new();
    let mut i: usize = 0;
    while i < items.len()
        invariant
            i <= items.len(),
            out@.len() == i,
            forall|k: int|
                0 <= k < i ==> items@[k].0 == (#[trigger] out@[k]).0 && same_expression(
                    *items@[k].1,
                    *out@[k].1,
                ),
        decreases items.len() - i,
    {
        let item = &items[i];
        out.push((item.0.clone(), Box::new(copy_expression(&*item.1))));
        i = i + 1;
    }
    out
}

fn copy_expression(e: &Expression) -> (r: Expression)
    ensures
        same_expression(*e, r),
    decreases e,
{
    match e {
        Expression::Name(name) => Expression::Name(copy_typed(name)),
        Expression::MemberAccess { loc, lhs, op, rhs } => Expression::MemberAccess {
            loc: loc.clone(),
            lhs: Box::new(copy_expression(&**lhs)),
            op: op.clone(),
            rhs: rhs.clone(),
        },
        Expression::ArrayAccess { loc, lhs, rhs } => Expression::ArrayAccess {
            loc: loc.clone(),
            lhs: Box::new(copy_expression(&**lhs)),
            rhs: Box::new(copy_expression(&**rhs)),
        },
        Expression::Literal { loc, v } => Expression::Literal { loc: loc.clone(), v: v.clone() },
        Expression::LiteralString { loc, v } => Expression::LiteralString {
            loc: loc.clone(),
            v: v.clone(),
        },
        Expression::LiteralChar { loc, v } => Expression::LiteralChar { loc: loc.clone(), v: *v },
        Expression::Call { loc, name, args } => Expression::Call {
            loc: loc.clone(),
            name: copy_typed(name),
            args: copy_boxed(args),
        },
        Expression::InfixOperation { loc, lhs, rhs } => Expression::InfixOperation {
            loc: loc.clone(),
            lhs: Box::new(copy_expression(&**lhs)),
            rhs: copy_chain(rhs),
        },
        Expression::Cast { loc, into, expr } => Expression::Cast {
            loc: loc.clone(),
            into: copy_typed(into),
            expr: Box::new(copy_expression(&**expr)),
        },
        Expression::UnaryPost { loc, op, expr } => Expression::UnaryPost {
            loc: loc.clone(),
            op: *op,
            expr: Box::new(copy_expression(&**expr)),
        },
        Expression::UnaryPre { loc, op, expr } => Expression::UnaryPre {
            loc: loc.clone(),
            op: *op,
            expr: Box::new(copy_expression(&**expr)),
        },
        Expression::StructInit { loc, typed, fields } => Expression::StructInit {
            loc: loc.clone(),
            typed: copy_typed(typed),
            fields: copy_inits(fields),
        },
        Expression::ArrayInit { loc, fields } => Expression::ArrayInit {
            loc: loc.clone(),
            fields: copy_boxed(fields),
        },
        Expression::MacroCall { loc, name, args } => Expression::MacroCall {
            loc: loc.clone(),
            name: name.clone(),
            args: copy_boxed(args),
        },
    }
}

fn copy_optional(e: &Option<Expression>) -> (r: Option<Expression>)
    ensures
        same_optional(*e, r),
{
    match e {
        Some(e) => Some(copy_expression(e)),
        None => None,
    }
}

fn copy_boxed_statements(items: &Vec<Box<Statement>>) -> (r: Vec<Box<Statement>>)
    ensures
        same_boxed_statements(items@, r@),
    decreases items,
{
    let mut out: Vec<Box<Statement>> = Vec::new();
    let mut i: usize = 0;
    while i < items.len()
        invariant
            i <= items.len(),
            out@.len() == i,
            forall|k: int| 0 <= k < i ==> same_statement(*items@[k], *#[trigger] out@[k]),
        decreases items.len() - i,
    {
        out.push(Box::new(copy_statement(&*items[i])));
        i = i + 1;
    }
    out
}

fn copy_block(b: &Block) -> (r: Block)
    ensures
        same_block(*b, r),
    decreases b,
{
    let mut out: Vec<Statement> = Vec::new();
    let mut i: usize = 0;
    while i < b.statements.len()
        invariant
            i <= b.statements.len(),
            out@.len() == i,
            forall|k: int| 0 <= k < i ==> same_statement(b.statements@[k], #[trigger] out@[k]),
        decreases b.statements.len() - i,
    {
        out.push(copy_statement(&b.statements[i]));
        i = i + 1;
    }
    Block { end: b.end.clone(), statements: out }
}

fn copy_statement(s: &Statement) -> (r: Statement)
    ensures
        same_statement(*s, r),
    decreases s,
{
    match s {
        Statement::Mark { lhs, loc, key, value } => Statement::Mark {
            lhs: copy_expression(lhs),
            loc: loc.clone(),
            key: key.clone(),
            value: value.clone(),
        },
        Statement::Label { loc, label } => Statement::Label {
            loc: loc.clone(),
            label: label.clone(),
        },
        Statement::Goto { loc, label } => Statement::Goto { loc: loc.clone(), label: label.clone() },
        Statement::Assign { loc, lhs, op, rhs } => Statement::Assign {
            loc: loc.clone(),
            lhs: copy_expression(lhs),
            op: op.clone(),
            rhs: copy_expression(rhs),
        },
        Statement::Expr { loc, expr } => Statement::Expr {
            loc: loc.clone(),
            expr: copy_expression(expr),
        },
        Statement::Continue { loc } => Statement::Continue { loc: loc.clone() },
        Statement::Break { loc } => Statement::Break { loc: loc.clone() },
        Statement::Return { loc, expr } => Statement::Return {
            loc: loc.clone(),
            expr: copy_optional(expr),
        },
        Statement::Var { loc, typed, tags, name, array, assign } => Statement::Var {
            loc: loc.clone(),
            typed: copy_typed(typed),
            tags: copy_tags(tags),
            name: name.clone(),
            array: copy_optional(array),
            assign: copy_optional(assign),
        },
        Statement::For { e1, e2, e3, body } => Statement::For {
            e1: copy_boxed_statements(e1),
            e2: copy_boxed_statements(e2),
            e3: copy_boxed_statements(e3),
            body: copy_block(body),
        },
        Statement::Cond { op, expr, body } => Statement::Cond {
            op: op.clone(),
            expr: copy_optional(expr),
            body: copy_block(body),
        },
        Statement::Block(b) => Statement::Block(Box::new(copy_block(&**b))),
    }
}

impl Clone for Expression {
    fn clone(&self) -> (r: Expression)
        ensures
            same_expression(*self, r),
    {
        copy_expression(self)
    }
}

impl Clone for Statement {
    fn clone(&self) -> (r: Statement)
        ensures
            same_statement(*self, r),
    {
        copy_statement(self)
    }
}

impl Clone for Block {
    fn clone(&self) -> (r: Block)
        ensures
            same_block(*self, r),
    {
        copy_block(self)
    }
}

/// The map that a list of tag values stands for has finitely many keys.
pub proof fn lemma_finite_tag_map<V>(entries: Seq<(String, V)>)
    ensures
        as_map(entries).dom().finite(),
    decreases entries.len(),
{
    if entries.len() == 0 {
        assert(as_map(entries).dom() =~= Set::empty());
    } else {
        lemma_finite_tag_map(entries.drop_last());
        assert(as_map(entries).dom() =~= as_map(entries.drop_last()).dom().insert(
            entries.last().0@,
        ));
    }
}

} // verus!
