//! The parser's side of diagnostics: the grammar's rules by name, and errors
//! rendered against the source text.

use vstd::prelude::*;
use vstd::string::*;
use vstd::utf8::is_char_boundary;
use crate::assoc::str_eq;
use crate::ast::{InfixOperator, Location, Module, PostfixOperator, PrefixOperator};
use crate::lower::{file_fault, module_of, p};

verus! {

/// The rules of the grammar.
#[allow(non_camel_case_types)]
#[derive(Clone, Copy, Debug, PartialEq, Eq, PartialOrd, Ord, Hash, Structural)]
pub enum Rule {
    EOI,
    file,
    comment,
    ident,
    qident,
    type_ref,
    import,
    importname,
    local,
    local_i,
    c_header,
    exported,
    key_shared,
    key_packed,
    key_static,
    key_thread_local,
    key_atomic,
    key_mut,
    key_return,
    semicolon,
    ptr,
    named_type,
    anon_type,
    imacro,
    macro_args,
    function,
    fn_args,
    ret_arg,
    struct_d,
    struct_f,
    istatic,
    constant,
    block,
    expr,
    lhs,
    termish,
    infix,
    unarypre,
    unarypost,
    cast,
    deref,
    takeref,
    call,
    ptr_access,
    member_access,
    array_access,
    array,
    array_init,
    struct_init,
    struct_init_field,
    number_literal,
    string_literal,
    char_literal,
    mark_stm,
    label,
    goto_stm,
    return_stm,
    if_stm,
    elseif_stm,
    else_stm,
    for_stm,
    vardecl,
    assign,
    assignop,
}

/// The parser of source files. Parsing itself is done by the generated
/// grammar; this type stands for it where the library names it.
#[derive(Clone, Copy, Debug, PartialEq, Eq)]
pub struct ZZParser;

/// Whether `start..end` is a range of whole characters of the text.
pub open spec fn span_ok(source: &str, start: usize, end: usize) -> bool {
    start <= end && end <= source.spec_bytes().len() && is_char_boundary(
        source.spec_bytes(),
        start as int,
    ) && is_char_boundary(source.spec_bytes(), end as int)
}

/// The line and column, counted from 1, that pest's `Position::line_col`
/// gives for the byte offset `at` of the text.
pub uninterp spec fn pest_line_col(source: Seq<char>, at: usize) -> (usize, usize);

/// Calls `pest::Span::new` and, on the span, `start_pos().line_col()`. A span
/// exists iff the range is a range of whole characters of the text; the line
/// and column are a function of the text and the start offset.
#[verifier::external_body]
pub(crate) fn span_line_col(source: &str, start: usize, end: usize) -> (r: Option<(usize, usize)>)
    ensures
        r is Some <==> span_ok(source, start, end),
        r matches Some(lc) ==> lc == pest_line_col(source@, start),
{
    match pest::Span::new(source, start, end) {
        Some(span) => Some(span.start_pos().line_col()),
        None => None,
    }
}

/// The report that pest gives of a custom error with `message` on the span
/// `start..end` of the text `source`, read from the file `file`: the place,
/// the source line with a marker under the span, and the message, as
/// `pest::error::Error`'s `Display` lays them out.
pub uninterp spec fn pest_report(
    source: Seq<char>,
    start: usize,
    end: usize,
    file: Seq<char>,
    message: Seq<char>,
) -> Seq<char>;

/// The report of an error with `message` at `loc` in the text `source`. Calls
/// `pest::Span::new`, `pest::error::Error::new_from_span` with a custom
/// message on that span, `with_path` with the file of `loc`, and `to_string`.
/// There is a report iff the span is a range of whole characters of the text;
/// what it says is a function of the text, the span, the file and the message.
#[verifier::external_body]
pub fn make_error(source: &str, loc: &Location, message: &str) -> (r: Option<String>)
    ensures
        r is Some <==> span_ok(source, loc.start, loc.end),
        r matches Some(t) ==> t@ == pest_report(source@, loc.start, loc.end, loc.file@, message@),
{
    match pest::Span::new(source, loc.start, loc.end) {
        Some(span) => Some(
            pest::error::Error::<Rule>::new_from_span(
                pest::error::ErrorVariant::CustomError { message: message.to_owned() },
                span,
            ).with_path(&loc.file).to_string(),
        ),
        None => None,
    }
}

/// What `syntax_error` says: the line `syntax error`, then pest's report.
pub open spec fn syntax_report(source: Seq<char>, loc: Location, message: Seq<char>) -> Seq<char> {
    "syntax error\n"@ + pest_report(source, loc.start, loc.end, loc.file@, message)
}

/// The report of a syntax error at `loc`: the line `syntax error`, then the
/// error as pest lays it out. `None` iff the span of `loc` is no range of whole
/// characters of the text.
pub fn syntax_error(source: &str, loc: &Location, message: &str) -> (r: Option<String>)
    ensures
        r is Some <==> span_ok(source, loc.start, loc.end),
        r matches Some(s) ==> s@ == syntax_report(source@, *loc, message@),
{
    match make_error(source, loc, message) {
        None => None,
        Some(text) => {
            let mut out = String::from_str("syntax error\n");
            out.append(text.as_str());
            Some(out)
        },
    }
}

/// One node of a parse tree: the rule that matched, the place and the text
/// of the match, the place after it, and the matches inside it, in order.
#[derive(Debug, PartialEq)]
pub struct Node {
    pub rule: Rule,
    pub loc: Location,
    /// The place just after the match: an empty span at its end.
    pub end: Location,
    pub text: String,
    pub children: Vec<Node>,
}

/// Why a parse tree is no module.
#[derive(Debug, PartialEq)]
pub enum ParseError {
    /// A rule stands where the form it is part of has no place for it.
    Unexpected(Rule, Location),
    /// A form lacks a part that it needs.
    Missing(Location),
    /// A declaration does not end in a name.
    ExpectedName(Location),
    /// A constant carries tags.
    TagsNotAllowed(Location),
    /// A type without a name to bind carries tags that no pointer took up.
    AnonymousTypeTags(Location),
    /// A static variable is declared shared or exported.
    StaticVisibility(Location),
    /// The text of an operator is none that the language has.
    UnknownOperator(Location),
    /// A string or character literal is malformed.
    BadLiteral(Location),
}

impl ParseError {
    /// The place of the error.
    pub fn loc(&self) -> (l: &Location)
        ensures
            *l == self.place(),
    {
        match self {
            ParseError::Unexpected(_, l) => l,
            ParseError::Missing(l) => l,
            ParseError::ExpectedName(l) => l,
            ParseError::TagsNotAllowed(l) => l,
            ParseError::AnonymousTypeTags(l) => l,
            ParseError::StaticVisibility(l) => l,
            ParseError::UnknownOperator(l) => l,
            ParseError::BadLiteral(l) => l,
        }
    }

    pub open spec fn place(&self) -> Location {
        match *self {
            ParseError::Unexpected(_, l) => l,
            ParseError::Missing(l) => l,
            ParseError::ExpectedName(l) => l,
            ParseError::TagsNotAllowed(l) => l,
            ParseError::AnonymousTypeTags(l) => l,
            ParseError::StaticVisibility(l) => l,
            ParseError::UnknownOperator(l) => l,
            ParseError::BadLiteral(l) => l,
        }
    }

    /// What went wrong, for the report.
    pub open spec fn reason(&self) -> Seq<char> {
        match *self {
            ParseError::Unexpected(_, _) => "unexpected rule"@,
            ParseError::Missing(_) => "incomplete form"@,
            ParseError::ExpectedName(_) => "expected a name"@,
            ParseError::TagsNotAllowed(_) => "tags not allowed here (yet)"@,
            ParseError::AnonymousTypeTags(_) => "anonymous type cannot have storage tags (yet)"@,
            ParseError::StaticVisibility(_) => "cannot change visibility of static variable"@,
            ParseError::UnknownOperator(_) => "unknown operator"@,
            ParseError::BadLiteral(_) => "malformed literal"@,
        }
    }

    /// What went wrong, for the report.
    pub fn message(&self) -> (m: String)
        ensures
            m@ == self.reason(),
    {
        match self {
            ParseError::Unexpected(_, _) => String::from_str("unexpected rule"),
            ParseError::Missing(_) => String::from_str("incomplete form"),
            ParseError::ExpectedName(_) => String::from_str("expected a name"),
            ParseError::TagsNotAllowed(_) => String::from_str("tags not allowed here (yet)"),
            ParseError::AnonymousTypeTags(_) => String::from_str(
                "anonymous type cannot have storage tags (yet)",
            ),
            ParseError::StaticVisibility(_) => String::from_str(
                "cannot change visibility of static variable",
            ),
            ParseError::UnknownOperator(_) => String::from_str("unknown operator"),
            ParseError::BadLiteral(_) => String::from_str("malformed literal"),
        }
    }
}

/// The module that the parse tree of the file at `path` writes. `canonical`
/// is the file's path made absolute, `stem` its name without the extension.
///
/// Fails with the first fault of the tree, read top to bottom.
pub fn parse(file: &Node, path: &str, canonical: &str, stem: &str) -> (r: Result<Module, ParseError>)
    ensures
        lowers(r, file_fault(*file), |m: Module| module_of(*file, path@, canonical@, stem@, m)),
{
    p(file, path, canonical, stem)
}

/// The first of two optional errors.
pub open spec fn sooner(a: Option<ParseError>, b: Option<ParseError>) -> Option<ParseError> {
    if a is Some {
        a
    } else {
        b
    }
}

/// What `r` must be for a step that fails with `fault` or else gives a value
/// that `good` accepts.
pub open spec fn lowers<T>(r: Result<T, ParseError>, fault: Option<ParseError>, good: spec_fn(T) -> bool) -> bool {
    match fault {
        Some(e) => r == Err::<T, ParseError>(e),
        None => r is Ok && good(r->Ok_0),
    }
}

/// The infix operator written as `text`.
pub open spec fn infix_of(text: Seq<char>) -> Option<InfixOperator> {
    if text == "=="@ {
        Some(InfixOperator::Equals)
    } else if text == "!="@ {
        Some(InfixOperator::Nequals)
    } else if text == "+"@ {
        Some(InfixOperator::Add)
    } else if text == "-"@ {
        Some(InfixOperator::Subtract)
    } else if text == "*"@ {
        Some(InfixOperator::Multiply)
    } else if text == "/"@ {
        Some(InfixOperator::Divide)
    } else if text == "^"@ {
        Some(InfixOperator::Bitxor)
    } else if text == "&&"@ {
        Some(InfixOperator::Booland)
    } else if text == "||"@ {
        Some(InfixOperator::Boolor)
    } else if text == ">="@ {
        Some(InfixOperator::Moreeq)
    } else if text == "<="@ {
        Some(InfixOperator::Lesseq)
    } else if text == "<"@ {
        Some(InfixOperator::Lessthan)
    } else if text == ">"@ {
        Some(InfixOperator::Morethan)
    } else if text == "<<"@ {
        Some(InfixOperator::Shiftleft)
    } else if text == ">>"@ {
        Some(InfixOperator::Shiftright)
    } else if text == "%"@ {
        Some(InfixOperator::Modulo)
    } else if text == "&"@ {
        Some(InfixOperator::Bitand)
    } else if text == "|"@ {
        Some(InfixOperator::Bitor)
    } else {
        None
    }
}

/// The prefix operator written as `text`.
pub open spec fn prefix_of(text: Seq<char>) -> Option<PrefixOperator> {
    if text == "!"@ {
        Some(PrefixOperator::Boolnot)
    } else if text == "~"@ {
        Some(PrefixOperator::Bitnot)
    } else if text == "++"@ {
        Some(PrefixOperator::Increment)
    } else if text == "--"@ {
        Some(PrefixOperator::Decrement)
    } else if text == "&"@ {
        Some(PrefixOperator::AddressOf)
    } else if text == "*"@ {
        Some(PrefixOperator::Deref)
    } else {
        None
    }
}

/// The postfix operator written as `text`.
pub open spec fn postfix_of(text: Seq<char>) -> Option<PostfixOperator> {
    if text == "++"@ {
        Some(PostfixOperator::Increment)
    } else if text == "--"@ {
        Some(PostfixOperator::Decrement)
    } else {
        None
    }
}

pub fn infix_operator(text: &str) -> (op: Option<InfixOperator>)
    ensures
        op == infix_of(text@),
{
    if str_eq(text, "==") {
        Some(InfixOperator::Equals)
    } else if str_eq(text, "!=") {
        Some(InfixOperator::Nequals)
    } else if str_eq(text, "+") {
        Some(InfixOperator::Add)
    } else if str_eq(text, "-") {
        Some(InfixOperator::Subtract)
    } else if str_eq(text, "*") {
        Some(InfixOperator::Multiply)
    } else if str_eq(text, "/") {
        Some(InfixOperator::Divide)
    } else if str_eq(text, "^") {
        Some(InfixOperator::Bitxor)
    } else if str_eq(text, "&&") {
        Some(InfixOperator::Booland)
    } else if str_eq(text, "||") {
        Some(InfixOperator::Boolor)
    } else if str_eq(text, ">=") {
        Some(InfixOperator::Moreeq)
    } else if str_eq(text, "<=") {
        Some(InfixOperator::Lesseq)
    } else if str_eq(text, "<") {
        Some(InfixOperator::Lessthan)
    } else if str_eq(text, ">") {
        Some(InfixOperator::Morethan)
    } else if str_eq(text, "<<") {
        Some(InfixOperator::Shiftleft)
    } else if str_eq(text, ">>") {
        Some(InfixOperator::Shiftright)
    } else if str_eq(text, "%") {
        Some(InfixOperator::Modulo)
    } else if str_eq(text, "&") {
        Some(InfixOperator::Bitand)
    } else if str_eq(text, "|") {
        Some(InfixOperator::Bitor)
    } else {
        None
    }
}

pub fn prefix_operator(text: &str) -> (op: Option<PrefixOperator>)
    ensures
        op == prefix_of(text@),
{
    if str_eq(text, "!") {
        Some(PrefixOperator::Boolnot)
    } else if str_eq(text, "~") {
        Some(PrefixOperator::Bitnot)
    } else if str_eq(text, "++") {
        Some(PrefixOperator::Increment)
    } else if str_eq(text, "--") {
        Some(PrefixOperator::Decrement)
    } else if str_eq(text, "&") {
        Some(PrefixOperator::AddressOf)
    } else if str_eq(text, "*") {
        Some(PrefixOperator::Deref)
    } else {
        None
    }
}

pub fn postfix_operator(text: &str) -> (op: Option<PostfixOperator>)
    ensures
        op == postfix_of(text@),
{
    if str_eq(text, "++") {
        Some(PostfixOperator::Increment)
    } else if str_eq(text, "--") {
        Some(PostfixOperator::Decrement)
    } else {
        None
    }
}

/// The value of a hexadecimal digit.
pub open spec fn hex_value(c: u8) -> Option<u8> {
    if 48 <= c <= 57 {
        Some((c - 48) as u8)
    } else if 97 <= c <= 102 {
        Some((c - 87) as u8)
    } else if 65 <= c <= 70 {
        Some((c - 55) as u8)
    } else {
        None
    }
}

/// The byte that the escape `\c` stands for, for the escapes of one letter.
pub open spec fn escape_value(c: u8) -> Option<u8> {
    if c == 110 {
        Some(10u8)
    } else if c == 116 {
        Some(9u8)
    } else if c == 114 {
        Some(13u8)
    } else if c == 48 {
        Some(0u8)
    } else if c == 92 || c == 34 || c == 39 {
        Some(c)
    } else {
        None
    }
}

/// The bytes that the body of a literal stands for, from position `from` on:
/// `\n`, `\t`, `\r`, `\0`, `\\`, `\"`, `\'` and `\xHH` are replaced by the byte
/// they name, every other byte stands for itself; `None` for any other use of
/// the backslash.
pub open spec fn unescaped(body: Seq<u8>, from: int) -> Option<Seq<u8>>
    decreases body.len() - from,
{
    if from < 0 || from >= body.len() {
        Some(Seq::empty())
    } else if body[from] != 92 {
        match unescaped(body, from + 1) {
            Some(rest) => Some(seq![body[from]] + rest),
            None => None,
        }
    } else if from + 1 >= body.len() {
        None
    } else if body[from + 1] == 120 {
        if from + 3 >= body.len() || hex_value(body[from + 2]) is None || hex_value(body[from + 3])
            is None {
            None
        } else {
            match unescaped(body, from + 4) {
                Some(rest) => Some(
                    seq![
                        (hex_value(body[from + 2])->0 * 16 + hex_value(body[from + 3])->0) as u8,
                    ] + rest,
                ),
                None => None,
            }
        }
    } else {
        match escape_value(body[from + 1]) {
            None => None,
            Some(v) => match unescaped(body, from + 2) {
                Some(rest) => Some(seq![v] + rest),
                None => None,
            },
        }
    }
}

fn hex_digit_value(c: u8) -> (v: Option<u8>)
    ensures
        v == hex_value(c),
        v matches Some(x) ==> x < 16,
{
    if 48 <= c && c <= 57 {
        Some(c - 48)
    } else if 97 <= c && c <= 102 {
        Some(c - 87)
    } else if 65 <= c && c <= 70 {
        Some(c - 55)
    } else {
        None
    }
}

fn escape_byte(c: u8) -> (v: Option<u8>)
    ensures
        v == escape_value(c),
{
    if c == 110 {
        Some(10)
    } else if c == 116 {
        Some(9)
    } else if c == 114 {
        Some(13)
    } else if c == 48 {
        Some(0)
    } else if c == 92 || c == 34 || c == 39 {
        Some(c)
    } else {
        None
    }
}

/// The bytes that `body[from..to]` stands for; see [`unescaped`].
pub fn unescape(body: &Vec<u8>, from: usize, to: usize) -> (r: Option<Vec<u8>>)
    requires
        from <= to <= body.len(),
    ensures
        (match r {
            Some(v) => Some(v@),
            None => None,
        }) == unescaped(body@.subrange(0, to as int), from as int),
{
    let ghost b = body@.subrange(0, to as int);
    let mut out: Vec<u8> = Vec::new();
    let mut i: usize = from;
    while i < to
        invariant
            from <= i <= to <= body.len(),
            b == body@.subrange(0, to as int),
            unescaped(b, from as int) == (match unescaped(b, i as int) {
                Some(rest) => Some(out@ + rest),
                None => None,
            }),
        decreases to - i,
    {
        let c = body[i];
        let ghost before = out@;
        proof {
            assert(b[i as int] == body@[i as int]);
        }
        if c != 92 {
            out.push(c);
            proof {
                match unescaped(b, i + 1) {
                    Some(rest) => {
                        assert(before + (seq![c] + rest) =~= out@ + rest);
                    },
                    None => {},
                }
            }
            i = i + 1;
        } else if i + 1 >= to {
            return None;
        } else if body[i + 1] == 120 {
            proof {
                assert(b[i + 1] == body@[i + 1]);
            }
            if to - i < 4 {
                return None;
            }
            proof {
                assert(b[i + 2] == body@[i + 2]);
                assert(b[i + 3] == body@[i + 3]);
            }
            let hi = hex_digit_value(body[i + 2]);
            let lo = hex_digit_value(body[i + 3]);
            match (hi, lo) {
                (Some(h), Some(l)) => {
                    let v: u8 = h * 16 + l;
                    out.push(v);
                    proof {
                        match unescaped(b, i + 4) {
                            Some(rest) => {
                                assert(before + (seq![v] + rest) =~= out@ + rest);
                            },
                            None => {},
                        }
                    }
                    i = i + 4;
                },
                _ => {
                    return None;
                },
            }
        } else {
            proof {
                assert(b[i + 1] == body@[i + 1]);
            }
            match escape_byte(body[i + 1]) {
                None => {
                    return None;
                },
                Some(v) => {
                    out.push(v);
                    proof {
                        match unescaped(b, i + 2) {
                            Some(rest) => {
                                assert(before + (seq![v] + rest) =~= out@ + rest);
                            },
                            None => {},
                        }
                    }
                    i = i + 2;
                },
            }
        }
    }
    proof {
        assert(out@ + Seq::<u8>::empty() =~= out@);
    }
    Some(out)
}

} // verus!
