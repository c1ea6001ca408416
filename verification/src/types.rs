//! The data model: tokens, atom values, syntax trees, failures, and the
//! mathematical mirrors of each that the contracts are stated over.

use vstd::prelude::*;

verus! {

/// A process-provided callable reachable through the global environment.
/// Keeping the callables a closed set lets every application be dispatched
/// exhaustively.
#[derive(Debug, Clone, Copy, PartialEq, Eq)]
pub enum Builtin {
    Add,
    Subtract,
    Multiply,
    Divide,
}

/// An indivisible lexical unit.  Tokens own their raw text.
#[derive(Debug, Clone, PartialEq, Eq)]
pub enum MalToken {
    /// The two-character splice-unquote marker `~@`.
    SpecialTwo(String),
    /// One of the punctuation characters `[ ] { } ( ) ' ` ~ ^ @`.
    SpecialOne(char),
    /// A double-quoted string literal, raw, including the delimiting quotes,
    /// possibly unterminated.
    StrLiteral(String),
    /// A line comment, from `;` to the end of the line.
    CommentToken(String),
    /// A maximal run of characters that are neither separators nor
    /// punctuation; possibly empty at the end of input.
    NonSpecial(String),
}

/// The payload of a leaf of the syntax tree.
#[derive(Debug, Clone, PartialEq, Eq)]
pub enum MalType {
    Integer(i64),
    /// A name, optionally carrying the callable it resolved to.
    Symbol(String, Option<Builtin>),
    /// A balanced string literal, raw, including the delimiting quotes.
    Str(String),
    Quote,
    QuasiQuote,
    UnQuote,
    SpliceUnQuote,
    Deref(String),
    Meta,
    Comment(String),
    /// A resolved callable.
    Func(Builtin),
    /// Sentinel: a composite form ran out of input before its closing bracket.
    UnbalancedListEnd,
    /// Sentinel: a string literal without a matching closing quote.
    UnbalancedString(String),
    /// Sentinel: a deref marker `@` with nothing after it.
    IncompleteDeref,
}

/// One parsed form: a leaf atom or a composite with exclusively-owned,
/// fully-parsed children in input order.
#[derive(Debug, PartialEq, Eq)]
pub enum AST {
    Atom(MalType),
    List(Vec<AST>),
    Vector(Vec<AST>),
    HashMap(Vec<AST>),
}

/// The single reportable failure kind, carrying a human-readable description.
#[derive(Debug, Clone, PartialEq, Eq)]
pub enum MalError {
    Panic { description: String },
}

pub type ASTResult = Result<AST, MalError>;

// ---------------------------------------------------------------------------
// Mathematical mirrors.  Contracts never speak of `String` or `Vec` directly:
// each executable type has a ghost counterpart over `Seq`.
// ---------------------------------------------------------------------------

/// Ghost mirror of `MalToken`.
pub enum Tok {
    Two(Seq<char>),
    One(char),
    StrTok(Seq<char>),
    CommentTok(Seq<char>),
    OtherTok(Seq<char>),
}

/// Ghost mirror of `MalType`.
pub enum Val {
    Int(int),
    Sym(Seq<char>, Option<Builtin>),
    Str(Seq<char>),
    Quote,
    QuasiQuote,
    UnQuote,
    SpliceUnQuote,
    Deref(Seq<char>),
    Meta,
    Comment(Seq<char>),
    Func(Builtin),
    UnbalancedListEnd,
    UnbalancedString(Seq<char>),
    IncompleteDeref,
}

/// Ghost mirror of `AST`.
#[verifier::ext_equal]
pub enum Sx {
    Atom(Val),
    List(Seq<Sx>),
    Vector(Seq<Sx>),
    HashMap(Seq<Sx>),
}

pub open spec fn view_token(t: MalToken) -> Tok {
    match t {
        MalToken::SpecialTwo(s) => Tok::Two(s@),
        MalToken::SpecialOne(c) => Tok::One(c),
        MalToken::StrLiteral(s) => Tok::StrTok(s@),
        MalToken::CommentToken(s) => Tok::CommentTok(s@),
        MalToken::NonSpecial(s) => Tok::OtherTok(s@),
    }
}

pub open spec fn view_tokens(ts: Seq<MalToken>) -> Seq<Tok> {
    ts.map(|_i: int, t: MalToken| view_token(t))
}

pub open spec fn view_val(v: MalType) -> Val {
    match v {
        MalType::Integer(i) => Val::Int(i as int),
        MalType::Symbol(s, f) => Val::Sym(s@, f),
        MalType::Str(s) => Val::Str(s@),
        MalType::Quote => Val::Quote,
        MalType::QuasiQuote => Val::QuasiQuote,
        MalType::UnQuote => Val::UnQuote,
        MalType::SpliceUnQuote => Val::SpliceUnQuote,
        MalType::Deref(s) => Val::Deref(s@),
        MalType::Meta => Val::Meta,
        MalType::Comment(s) => Val::Comment(s@),
        MalType::Func(f) => Val::Func(f),
        MalType::UnbalancedListEnd => Val::UnbalancedListEnd,
        MalType::UnbalancedString(s) => Val::UnbalancedString(s@),
        MalType::IncompleteDeref => Val::IncompleteDeref,
    }
}

pub open spec fn view_ast(t: AST) -> Sx
    decreases t, 1int,
    via view_ast_dec
{
    match t {
        AST::Atom(v) => Sx::Atom(view_val(v)),
        AST::List(l) => Sx::List(view_asts(l@)),
        AST::Vector(l) => Sx::Vector(view_asts(l@)),
        AST::HashMap(l) => Sx::HashMap(view_asts(l@)),
    }
}

pub open spec fn view_asts(l: Seq<AST>) -> Seq<Sx>
    decreases l, 0int,
{
    if l.len() == 0 {
        Seq::empty()
    } else {
        seq![view_ast(l[0])] + view_asts(l.drop_first())
    }
}

pub open spec fn view_opt_ast(r: Option<AST>) -> Option<Sx> {
    match r {
        Option::Some(t) => Option::Some(view_ast(t)),
        Option::None => Option::None,
    }
}

/// Unfolding helper: the view of a child sequence is pointwise.
pub proof fn lemma_view_asts_index(l: Seq<AST>)
    ensures
        view_asts(l).len() == l.len(),
        forall|i: int| 0 <= i < l.len() ==> view_asts(l)[i] == view_ast(l[i]),
    decreases l.len(),
{
    if l.len() > 0 {
        lemma_view_asts_index(l.drop_first());
    }
}

/// Unfolding helper: pushing a child extends the view by its view.
pub proof fn lemma_view_asts_push(l: Seq<AST>, t: AST)
    ensures
        view_asts(l.push(t)) == view_asts(l).push(view_ast(t)),
{
    lemma_view_asts_index(l);
    lemma_view_asts_index(l.push(t));
    assert(view_asts(l.push(t)) =~= view_asts(l).push(view_ast(t)));
}

#[via_fn]
proof fn view_ast_dec(t: AST) {
    match t {
        AST::Atom(_) => {}
        AST::List(l) => {
            assert(decreases_to!(t => l));
            assert(decreases_to!(l => l@));
            assert(decreases_to!(t => l@));
        }
        AST::Vector(l) => {
            assert(decreases_to!(t => l));
            assert(decreases_to!(l => l@));
            assert(decreases_to!(t => l@));
        }
        AST::HashMap(l) => {
            assert(decreases_to!(t => l));
            assert(decreases_to!(l => l@));
            assert(decreases_to!(t => l@));
        }
    }
}

} // verus!
