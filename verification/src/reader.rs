//! Tokenizer and recursive-descent parser.
//!
//! The lexical grammar, in recognition priority: the two-character
//! splice-unquote marker `~@`; the one-character punctuation set
//! `[ ] { } ( ) ' ` ~ ^ @`; a double-quoted string literal with backslash
//! escapes, possibly unterminated; a line comment from `;` to the end of the
//! line; otherwise the longest run of characters that are neither separators
//! nor punctuation.  Whitespace and commas separate tokens and are discarded.

use vstd::prelude::*;

use crate::env::str_eq;
use crate::types::AST;
use crate::types::MalToken;
use crate::types::MalType;
use crate::types::Sx;
use crate::types::Tok;
use crate::types::Val;
use crate::types::view_ast;
use crate::types::view_asts;
use crate::types::view_opt_ast;
use crate::types::view_token;
use crate::types::view_tokens;

verus! {

/// Separators: whitespace and commas.  Whitespace is the Unicode
/// white-space class: the ASCII controls tab through carriage return, space,
/// next line, no-break space, ogham space mark, the typographic spaces,
/// the line and paragraph separators, and the ideographic space.
pub open spec fn is_sep(c: char) -> bool {
    ||| c == ','
    ||| (9 <= c as u32 && c as u32 <= 13)
    ||| c as u32 == 32
    ||| c as u32 == 0x85
    ||| c as u32 == 0xA0
    ||| c as u32 == 0x1680
    ||| (0x2000 <= c as u32 && c as u32 <= 0x200A)
    ||| c as u32 == 0x2028
    ||| c as u32 == 0x2029
    ||| c as u32 == 0x202F
    ||| c as u32 == 0x205F
    ||| c as u32 == 0x3000
}

/// The one-character punctuation set.
pub open spec fn is_special(c: char) -> bool {
    c == '[' || c == ']' || c == '{' || c == '}' || c == '(' || c == ')' || c == '\'' || c == '`'
        || c == '~' || c == '^' || c == '@'
}

/// Characters that may stand in "other" text: anything that is not a
/// separator, bracket, parenthesis, quote, double quote, backtick or
/// semicolon.  `~`, `^` and `@` are allowed inside a run, though a run can
/// never start with one (punctuation wins at the start of a token).
pub open spec fn is_other_char(c: char) -> bool {
    !is_sep(c) && c != '[' && c != ']' && c != '{' && c != '}' && c != '(' && c != ')'
        && c != '\'' && c != '"' && c != '`' && c != ';'
}

/// End of a string literal whose content starts at `j` (one past the opening
/// quote): scan escape pairs and plain characters until a closing quote or
/// the end of input.  A lone trailing backslash is left for the next token.
pub open spec fn str_end(s: Seq<char>, j: nat) -> nat
    decreases s.len() - j,
    when j <= s.len()
{
    if j >= s.len() {
        s.len()
    } else if s[j as int] == '"' {
        (j + 1) as nat
    } else if s[j as int] == '\\' {
        if j + 1 < s.len() {
            str_end(s, (j + 2) as nat)
        } else {
            j
        }
    } else {
        str_end(s, (j + 1) as nat)
    }
}

/// End of a line comment starting at `j`: everything up to, and not
/// including, the next newline.
pub open spec fn comment_end(s: Seq<char>, j: nat) -> nat
    decreases s.len() - j,
    when j <= s.len()
{
    if j >= s.len() {
        s.len()
    } else if s[j as int] == '\n' {
        j
    } else {
        comment_end(s, (j + 1) as nat)
    }
}

/// End of a maximal run of "other" characters starting at `j`.
pub open spec fn other_end(s: Seq<char>, j: nat) -> nat
    decreases s.len() - j,
    when j <= s.len()
{
    if j >= s.len() {
        s.len()
    } else if is_other_char(s[j as int]) {
        other_end(s, (j + 1) as nat)
    } else {
        j
    }
}

/// One token starting at the non-separator position `i`, and the position
/// just past it.
pub open spec fn lex_one(s: Seq<char>, i: nat) -> (Tok, nat) {
    if s[i as int] == '~' && i + 1 < s.len() && s[i + 1 as int] == '@' {
        (Tok::Two(s.subrange(i as int, i + 2 as int)), (i + 2) as nat)
    } else if is_special(s[i as int]) {
        (Tok::One(s[i as int]), (i + 1) as nat)
    } else if s[i as int] == '"' {
        let e = str_end(s, (i + 1) as nat);
        (Tok::StrTok(s.subrange(i as int, e as int)), e)
    } else if s[i as int] == ';' {
        let e = comment_end(s, i);
        (Tok::CommentTok(s.subrange(i as int, e as int)), e)
    } else {
        let e = other_end(s, i);
        (Tok::OtherTok(s.subrange(i as int, e as int)), e)
    }
}

proof fn lemma_str_end_bounds(s: Seq<char>, j: nat)
    requires
        j <= s.len(),
    ensures
        j <= str_end(s, j) <= s.len(),
    decreases s.len() - j,
{
    if j < s.len() && s[j as int] != '"' {
        if s[j as int] == '\\' {
            if j + 1 < s.len() {
                lemma_str_end_bounds(s, (j + 2) as nat);
            }
        } else {
            lemma_str_end_bounds(s, (j + 1) as nat);
        }
    }
}

proof fn lemma_comment_end_bounds(s: Seq<char>, j: nat)
    requires
        j <= s.len(),
    ensures
        j <= comment_end(s, j) <= s.len(),
    decreases s.len() - j,
{
    if j < s.len() && s[j as int] != '\n' {
        lemma_comment_end_bounds(s, (j + 1) as nat);
    }
}

proof fn lemma_other_end_bounds(s: Seq<char>, j: nat)
    requires
        j <= s.len(),
    ensures
        j <= other_end(s, j) <= s.len(),
    decreases s.len() - j,
{
    if j < s.len() && is_other_char(s[j as int]) {
        lemma_other_end_bounds(s, (j + 1) as nat);
    }
}

/// Lexing one token always moves the cursor strictly forward and never past
/// the end.
pub proof fn lemma_lex_advances(s: Seq<char>, i: nat)
    requires
        i < s.len(),
        !is_sep(s[i as int]),
    ensures
        i < lex_one(s, i).1 <= s.len(),
{
    if s[i as int] == '~' && i + 1 < s.len() && s[i + 1 as int] == '@' {
    } else if is_special(s[i as int]) {
    } else if s[i as int] == '"' {
        lemma_str_end_bounds(s, (i + 1) as nat);
    } else if s[i as int] == ';' {
        lemma_comment_end_bounds(s, (i + 1) as nat);
    } else {
        assert(is_other_char(s[i as int]));
        lemma_other_end_bounds(s, (i + 1) as nat);
    }
}

/// The token sequence of the input from position `i` on.  Separators are
/// skipped; exhausted input contributes one final empty "other" token, which
/// the parser filters.
pub open spec fn spec_tokens(s: Seq<char>, i: nat) -> Seq<Tok>
    decreases s.len() - i,
    when i <= s.len()
    via spec_tokens_dec
{
    if i >= s.len() {
        seq![Tok::OtherTok(Seq::empty())]
    } else if is_sep(s[i as int]) {
        spec_tokens(s, (i + 1) as nat)
    } else {
        let (t, j) = lex_one(s, i);
        seq![t] + spec_tokens(s, j)
    }
}

#[via_fn]
proof fn spec_tokens_dec(s: Seq<char>, i: nat) {
    if i < s.len() && !is_sep(s[i as int]) {
        lemma_lex_advances(s, i);
    }
}

proof fn lemma_view_tokens_push(ts: Seq<MalToken>, t: MalToken)
    ensures
        view_tokens(ts.push(t)) == view_tokens(ts).push(view_token(t)),
{
    assert(view_tokens(ts.push(t)) =~= view_tokens(ts).push(view_token(t)));
}

fn sep_x(c: char) -> (r: bool)
    ensures
        r == is_sep(c),
{
    let u = c as u32;
    c == ',' || (9 <= u && u <= 13) || u == 32 || u == 0x85 || u == 0xA0 || u == 0x1680 || (0x2000
        <= u && u <= 0x200A) || u == 0x2028 || u == 0x2029 || u == 0x202F || u == 0x205F || u
        == 0x3000
}

fn special_x(c: char) -> (r: bool)
    ensures
        r == is_special(c),
{
    c == '[' || c == ']' || c == '{' || c == '}' || c == '(' || c == ')' || c == '\'' || c == '`'
        || c == '~' || c == '^' || c == '@'
}

fn other_char_x(c: char) -> (r: bool)
    ensures
        r == is_other_char(c),
{
    !sep_x(c) && c != '[' && c != ']' && c != '{' && c != '}' && c != '(' && c != ')' && c != '\''
        && c != '"' && c != '`' && c != ';'
}

fn scan_str(s: &str, j0: usize) -> (e: usize)
    requires
        j0 <= s@.len(),
    ensures
        e == str_end(s@, j0 as nat),
{
    let n = s.unicode_len();
    let mut j = j0;
    while j < n
        invariant
            j0 <= j <= n,
            n == s@.len(),
            str_end(s@, j0 as nat) == str_end(s@, j as nat),
        decreases n - j,
    {
        let c = s.get_char(j);
        if c == '"' {
            return j + 1;
        } else if c == '\\' {
            if j + 1 < n {
                j += 2;
            } else {
                return j;
            }
        } else {
            j += 1;
        }
    }
    n
}

fn scan_comment(s: &str, j0: usize) -> (e: usize)
    requires
        j0 <= s@.len(),
    ensures
        e == comment_end(s@, j0 as nat),
{
    let n = s.unicode_len();
    let mut j = j0;
    while j < n
        invariant
            j0 <= j <= n,
            n == s@.len(),
            comment_end(s@, j0 as nat) == comment_end(s@, j as nat),
        decreases n - j,
    {
        let c = s.get_char(j);
        if c == '\n' {
            return j;
        }
        j += 1;
    }
    n
}

fn scan_other(s: &str, j0: usize) -> (e: usize)
    requires
        j0 <= s@.len(),
    ensures
        e == other_end(s@, j0 as nat),
{
    let n = s.unicode_len();
    let mut j = j0;
    while j < n
        invariant
            j0 <= j <= n,
            n == s@.len(),
            other_end(s@, j0 as nat) == other_end(s@, j as nat),
        decreases n - j,
    {
        let c = s.get_char(j);
        if !other_char_x(c) {
            return j;
        }
        j += 1;
    }
    n
}

/// Cut the raw text of one token out of the input.
fn cut(s: &str, from: usize, to: usize) -> (r: String)
    requires
        from <= to <= s@.len(),
    ensures
        r@ == s@.subrange(from as int, to as int),
{
    let piece = s.substring_char(from, to);
    piece.to_owned()
}

/// Split raw text into its ordered token sequence.  Pure: the result is a
/// function of the input text alone.
pub fn tokenize(input: &str) -> (r: Vec<MalToken>)
    ensures
        view_tokens(r@) == spec_tokens(input@, 0),
{
    let mut tokens: Vec<MalToken> = Vec::new();
    let n = input.unicode_len();
    let mut i: usize = 0;
    proof {
        assert(view_tokens(tokens@) =~= Seq::<Tok>::empty());
        assert(spec_tokens(input@, 0) =~= view_tokens(tokens@) + spec_tokens(input@, 0));
    }
    while i < n
        invariant
            i <= n,
            n == input@.len(),
            spec_tokens(input@, 0) == view_tokens(tokens@) + spec_tokens(input@, i as nat),
        decreases n - i,
    {
        let ghost toks0 = tokens@;
        let ghost i0 = i as nat;
        let c = input.get_char(i);
        if sep_x(c) {
            i += 1;
        } else {
            proof {
                lemma_lex_advances(input@, i as nat);
            }
            if c == '~' && i + 1 < n && input.get_char(i + 1) == '@' {
                let text = cut(input, i, i + 2);
                tokens.push(MalToken::SpecialTwo(text));
                i += 2;
            } else if special_x(c) {
                tokens.push(MalToken::SpecialOne(c));
                i += 1;
            } else if c == '"' {
                let e = scan_str(input, i + 1);
                proof {
                    lemma_str_end_bounds(input@, (i + 1) as nat);
                }
                let text = cut(input, i, e);
                tokens.push(MalToken::StrLiteral(text));
                i = e;
            } else if c == ';' {
                let e = scan_comment(input, i);
                proof {
                    lemma_comment_end_bounds(input@, i as nat);
                }
                let text = cut(input, i, e);
                tokens.push(MalToken::CommentToken(text));
                i = e;
            } else {
                let e = scan_other(input, i);
                proof {
                    lemma_other_end_bounds(input@, i as nat);
                }
                let text = cut(input, i, e);
                tokens.push(MalToken::NonSpecial(text));
                i = e;
            }
            proof {
                lemma_view_tokens_push(toks0, tokens@.last());
                assert(spec_tokens(input@, i0) =~= seq![view_token(tokens@.last())]
                    + spec_tokens(input@, i as nat));
                assert(view_tokens(toks0) + spec_tokens(input@, i0) =~= view_tokens(tokens@)
                    + spec_tokens(input@, i as nat));
            }
        }
    }
    tokens.push(MalToken::NonSpecial(String::new()));
    proof {
        lemma_view_tokens_push(tokens@.drop_last(), tokens@.last());
        assert(tokens@.drop_last().push(tokens@.last()) =~= tokens@);
        assert(spec_tokens(input@, n as nat) == seq![Tok::OtherTok(Seq::empty())]);
        assert(view_tokens(tokens@) =~= spec_tokens(input@, 0));
    }
    tokens
}

// ---------------------------------------------------------------------------
// Leaf classification.
// ---------------------------------------------------------------------------

/// Digit in decimal notation.
pub open spec fn is_digit(c: char) -> bool {
    48 <= c as u32 && c as u32 <= 57
}

pub open spec fn all_digits(s: Seq<char>) -> bool {
    forall|k: int| 0 <= k < s.len() ==> is_digit(s[k])
}

/// Text matching the optional-sign digit-only grammar `-?[0-9]+`.
pub open spec fn is_numeric(s: Seq<char>) -> bool {
    if s.len() > 0 && s[0] == '-' {
        s.len() > 1 && all_digits(s.subrange(1, s.len() as int))
    } else {
        s.len() > 0 && all_digits(s)
    }
}

/// The value of a run of decimal digits.
pub open spec fn digits_value(s: Seq<char>) -> int
    decreases s.len(),
{
    if s.len() == 0 {
        0
    } else {
        digits_value(s.drop_last()) * 10 + (s.last() as u32 - 48)
    }
}

/// The value of numeric text, sign included.
pub open spec fn numeral_value(s: Seq<char>) -> int {
    if s.len() > 0 && s[0] == '-' {
        -digits_value(s.subrange(1, s.len() as int))
    } else {
        digits_value(s)
    }
}

pub open spec fn fits_i64(v: int) -> bool {
    i64::MIN as int <= v <= i64::MAX as int
}

/// Leaf classification of "other" text: numeric text in machine range is an
/// integer; the canonical quote-family names are their markers, so that the
/// shorthand forms and their written-out spellings parse alike; any other
/// non-empty text is a symbol; empty text is no atom at all.  Numeric text
/// whose value does not fit the fixed-width integer degrades to a symbol
/// rather than aborting.
pub open spec fn classify_other(s: Seq<char>) -> Option<Val> {
    if s.len() == 0 {
        Option::None
    } else if is_numeric(s) && fits_i64(numeral_value(s)) {
        Option::Some(Val::Int(numeral_value(s)))
    } else if s == "quote"@ {
        Option::Some(Val::Quote)
    } else if s == "quasiquote"@ {
        Option::Some(Val::QuasiQuote)
    } else if s == "unquote"@ {
        Option::Some(Val::UnQuote)
    } else if s == "splice-unquote"@ {
        Option::Some(Val::SpliceUnQuote)
    } else {
        Option::Some(Val::Sym(s, Option::None))
    }
}

/// A string-literal token is balanced when its first and last characters are
/// matching quote marks; text that does not start with a quote mark at all is
/// taken as it stands.
pub open spec fn spec_open_equals_close(s: Seq<char>) -> bool {
    if s.len() > 0 {
        if s[0] != '"' && s[0] != '\'' {
            true
        } else {
            s[s.len() - 1] == s[0]
        }
    } else {
        true
    }
}

/// Leaf classification of one token.
pub open spec fn classify_token(t: Tok) -> Option<Val> {
    match t {
        Tok::Two(s) => Option::Some(Val::Sym(s, Option::None)),
        Tok::One(c) => Option::Some(Val::Sym(seq![c], Option::None)),
        Tok::StrTok(s) => if spec_open_equals_close(s) {
            Option::Some(Val::Str(s))
        } else {
            Option::Some(Val::UnbalancedString(s))
        },
        Tok::CommentTok(s) => Option::Some(Val::Comment(s)),
        Tok::OtherTok(s) => classify_other(s),
    }
}

// ---------------------------------------------------------------------------
// The grammar: token dispatch.
// ---------------------------------------------------------------------------

pub open spec fn is_opener(t: Tok) -> bool {
    match t {
        Tok::One(c) => c == '(' || c == '[' || c == '{',
        _ => false,
    }
}

pub open spec fn is_closer(t: Tok) -> bool {
    match t {
        Tok::One(c) => c == ')' || c == ']' || c == '}',
        _ => false,
    }
}

pub open spec fn is_quote_tok(t: Tok) -> bool {
    match t {
        Tok::Two(_) => true,
        Tok::One(c) => c == '\'' || c == '`' || c == '~',
        _ => false,
    }
}

pub open spec fn is_deref_tok(t: Tok) -> bool {
    t == Tok::One('@')
}

pub open spec fn is_meta_tok(t: Tok) -> bool {
    t == Tok::One('^')
}

/// The quote-family marker a shorthand token stands for.
pub open spec fn marker_of(t: Tok) -> Val {
    match t {
        Tok::One(c) => if c == '\'' {
            Val::Quote
        } else if c == '`' {
            Val::QuasiQuote
        } else {
            Val::UnQuote
        },
        _ => Val::SpliceUnQuote,
    }
}

/// The composite kind the closing bracket decides.
pub open spec fn composite_of(c: char, children: Seq<Sx>) -> Sx {
    if c == ']' {
        Sx::Vector(children)
    } else if c == '}' {
        Sx::HashMap(children)
    } else {
        Sx::List(children)
    }
}

pub open spec fn closer_char(t: Tok) -> char {
    match t {
        Tok::One(c) => c,
        _ => ' ',
    }
}

/// Parse one form starting at `pos`: the parsed node, if the tokens there
/// form one, and the position just past everything consumed.  `None` arises
/// exactly when nothing but empty "other" padding remains, which signals
/// end of input to the caller; malformed input never yields `None` but
/// degrades to a sentinel atom inside a returned tree.
pub open spec fn spec_parse(toks: Seq<Tok>, pos: nat) -> (Option<Sx>, nat)
    decreases toks.len() - pos, 0int,
    when pos <= toks.len()
{
    if pos >= toks.len() {
        (Option::None, pos)
    } else {
        let t = toks[pos as int];
        if is_opener(t) {
            spec_parse_list(toks, (pos + 1) as nat, Seq::empty())
        } else if is_quote_tok(t) {
            let (n, p2) = spec_parse(toks, (pos + 1) as nat);
            let second = match n {
                Option::Some(x) => x,
                Option::None => Sx::Atom(Val::UnbalancedListEnd),
            };
            (Option::Some(Sx::List(seq![Sx::Atom(marker_of(t)), second])), p2)
        } else if is_deref_tok(t) {
            if pos + 1 >= toks.len() {
                (Option::Some(Sx::Atom(Val::IncompleteDeref)), (pos + 1) as nat)
            } else {
                match toks[pos + 1 as int] {
                    Tok::OtherTok(s) => (Option::Some(Sx::Atom(Val::Deref(s))), (pos + 2) as nat),
                    // Anything but a name after the marker: the deref is
                    // incomplete; the following token is left in place.
                    _ => (Option::Some(Sx::Atom(Val::IncompleteDeref)), (pos + 1) as nat),
                }
            }
        } else if is_meta_tok(t) {
            let (n, p2) = spec_parse(toks, (pos + 1) as nat);
            let children = match n {
                Option::Some(x) => seq![Sx::Atom(Val::Meta), x],
                Option::None => seq![Sx::Atom(Val::Meta)],
            };
            (Option::Some(Sx::List(children)), p2)
        } else {
            let v = classify_token(t);
            match v {
                Option::Some(x) => (Option::Some(Sx::Atom(x)), (pos + 1) as nat),
                // Empty "other" text yields no atom: it is filtered here and
                // scanning goes on, so `None` arises only when nothing but
                // such padding remains.
                Option::None => spec_parse(toks, (pos + 1) as nat),
            }
        }
    }
}

/// Parse the children of a composite whose opener stood just before `pos`,
/// with `acc` the children already parsed.  Exhaustion appends a single
/// `UnbalancedListEnd` sentinel instead of aborting; any closing bracket ends
/// the composite and decides its kind.
pub open spec fn spec_parse_list(toks: Seq<Tok>, pos: nat, acc: Seq<Sx>) -> (Option<Sx>, nat)
    decreases toks.len() - pos, 1int,
    when pos <= toks.len()
{
    if pos >= toks.len() {
        (Option::Some(Sx::List(acc.push(Sx::Atom(Val::UnbalancedListEnd)))), pos)
    } else if is_closer(toks[pos as int]) {
        (Option::Some(composite_of(closer_char(toks[pos as int]), acc)), (pos + 1) as nat)
    } else {
        let (n, p2) = spec_parse(toks, pos);
        let acc2 = match n {
            Option::Some(x) => acc.push(x),
            Option::None => acc,
        };
        if pos < p2 <= toks.len() {
            spec_parse_list(toks, p2, acc2)
        } else {
            (Option::None, p2)
        }
    }
}

/// The parser only ever moves forward, and moves strictly forward whenever a
/// token is there to consume.
pub proof fn lemma_parse_advances(toks: Seq<Tok>, pos: nat)
    requires
        pos <= toks.len(),
    ensures
        pos <= spec_parse(toks, pos).1 <= toks.len(),
        pos < toks.len() ==> pos < spec_parse(toks, pos).1,
    decreases toks.len() - pos, 0int,
{
    if pos < toks.len() {
        let t = toks[pos as int];
        if is_opener(t) {
            lemma_parse_list_advances(toks, (pos + 1) as nat, Seq::empty());
        } else if is_quote_tok(t) || is_meta_tok(t) {
            lemma_parse_advances(toks, (pos + 1) as nat);
        } else if is_deref_tok(t) {
        } else if classify_token(t) is None {
            lemma_parse_advances(toks, (pos + 1) as nat);
        } else {
        }
    }
}

pub proof fn lemma_parse_list_advances(toks: Seq<Tok>, pos: nat, acc: Seq<Sx>)
    requires
        pos <= toks.len(),
    ensures
        pos <= spec_parse_list(toks, pos, acc).1 <= toks.len(),
    decreases toks.len() - pos, 1int,
{
    if pos >= toks.len() {
    } else if is_closer(toks[pos as int]) {
    } else {
        lemma_parse_advances(toks, pos);
        let (n, p2) = spec_parse(toks, pos);
        let acc2 = match n {
            Option::Some(x) => acc.push(x),
            Option::None => acc,
        };
        lemma_parse_list_advances(toks, p2, acc2);
    }
}

// ---------------------------------------------------------------------------
// The executable parser.
// ---------------------------------------------------------------------------

/// A forward cursor over a token sequence: peek and advance only, no
/// backtracking.
pub struct Reader {
    pub tokens: Vec<MalToken>,
    pub pos: usize,
}

pub fn create_reader(tokens: Vec<MalToken>, pos: usize) -> (r: Reader)
    ensures
        r.tokens@ == tokens@,
        r.pos == pos,
{
    Reader { tokens, pos }
}

/// The token at `pos`, if any.
pub fn peek(tokens: &Vec<MalToken>, pos: usize) -> (r: Option<&MalToken>)
    ensures
        match r {
            Option::Some(t) => pos < tokens@.len() && *t == tokens@[pos as int],
            Option::None => pos >= tokens@.len(),
        },
{
    if pos >= tokens.len() {
        None
    } else {
        Some(&tokens[pos])
    }
}

impl Reader {
    /// The current token, if any, advancing past it.
    pub fn next(&mut self) -> (r: Option<&MalToken>)
        ensures
            final(self).tokens@ == old(self).tokens@,
            match r {
                Option::Some(t) => old(self).pos < old(self).tokens@.len() && *t == old(
                    self,
                ).tokens@[old(self).pos as int] && final(self).pos == old(self).pos + 1,
                Option::None => old(self).pos >= old(self).tokens@.len() && final(self).pos == old(
                    self,
                ).pos,
            },
    {
        if self.pos >= self.tokens.len() {
            None
        } else {
            let i = self.pos;
            self.pos = self.pos + 1;
            Some(&self.tokens[i])
        }
    }

    /// Step past the current token.
    fn advance(&mut self)
        requires
            old(self).pos < old(self).tokens@.len(),
        ensures
            final(self).tokens@ == old(self).tokens@,
            final(self).pos == old(self).pos + 1,
    {
        if self.pos < self.tokens.len() {
            self.pos = self.pos + 1;
        }
    }

    /// The current token, if any, without advancing.
    pub fn peek(&self) -> (r: Option<&MalToken>)
        ensures
            match r {
                Option::Some(t) => self.pos < self.tokens@.len() && *t == self.tokens@[self.pos as int],
                Option::None => self.pos >= self.tokens@.len(),
            },
    {
        peek(&self.tokens, self.pos)
    }
}

/// Ties an executable result and cursor to the parsing function.
pub open spec fn parse_post(r: Option<AST>, old_r: Reader, new_r: Reader) -> bool {
    let (n, p) = spec_parse(view_tokens(old_r.tokens@), old_r.pos as nat);
    &&& new_r.tokens@ == old_r.tokens@
    &&& new_r.pos as nat == p
    &&& view_opt_ast(r) == n
}

/// Parse one form at the cursor.  Returns `None` only at end of input
/// (nothing but empty "other" padding left); never aborts, and never drops
/// a token: malformed input degrades to sentinel atoms in a returned tree.
pub fn start_to_ast(reader: &mut Reader) -> (r: Option<AST>)
    requires
        old(reader).pos <= old(reader).tokens@.len(),
    ensures
        parse_post(r, *old(reader), *final(reader)),
    decreases old(reader).tokens@.len() - old(reader).pos, 2int,
{
    let ghost toks = view_tokens(old(reader).tokens@);
    proof {
        assert(toks.len() == old(reader).tokens@.len());
    }
    if reader.pos >= reader.tokens.len() {
        return None;
    }
    proof {
        assert(toks[old(reader).pos as int] == view_token(
            old(reader).tokens@[old(reader).pos as int],
        ));
    }
    let kind = match &reader.tokens[reader.pos] {
        MalToken::SpecialOne(c) => {
            let c = *c;
            if c == '(' || c == '[' || c == '{' {
                0usize
            } else if c == '\'' || c == '`' || c == '~' {
                1
            } else if c == '@' {
                2
            } else if c == '^' {
                3
            } else {
                4
            }
        },
        MalToken::SpecialTwo(_) => 1,
        _ => 4,
    };
    if kind == 0 {
        reader.advance();
        to_ast_list(reader)
    } else if kind == 1 {
        to_ast_quote(reader)
    } else if kind == 2 {
        to_ast_deref(reader)
    } else if kind == 3 {
        to_ast_metadata(reader)
    } else {
        to_ast_elem(reader)
    }
}

/// Children of a composite: the cursor stands just past the opening bracket.
pub fn to_ast_list(reader: &mut Reader) -> (r: Option<AST>)
    requires
        old(reader).pos <= old(reader).tokens@.len(),
    ensures
        final(reader).tokens@ == old(reader).tokens@,
        ({
            let (n, p) = spec_parse_list(
                view_tokens(old(reader).tokens@),
                old(reader).pos as nat,
                Seq::empty(),
            );
            final(reader).pos as nat == p && view_opt_ast(r) == n
        }),
    decreases old(reader).tokens@.len() - old(reader).pos, 3int,
{
    let ghost toks = view_tokens(old(reader).tokens@);
    let ghost p0 = old(reader).pos as nat;
    let mut items: Vec<AST> = Vec::new();
    proof {
        assert(view_asts(items@) =~= Seq::<Sx>::empty());
    }
    loop
        invariant
            reader.tokens@ == old(reader).tokens@,
            old(reader).pos <= reader.pos <= reader.tokens@.len(),
            toks == view_tokens(reader.tokens@),
            toks.len() == reader.tokens@.len(),
            p0 == old(reader).pos as nat,
            spec_parse_list(toks, p0, Seq::empty()) == spec_parse_list(
                toks,
                reader.pos as nat,
                view_asts(items@),
            ),
        decreases reader.tokens@.len() - reader.pos,
    {
        let ghost p = reader.pos as nat;
        let ghost acc = view_asts(items@);
        if reader.pos >= reader.tokens.len() {
            let ghost pre_items = items@;
            items.push(AST::Atom(MalType::UnbalancedListEnd));
            proof {
                crate::types::lemma_view_asts_push(pre_items, AST::Atom(MalType::UnbalancedListEnd));
                assert(view_asts(items@) == acc.push(Sx::Atom(Val::UnbalancedListEnd)));
            }
            return Some(AST::List(items));
        }
        let mut closer: char = ' ';
        let mut is_close = false;
        match &reader.tokens[reader.pos] {
            MalToken::SpecialOne(c) => {
                let c = *c;
                if c == ')' || c == ']' || c == '}' {
                    closer = c;
                    is_close = true;
                }
            },
            _ => {},
        }
        proof {
            assert(toks[p as int] == view_token(reader.tokens@[p as int]));
        }
        if is_close {
            reader.advance();
            if closer == ']' {
                return Some(AST::Vector(items));
            } else if closer == '}' {
                return Some(AST::HashMap(items));
            } else {
                return Some(AST::List(items));
            }
        }
        let child = start_to_ast(reader);
        proof {
            lemma_parse_advances(toks, p);
        }
        match child {
            Option::Some(ast) => {
                proof {
                    crate::types::lemma_view_asts_push(items@, ast);
                }
                items.push(ast);
            },
            Option::None => {},
        }
    }
}

/// A quote shorthand: wrap the next parsed node as the second element of a
/// two-element list headed by the marker; a missing node becomes an
/// `UnbalancedListEnd` sentinel.
pub fn to_ast_quote(reader: &mut Reader) -> (r: Option<AST>)
    requires
        old(reader).pos < old(reader).tokens@.len(),
        is_quote_tok(view_tokens(old(reader).tokens@)[old(reader).pos as int]),
    ensures
        parse_post(r, *old(reader), *final(reader)),
    decreases old(reader).tokens@.len() - old(reader).pos, 1int,
{
    let ghost toks = view_tokens(old(reader).tokens@);
    proof {
        assert(toks[old(reader).pos as int] == view_token(
            old(reader).tokens@[old(reader).pos as int],
        ));
    }
    let marker = match &reader.tokens[reader.pos] {
        MalToken::SpecialOne(c) => {
            let c = *c;
            if c == '\'' {
                MalType::Quote
            } else if c == '`' {
                MalType::QuasiQuote
            } else {
                MalType::UnQuote
            }
        },
        _ => MalType::SpliceUnQuote,
    };
    reader.advance();
    let child = start_to_ast(reader);
    let mut v: Vec<AST> = Vec::new();
    v.push(AST::Atom(marker));
    match child {
        Option::Some(ast) => v.push(ast),
        Option::None => v.push(AST::Atom(MalType::UnbalancedListEnd)),
    }
    proof {
        crate::types::lemma_view_asts_index(v@);
        assert(view_asts(v@) =~= seq![view_ast(v@[0]), view_ast(v@[1])]);
    }
    Some(AST::List(v))
}

/// The deref shorthand `@`: exactly one following "other" token becomes
/// `Deref(name)`; a marker with no name after it, either because the tokens
/// end or because something other than a name follows, degrades to the
/// `IncompleteDeref` sentinel, leaving any following token in place.
pub fn to_ast_deref(reader: &mut Reader) -> (r: Option<AST>)
    requires
        old(reader).pos < old(reader).tokens@.len(),
        is_deref_tok(view_tokens(old(reader).tokens@)[old(reader).pos as int]),
    ensures
        parse_post(r, *old(reader), *final(reader)),
    decreases old(reader).tokens@.len() - old(reader).pos, 1int,
{
    let ghost toks = view_tokens(old(reader).tokens@);
    proof {
        assert(toks[old(reader).pos as int] == view_token(
            old(reader).tokens@[old(reader).pos as int],
        ));
    }
    reader.advance();
    if reader.pos >= reader.tokens.len() {
        return Some(AST::Atom(MalType::IncompleteDeref));
    }
    proof {
        assert(toks[reader.pos as int] == view_token(reader.tokens@[reader.pos as int]));
    }
    match &reader.tokens[reader.pos] {
        MalToken::NonSpecial(x) => {
            let r = Some(AST::Atom(MalType::Deref(x.clone())));
            reader.advance();
            r
        },
        _ => Some(AST::Atom(MalType::IncompleteDeref)),
    }
}

/// The metadata shorthand `^`: one following parsed node, wrapped as a
/// two-element list headed by `Meta`.
pub fn to_ast_metadata(reader: &mut Reader) -> (r: Option<AST>)
    requires
        old(reader).pos < old(reader).tokens@.len(),
        is_meta_tok(view_tokens(old(reader).tokens@)[old(reader).pos as int]),
    ensures
        parse_post(r, *old(reader), *final(reader)),
    decreases old(reader).tokens@.len() - old(reader).pos, 1int,
{
    let ghost toks = view_tokens(old(reader).tokens@);
    proof {
        assert(toks[old(reader).pos as int] == view_token(
            old(reader).tokens@[old(reader).pos as int],
        ));
    }
    reader.advance();
    let child = start_to_ast(reader);
    let mut v: Vec<AST> = Vec::new();
    v.push(AST::Atom(MalType::Meta));
    match child {
        Option::Some(ast) => v.push(ast),
        Option::None => {},
    }
    proof {
        crate::types::lemma_view_asts_index(v@);
        if v@.len() == 2 {
            assert(view_asts(v@) =~= seq![view_ast(v@[0]), view_ast(v@[1])]);
        } else {
            assert(view_asts(v@) =~= seq![view_ast(v@[0])]);
        }
    }
    Some(AST::List(v))
}

/// Is the first character of this text a quote mark matched by its last?
pub fn open_equals_close(s: &str) -> (r: bool)
    ensures
        r == spec_open_equals_close(s@),
{
    let n = s.unicode_len();
    if n > 0 {
        let first = s.get_char(0);
        if first != '"' && first != '\'' {
            return true;
        }
        let last = s.get_char(n - 1);
        first == last
    } else {
        true
    }
}

/// Read numeric text into a machine integer; `None` when the text is not
/// numeric or its value does not fit.
fn parse_i64(s: &str) -> (r: Option<i64>)
    ensures
        match r {
            Option::Some(v) => is_numeric(s@) && numeral_value(s@) == v as int,
            Option::None => !(is_numeric(s@) && fits_i64(numeral_value(s@))),
        },
{
    let n = s.unicode_len();
    if n == 0 {
        return None;
    }
    let neg = s.get_char(0) == '-';
    let start: usize = if neg {
        1
    } else {
        0
    };
    if start >= n {
        return None;
    }
    let bound: u64 = if neg {
        9223372036854775808u64
    } else {
        9223372036854775807u64
    };
    let mut acc: u64 = 0;
    let mut too_big = false;
    let mut j = start;
    while j < n
        invariant
            start <= j <= n,
            n == s@.len(),
            start == if neg { 1int } else { 0int },
            neg ==> s@[0] == '-',
            !neg ==> s@[0] != '-',
            start < n,
            bound == if neg { 9223372036854775808u64 } else { 9223372036854775807u64 },
            all_digits(s@.subrange(start as int, j as int)),
            !too_big ==> acc as int == digits_value(s@.subrange(start as int, j as int)) && acc
                <= bound,
            too_big ==> digits_value(s@.subrange(start as int, j as int)) > bound,
        decreases n - j,
    {
        let ghost pre = s@.subrange(start as int, j as int);
        let c = s.get_char(j);
        let cv = c as u32;
        if cv < 48 || cv > 57 {
            // A non-digit inside the would-be digit run: not numeric at all.
            proof {
                if neg {
                    assert(s@.subrange(1, n as int)[j - 1] == s@[j as int]);
                } else {
                    assert(s@.subrange(0, n as int) =~= s@);
                }
            }
            return None;
        }
        let d: u64 = (cv - 48) as u64;
        j += 1;
        proof {
            assert(s@.subrange(start as int, j as int).drop_last() =~= pre);
            assert(s@.subrange(start as int, j as int).last() == c);
            lemma_digits_nonneg(pre);
        }
        if too_big {
            proof {
                assert(digits_value(s@.subrange(start as int, j as int)) > bound) by (
                nonlinear_arith)
                    requires
                        digits_value(s@.subrange(start as int, j as int)) == digits_value(pre) * 10
                            + (c as u32 - 48),
                        digits_value(pre) > bound,
                        c as u32 >= 48,
                        bound >= 0,
                ;
            }
        } else if acc > (bound - d) / 10 {
            too_big = true;
            proof {
                assert(acc as int * 10 + d > bound) by (nonlinear_arith)
                    requires
                        acc as int > ((bound - d) as int) / 10,
                        0 <= d <= 9,
                        bound >= d,
                        acc >= 0,
                ;
            }
        } else {
            acc = acc * 10 + d;
        }
    }
    let ghost digits = s@.subrange(start as int, n as int);
    proof {
        if neg {
            assert(s@.subrange(1, n as int) =~= digits);
        } else {
            assert(s@.subrange(0, n as int) =~= s@);
            assert(digits =~= s@);
        }
        assert(is_numeric(s@));
        if neg {
            assert(numeral_value(s@) == -digits_value(digits));
        } else {
            assert(numeral_value(s@) == digits_value(digits));
        }
    }
    if too_big {
        proof {
            assert(!fits_i64(numeral_value(s@)));
        }
        return None;
    }
    if neg {
        if acc == 9223372036854775808u64 {
            Some(i64::MIN)
        } else {
            Some(-(acc as i64))
        }
    } else {
        Some(acc as i64)
    }
}

/// Once a digit prefix exceeds the bound, the whole numeral does: digit
/// values never shrink as more digits arrive.
proof fn lemma_digits_prefix_large(s: Seq<char>, start: int, j: int, n: int, bound: int)
    requires
        0 <= start <= j < n <= s.len(),
        all_digits(s.subrange(start, j)),
        is_digit(s[j]),
        digits_value(s.subrange(start, j)) * 10 + (s[j] as u32 - 48) > bound,
        bound >= 0,
        forall|k: int| start <= k < n ==> is_digit(s[k]),
    ensures
        digits_value(s.subrange(start, n)) > bound,
{
    lemma_digits_nonneg(s.subrange(start, j + 1));
    assert(s.subrange(start, j + 1).drop_last() =~= s.subrange(start, j));
    assert(s.subrange(start, j + 1).last() == s[j]);
    assert(digits_value(s.subrange(start, j + 1)) > bound);
    lemma_digits_monotone(s, start, j + 1, n);
}

proof fn lemma_digits_nonneg(s: Seq<char>)
    requires
        all_digits(s),
    ensures
        digits_value(s) >= 0,
    decreases s.len(),
{
    if s.len() > 0 {
        assert(forall|k: int| 0 <= k < s.len() - 1 ==> is_digit(s.drop_last()[k]));
        lemma_digits_nonneg(s.drop_last());
    }
}

/// A longer digit run is worth at least as much as its prefix.
proof fn lemma_digits_monotone(s: Seq<char>, start: int, j: int, n: int)
    requires
        0 <= start <= j <= n <= s.len(),
        forall|k: int| start <= k < n ==> is_digit(s[k]),
    ensures
        digits_value(s.subrange(start, n)) >= digits_value(s.subrange(start, j)),
    decreases n - j,
{
    if j < n {
        lemma_digits_monotone(s, start, j + 1, n);
        let pre = s.subrange(start, j);
        let cur = s.subrange(start, j + 1);
        assert(cur.drop_last() =~= pre);
        assert(forall|k: int| 0 <= k < pre.len() ==> is_digit(pre[k]));
        lemma_digits_nonneg(pre);
        assert(digits_value(cur) == digits_value(pre) * 10 + (s[j] as u32 - 48));
        assert(digits_value(cur) >= digits_value(pre)) by (nonlinear_arith)
            requires
                digits_value(cur) == digits_value(pre) * 10 + (s[j] as u32 - 48),
                digits_value(pre) >= 0,
                s[j] as u32 >= 48,
        ;
    }
}

/// Leaf parse of the single token at the cursor.
pub fn to_ast_elem(reader: &mut Reader) -> (r: Option<AST>)
    requires
        old(reader).pos < old(reader).tokens@.len(),
        !is_opener(view_tokens(old(reader).tokens@)[old(reader).pos as int]),
        !is_quote_tok(view_tokens(old(reader).tokens@)[old(reader).pos as int]),
        !is_deref_tok(view_tokens(old(reader).tokens@)[old(reader).pos as int]),
        !is_meta_tok(view_tokens(old(reader).tokens@)[old(reader).pos as int]),
    ensures
        parse_post(r, *old(reader), *final(reader)),
    decreases old(reader).tokens@.len() - old(reader).pos, 0int,
{
    let ghost toks = view_tokens(old(reader).tokens@);
    proof {
        assert(toks[old(reader).pos as int] == view_token(
            old(reader).tokens@[old(reader).pos as int],
        ));
    }
    let is_empty_other = match &reader.tokens[reader.pos] {
        MalToken::NonSpecial(x) => x.as_str().unicode_len() == 0,
        _ => false,
    };
    if is_empty_other {
        reader.advance();
        return start_to_ast(reader);
    }
    let r = match &reader.tokens[reader.pos] {
        MalToken::SpecialTwo(x) => Some(AST::Atom(MalType::Symbol(x.clone(), None))),
        MalToken::SpecialOne(x) => Some(AST::Atom(MalType::Symbol(char_to_string(*x), None))),
        MalToken::StrLiteral(x) => {
            if open_equals_close(x.as_str()) {
                Some(AST::Atom(MalType::Str(x.clone())))
            } else {
                Some(AST::Atom(MalType::UnbalancedString(x.clone())))
            }
        },
        MalToken::CommentToken(x) => Some(AST::Atom(MalType::Comment(x.clone()))),
        MalToken::NonSpecial(x) => {
            match parse_i64(x.as_str()) {
                Option::Some(v) => Some(AST::Atom(MalType::Integer(v))),
                Option::None => {
                    if str_eq(x.as_str(), "quote") {
                        Some(AST::Atom(MalType::Quote))
                    } else if str_eq(x.as_str(), "quasiquote") {
                        Some(AST::Atom(MalType::QuasiQuote))
                    } else if str_eq(x.as_str(), "unquote") {
                        Some(AST::Atom(MalType::UnQuote))
                    } else if str_eq(x.as_str(), "splice-unquote") {
                        Some(AST::Atom(MalType::SpliceUnQuote))
                    } else {
                        Some(AST::Atom(MalType::Symbol(x.clone(), None)))
                    }
                },
            }
        },
    };
    reader.advance();
    r
}

/// Relies on `char::to_string`: the one-character string holding exactly
/// this character.
#[verifier::external_body]
fn char_to_string(c: char) -> (r: String)
    ensures
        r@ == seq![c],
{
    c.to_string()
}

} // verus!
