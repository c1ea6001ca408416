//! The round trip: a tree of integer, symbol and string atoms and lists,
//! whose atom texts are well formed for printing, renders to text that
//! tokenizes and parses back to the identical tree.

use vstd::prelude::*;

use crate::eval::lemma_sxs_height;
use crate::eval::sx_height;
use crate::eval::sxs_height;
use crate::printer::digit_char;
use crate::printer::digits_text;
use crate::printer::int_text;
use crate::printer::lemma_sxs_height_drop;
use crate::printer::print_children;
use crate::printer::print_tree;
use crate::reader::all_digits;
use crate::reader::classify_other;
use crate::reader::classify_token;
use crate::reader::digits_value;
use crate::reader::fits_i64;
use crate::reader::is_digit;
use crate::reader::is_numeric;
use crate::reader::is_opener;
use crate::reader::is_other_char;
use crate::reader::is_quote_tok;
use crate::reader::is_sep;
use crate::reader::is_special;
use crate::reader::lex_one;
use crate::reader::numeral_value;
use crate::reader::other_end;
use crate::reader::spec_open_equals_close;
use crate::reader::spec_parse;
use crate::reader::spec_parse_list;
use crate::reader::spec_tokens;
use crate::reader::str_end;
use crate::types::Sx;
use crate::types::Tok;
use crate::types::Val;

verus! {

// ---------------------------------------------------------------------------
// What it takes for an atom's text to survive the trip.
// ---------------------------------------------------------------------------

/// Symbol text that lexes back as one "other" token and classifies back as
/// the same symbol: non-empty, made of "other" characters, not opening with
/// punctuation, and not reading as a number or as a marker name.
pub open spec fn wf_sym_text(s: Seq<char>) -> bool {
    &&& s.len() > 0
    &&& forall|k: int| 0 <= k < s.len() ==> is_other_char(#[trigger] s[k])
    &&& !is_special(s[0])
    &&& classify_other(s) == Option::Some(Val::Sym(s, Option::<crate::types::Builtin>::None))
}

/// The string-literal scan from content position `j` ends exactly at the
/// final character, which is an unescaped closing quote.
pub open spec fn scan_closes(s: Seq<char>, j: int) -> bool
    decreases s.len() - j,
    when 0 <= j <= s.len()
{
    if j >= s.len() {
        false
    } else if s[j] == '"' {
        j == s.len() - 1
    } else if s[j] == '\\' {
        if j + 1 < s.len() {
            scan_closes(s, j + 2)
        } else {
            false
        }
    } else {
        scan_closes(s, j + 1)
    }
}

/// String-literal text that lexes back as one string token: quoted at both
/// ends, properly escaped inside.
pub open spec fn wf_str_text(s: Seq<char>) -> bool {
    s.len() >= 2 && s[0] == '"' && scan_closes(s, 1)
}

pub open spec fn wf_atom(v: Val) -> bool {
    match v {
        Val::Int(i) => fits_i64(i),
        Val::Sym(s, f) => f is None && wf_sym_text(s),
        Val::Str(s) => wf_str_text(s),
        _ => false,
    }
}

/// A tree built only from integer, symbol and string atoms and lists, whose
/// atom texts are well formed for printing.
pub open spec fn wf_tree(t: Sx) -> bool
    decreases t, 1int,
{
    match t {
        Sx::Atom(v) => wf_atom(v),
        Sx::List(s) => wf_trees(s),
        _ => false,
    }
}

pub open spec fn wf_trees(s: Seq<Sx>) -> bool
    decreases s, 0int,
{
    if s.len() == 0 {
        true
    } else {
        wf_tree(s[0]) && wf_trees(s.drop_first())
    }
}

// ---------------------------------------------------------------------------
// The token sequence a well-formed tree prints to.
// ---------------------------------------------------------------------------

pub open spec fn atom_tok(v: Val) -> Tok {
    match v {
        Val::Int(i) => Tok::OtherTok(int_text(i)),
        Val::Sym(s, _) => Tok::OtherTok(s),
        Val::Str(s) => Tok::StrTok(s),
        _ => Tok::OtherTok(Seq::empty()),
    }
}

pub open spec fn toks_of(t: Sx) -> Seq<Tok>
    decreases sx_height(t), 0int, 0int,
    via toks_of_dec
{
    match t {
        Sx::Atom(v) => seq![atom_tok(v)],
        Sx::List(s) => seq![Tok::One('(')] + toks_of_seq(s) + seq![Tok::One(')')],
        Sx::Vector(s) => seq![Tok::One('[')] + toks_of_seq(s) + seq![Tok::One(']')],
        Sx::HashMap(s) => seq![Tok::One('{')] + toks_of_seq(s) + seq![Tok::One('}')],
    }
}

pub open spec fn toks_of_seq(s: Seq<Sx>) -> Seq<Tok>
    decreases sxs_height(s), 1int, s.len(),
    via toks_of_seq_dec
{
    if s.len() == 0 {
        Seq::empty()
    } else {
        toks_of(s[0]) + toks_of_seq(s.drop_first())
    }
}

#[via_fn]
proof fn toks_of_dec(t: Sx) {
}

#[via_fn]
proof fn toks_of_seq_dec(s: Seq<Sx>) {
    if s.len() > 0 {
        lemma_sxs_height(s, 0);
        lemma_sxs_height_drop(s);
    }
}

// ---------------------------------------------------------------------------
// Numerals survive the trip.
// ---------------------------------------------------------------------------

proof fn lemma_digit_char(d: int)
    requires
        0 <= d <= 9,
    ensures
        is_digit(digit_char(d)),
        digit_char(d) as u32 == 48 + d,
        is_other_char(digit_char(d)),
        !is_special(digit_char(d)),
        digit_char(d) != '-',
        digit_char(d) != '"',
        digit_char(d) != ';',
        digit_char(d) != '~',
{
}

proof fn lemma_digits_text(n: int)
    requires
        n >= 0,
    ensures
        digits_text(n).len() >= 1,
        all_digits(digits_text(n)),
        digits_value(digits_text(n)) == n,
        forall|k: int| 0 <= k < digits_text(n).len() ==> is_other_char(
            #[trigger] digits_text(n)[k],
        ),
        forall|k: int| 0 <= k < digits_text(n).len() ==> #[trigger] digits_text(n)[k] != '-',
        !is_special(digits_text(n)[0]),
    decreases n,
{
    if n <= 9 {
        lemma_digit_char(n);
        assert(digits_text(n) =~= seq![digit_char(n)]);
        assert(digits_text(n).drop_last() =~= Seq::<char>::empty());
        assert(digits_value(digits_text(n)) == digits_value(Seq::<char>::empty()) * 10 + (
        digit_char(n) as u32 - 48));
    } else {
        lemma_digits_text(n / 10);
        lemma_digit_char(n % 10);
        let pre = digits_text(n / 10);
        let whole = pre.push(digit_char(n % 10));
        assert(digits_text(n) == whole);
        assert(whole.drop_last() =~= pre);
        assert(whole.last() == digit_char(n % 10));
        assert(digits_value(whole) == digits_value(pre) * 10 + (n % 10));
        assert(n / 10 * 10 + n % 10 == n);
        assert(forall|k: int| 0 <= k < pre.len() ==> whole[k] == pre[k]);
        assert(whole[0] == pre[0]);
    }
}

/// The printed text of a machine integer reads back as that integer.
proof fn lemma_int_text(i: int)
    requires
        fits_i64(i),
    ensures
        int_text(i).len() >= 1,
        classify_other(int_text(i)) == Option::Some(Val::Int(i)),
        forall|k: int| 0 <= k < int_text(i).len() ==> is_other_char(#[trigger] int_text(i)[k]),
        !is_special(int_text(i)[0]),
        int_text(i)[0] != '"',
        int_text(i)[0] != ';',
        int_text(i)[0] != '~',
{
    if i >= 0 {
        lemma_digits_text(i);
        assert(int_text(i) == digits_text(i));
        assert(int_text(i)[0] != '-');
        assert(is_numeric(int_text(i)));
        assert(numeral_value(int_text(i)) == i);
        assert(is_digit(int_text(i)[0]));
        lemma_digit_char((int_text(i)[0] as u32 - 48) as int);
    } else {
        lemma_digits_text(-i);
        let s = seq!['-'] + digits_text(-i);
        assert(int_text(i) == s);
        assert(s[0] == '-');
        assert(s.len() > 1);
        assert(s.subrange(1, s.len() as int) =~= digits_text(-i));
        assert(is_numeric(s));
        assert(numeral_value(s) == -digits_value(digits_text(-i)));
        assert(numeral_value(s) == i);
        assert(forall|k: int| 1 <= k < s.len() ==> s[k] == digits_text(-i)[k - 1]);
    }
}

// ---------------------------------------------------------------------------
// One token's text lexes locally, wherever it stands.
// ---------------------------------------------------------------------------

/// A run of "other" characters bounded by a non-"other" character or the end
/// lexes to exactly that run.
proof fn lemma_other_end_local(w: Seq<char>, i: int, ln: int)
    requires
        0 <= i, 0 <= ln, i + ln <= w.len(),
        forall|k: int| i <= k < i + ln ==> is_other_char(#[trigger] w[k]),
        i + ln == w.len() || !is_other_char(w[i + ln]),
    ensures
        other_end(w, i as nat) == i + ln,
    decreases ln,
{
    if ln == 0 {
    } else {
        lemma_other_end_local(w, i + 1, ln - 1);
    }
}

/// A properly closed string literal lexes to exactly its own text, wherever
/// it stands in the line.
proof fn lemma_str_end_local(w: Seq<char>, p: int, s: Seq<char>, j: int)
    requires
        0 <= p, p + s.len() <= w.len(),
        forall|k: int| 0 <= k < s.len() ==> #[trigger] w[p + k] == s[k],
        1 <= j <= s.len(),
        scan_closes(s, j),
    ensures
        str_end(w, (p + j) as nat) == p + s.len(),
    decreases s.len() - j,
{
    assert(w[p + j] == s[j]);
    if s[j] == '"' {
        assert(j == s.len() - 1);
    } else if s[j] == '\\' {
        assert(j + 1 < s.len());
        assert(p + j + 1 < w.len());
        lemma_str_end_local(w, p, s, j + 2);
    } else {
        lemma_str_end_local(w, p, s, j + 1);
    }
}

/// A closed scan ends on the final quote.
proof fn lemma_scan_closes_last(s: Seq<char>, j: int)
    requires
        0 <= j <= s.len(),
        scan_closes(s, j),
    ensures
        s[s.len() - 1] == '"',
    decreases s.len() - j,
{
    if s[j] == '"' {
    } else if s[j] == '\\' {
        lemma_scan_closes_last(s, j + 2);
    } else {
        lemma_scan_closes_last(s, j + 1);
    }
}

// ---------------------------------------------------------------------------
// Tokenizing the printed text, compositionally.
// ---------------------------------------------------------------------------

/// The character after a printed piece, as the tokenizer may meet it: the
/// end of the line, a separator, or the closing bracket of the enclosing
/// list.
pub open spec fn boundary(w: Seq<char>, p: int) -> bool {
    p == w.len() || is_sep(w[p]) || w[p] == ')'
}

/// The printed text of a well-formed tree, standing at `i` with a proper
/// boundary after it, tokenizes to exactly its token sequence.
proof fn lemma_tok_tree(w: Seq<char>, i: int, t: Sx)
    requires
        wf_tree(t),
        0 <= i,
        i + print_tree(t).len() <= w.len(),
        forall|k: int| 0 <= k < print_tree(t).len() ==> #[trigger] w[i + k] == print_tree(t)[k],
        boundary(w, i + print_tree(t).len()),
    ensures
        spec_tokens(w, i as nat) == toks_of(t) + spec_tokens(w, (i + print_tree(t).len()) as nat),
    decreases sx_height(t), 0int, 0int,
{
    let p = print_tree(t);
    match t {
        Sx::Atom(v) => {
            match v {
                Val::Int(n) => {
                    lemma_int_text(n);
                    lemma_atom_other(w, i, int_text(n));
                },
                Val::Sym(s, _) => {
                    lemma_atom_other(w, i, s);
                },
                Val::Str(s) => {
                    assert(w[i + 0] == s[0]);
                    assert(!is_sep('"') && !is_special('"'));
                    assert(w[i] == '"');
                    lemma_str_end_local(w, i, s, 1);
                    assert(lex_one(w, i as nat).1 == i + s.len());
                    assert(lex_one(w, i as nat).0 == Tok::StrTok(
                        w.subrange(i, i + s.len() as int),
                    ));
                    assert forall|k: int| 0 <= k < s.len() implies w.subrange(
                        i,
                        i + s.len() as int,
                    )[k] == s[k] by {
                        assert(w[i + k] == s[k]);
                    }
                    assert(w.subrange(i, i + s.len() as int) =~= s);
                    assert(spec_tokens(w, i as nat) == seq![Tok::StrTok(s)] + spec_tokens(
                        w,
                        (i + s.len()) as nat,
                    ));
                    assert(seq![Tok::StrTok(s)] =~= toks_of(t));
                },
                _ => {},
            }
        },
        Sx::List(s) => {
            let pc = print_children(s);
            assert(p == seq!['('] + pc + seq![')']);
            assert(w[i + 0] == '(');
            assert(is_special('(') && !is_sep('('));
            assert(!(w[i] == '~' && i + 1 < w.len() && w[i + 1 as int] == '@')) by {
                assert(w[i] == '(');
            }
            assert(lex_one(w, i as nat) == (Tok::One('('), (i + 1) as nat));
            assert(forall|k: int| 0 <= k < pc.len() ==> #[trigger] w[i + 1 + k] == pc[k]) by {
                assert forall|k: int| 0 <= k < pc.len() implies #[trigger] w[i + 1 + k] == pc[k] by {
                    assert(p[1 + k] == pc[k]);
                    assert(w[i + (1 + k)] == p[1 + k]);
                }
            }
            assert(w[i + 1 + pc.len()] == ')') by {
                assert(p[1 + pc.len() as int] == ')');
                assert(w[i + (1 + pc.len() as int)] == p[1 + pc.len() as int]);
            }
            lemma_tok_children(w, i + 1, s);
            // The closing bracket.
            let c = i + 1 + pc.len() as int;
            assert(is_special(')') && !is_sep(')'));
            assert(lex_one(w, c as nat) == (Tok::One(')'), (c + 1) as nat));
            assert(spec_tokens(w, c as nat) == seq![Tok::One(')')] + spec_tokens(
                w,
                (c + 1) as nat,
            ));
            assert(spec_tokens(w, i as nat) == seq![Tok::One('(')] + spec_tokens(
                w,
                (i + 1) as nat,
            ));
            assert(spec_tokens(w, i as nat) =~= toks_of(t) + spec_tokens(
                w,
                (i + p.len()) as nat,
            ));
        },
        _ => {},
    }
}

/// One "other" atom text tokenizes to one token.
proof fn lemma_atom_other(w: Seq<char>, i: int, s: Seq<char>)
    requires
        0 <= i,
        s.len() >= 1,
        i + s.len() <= w.len(),
        forall|k: int| 0 <= k < s.len() ==> #[trigger] w[i + k] == s[k],
        forall|k: int| 0 <= k < s.len() ==> is_other_char(#[trigger] s[k]),
        !is_special(s[0]),
        boundary(w, i + s.len()),
    ensures
        spec_tokens(w, i as nat) == seq![Tok::OtherTok(s)] + spec_tokens(w, (i + s.len()) as nat),
{
    assert(w[i + 0] == s[0]);
    assert(!is_sep(s[0]));
    assert(s[0] != '"' && s[0] != ';') by {
        assert(is_other_char(s[0]));
    }
    assert(s[0] != '~') by {
        assert(!is_special(s[0]));
    }
    assert(forall|k: int| i <= k < i + s.len() ==> is_other_char(#[trigger] w[k])) by {
        assert forall|k: int| i <= k < i + s.len() implies is_other_char(#[trigger] w[k]) by {
            assert(w[i + (k - i)] == s[k - i]);
        }
    }
    assert(i + s.len() == w.len() || !is_other_char(w[i + s.len()])) by {
        if i + s.len() < w.len() {
            assert(is_sep(w[i + s.len()]) || w[i + s.len()] == ')');
        }
    }
    lemma_other_end_local(w, i, s.len() as int);
    assert(lex_one(w, i as nat).0 == Tok::OtherTok(w.subrange(i, i + s.len() as int)));
    assert forall|k: int| 0 <= k < s.len() implies w.subrange(i, i + s.len() as int)[k] == s[k] by {
        assert(w[i + k] == s[k]);
    }
    assert(w.subrange(i, i + s.len() as int) =~= s);
}

/// The printed children of a list, standing at `i` with the closing bracket
/// right after them, tokenize to exactly their token sequences.
proof fn lemma_tok_children(w: Seq<char>, i: int, s: Seq<Sx>)
    requires
        wf_trees(s),
        0 <= i,
        i + print_children(s).len() <= w.len(),
        forall|k: int| 0 <= k < print_children(s).len() ==> #[trigger] w[i + k] == print_children(
            s,
        )[k],
        i + print_children(s).len() < w.len(),
        w[i + print_children(s).len()] == ')',
    ensures
        spec_tokens(w, i as nat) == toks_of_seq(s) + spec_tokens(
            w,
            (i + print_children(s).len()) as nat,
        ),
    decreases sxs_height(s), 1int, s.len(),
{
    let pc = print_children(s);
    if s.len() == 0 {
        assert(toks_of_seq(s) + spec_tokens(w, i as nat) =~= spec_tokens(w, i as nat));
    } else if s.len() == 1 {
        assert(pc == print_tree(s[0]));
        lemma_sxs_height(s, 0);
        lemma_tok_tree(w, i, s[0]);
        assert(toks_of_seq(s) =~= toks_of(s[0]) + toks_of_seq(s.drop_first()));
        assert(toks_of_seq(s.drop_first()) =~= Seq::<Tok>::empty());
        assert(toks_of(s[0]) + Seq::<Tok>::empty() =~= toks_of(s[0]));
        assert(toks_of_seq(s) =~= toks_of(s[0]));
    } else {
        let p0 = print_tree(s[0]);
        assert(pc == p0 + seq![' '] + print_children(s.drop_first()));
        assert(forall|k: int| 0 <= k < p0.len() ==> #[trigger] w[i + k] == p0[k]) by {
            assert forall|k: int| 0 <= k < p0.len() implies #[trigger] w[i + k] == p0[k] by {
                assert(pc[k] == p0[k]);
            }
        }
        assert(w[i + p0.len()] == ' ') by {
            assert(pc[p0.len() as int] == ' ');
        }
        assert(is_sep(' '));
        lemma_sxs_height(s, 0);
        lemma_tok_tree(w, i, s[0]);
        // Skip the separating space.
        assert(spec_tokens(w, (i + p0.len()) as nat) == spec_tokens(
            w,
            (i + p0.len() + 1) as nat,
        ));
        let rest = s.drop_first();
        let i2 = i + p0.len() + 1;
        assert(forall|k: int| 0 <= k < print_children(rest).len() ==> #[trigger] w[i2 + k]
            == print_children(rest)[k]) by {
            assert forall|k: int|
                0 <= k < print_children(rest).len() implies #[trigger] w[i2 + k]
                == print_children(rest)[k] by {
                assert(pc[p0.len() + 1 + k] == print_children(rest)[k]);
                assert(w[i + (p0.len() + 1 + k)] == pc[p0.len() + 1 + k]);
            }
        }
        lemma_sxs_height_drop(s);
        lemma_tok_children(w, i2, rest);
        assert(toks_of(s[0]) + (toks_of_seq(rest) + spec_tokens(
            w,
            (i + pc.len()) as nat,
        )) =~= (toks_of(s[0]) + toks_of_seq(rest)) + spec_tokens(w, (i + pc.len()) as nat));
    }
}

// ---------------------------------------------------------------------------
// Parsing the token sequence back.
// ---------------------------------------------------------------------------

proof fn lemma_toks_of_len(t: Sx)
    requires
        wf_tree(t),
    ensures
        toks_of(t).len() >= 1,
{
}

/// The token sequence of a well-formed tree parses back to exactly that
/// tree, consuming exactly its own tokens.
proof fn lemma_parse_tree(toks: Seq<Tok>, p: int, t: Sx)
    requires
        wf_tree(t),
        0 <= p,
        p + toks_of(t).len() <= toks.len(),
        forall|k: int| 0 <= k < toks_of(t).len() ==> #[trigger] toks[p + k] == toks_of(t)[k],
    ensures
        spec_parse(toks, p as nat) == (Option::Some(t), (p + toks_of(t).len()) as nat),
    decreases sx_height(t), 0int, 0int,
{
    match t {
        Sx::Atom(v) => {
            assert(toks[p + 0] == atom_tok(v));
            match v {
                Val::Int(n) => {
                    lemma_int_text(n);
                    assert(int_text(n).len() > 0);
                    assert(classify_token(atom_tok(v)) == Option::Some(Val::Int(n)));
                },
                Val::Sym(s, _) => {
                    assert(classify_token(atom_tok(v)) == Option::Some(
                        Val::Sym(s, Option::None),
                    ));
                },
                Val::Str(s) => {
                    lemma_scan_closes_last(s, 1);
                    assert(spec_open_equals_close(s));
                    assert(classify_token(atom_tok(v)) == Option::Some(Val::Str(s)));
                },
                _ => {},
            }
        },
        Sx::List(s) => {
            assert(toks[p + 0] == Tok::One('('));
            assert(is_opener(Tok::One('(')));
            let inner = toks_of_seq(s);
            assert(forall|k: int| 0 <= k < inner.len() ==> #[trigger] toks[p + 1 + k]
                == inner[k]) by {
                assert forall|k: int| 0 <= k < inner.len() implies #[trigger] toks[p + 1 + k]
                    == inner[k] by {
                    assert(toks_of(t)[1 + k] == inner[k]);
                    assert(toks[p + (1 + k)] == toks_of(t)[1 + k]);
                }
            }
            assert(toks[p + 1 + inner.len()] == Tok::One(')')) by {
                assert(toks_of(t)[1 + inner.len() as int] == Tok::One(')'));
                assert(toks[p + (1 + inner.len() as int)] == toks_of(t)[1 + inner.len() as int]);
            }
            lemma_parse_children(toks, p + 1, s, Seq::empty());
            assert(Seq::<Sx>::empty() + s =~= s);
        },
        _ => {},
    }
}

/// Children tokens followed by the closing bracket: the list parse collects
/// exactly these children and ends just past the bracket.
proof fn lemma_parse_children(toks: Seq<Tok>, p: int, s: Seq<Sx>, acc: Seq<Sx>)
    requires
        wf_trees(s),
        0 <= p,
        p + toks_of_seq(s).len() < toks.len(),
        forall|k: int| 0 <= k < toks_of_seq(s).len() ==> #[trigger] toks[p + k] == toks_of_seq(
            s,
        )[k],
        toks[p + toks_of_seq(s).len()] == Tok::One(')'),
    ensures
        spec_parse_list(toks, p as nat, acc) == (
            Option::Some(Sx::List(acc + s)),
            (p + toks_of_seq(s).len() + 1) as nat,
        ),
    decreases sxs_height(s), 1int, s.len(),
{
    if s.len() == 0 {
        assert(toks[p + 0] == Tok::One(')'));
        assert(acc + s =~= acc);
    } else {
        let t0 = toks_of(s[0]);
        lemma_sxs_height(s, 0);
        assert(forall|k: int| 0 <= k < t0.len() ==> #[trigger] toks[p + k] == t0[k]) by {
            assert forall|k: int| 0 <= k < t0.len() implies #[trigger] toks[p + k] == t0[k] by {
                assert(toks_of_seq(s)[k] == t0[k]);
            }
        }
        lemma_parse_tree(toks, p, s[0]);
        // The head of a child's tokens is never a closing bracket, so the
        // list keeps collecting.
        assert(toks[p + 0] == t0[0]);
        assert(!crate::reader::is_closer(t0[0]) && !is_quote_tok(t0[0])
            && !crate::reader::is_deref_tok(t0[0]) && !crate::reader::is_meta_tok(t0[0])) by {
            match s[0] {
                Sx::Atom(v) => {},
                Sx::List(_) => {},
                _ => {},
            }
        }
        let p2 = p + t0.len();
        let rest = s.drop_first();
        lemma_sxs_height_drop(s);
        assert(forall|k: int| 0 <= k < toks_of_seq(rest).len() ==> #[trigger] toks[p2 + k]
            == toks_of_seq(rest)[k]) by {
            assert forall|k: int|
                0 <= k < toks_of_seq(rest).len() implies #[trigger] toks[p2 + k] == toks_of_seq(
                rest,
            )[k] by {
                assert(toks_of_seq(s)[t0.len() + k] == toks_of_seq(rest)[k]);
                assert(toks[p + (t0.len() + k)] == toks_of_seq(s)[t0.len() + k]);
            }
        }
        assert(toks[p2 + toks_of_seq(rest).len()] == Tok::One(')')) by {
            assert(p2 + toks_of_seq(rest).len() == p + toks_of_seq(s).len());
        }
        lemma_parse_children(toks, p2, rest, acc.push(s[0]));
        assert(acc.push(s[0]) + rest =~= acc + s);
    }
}

// ---------------------------------------------------------------------------
// The round trip itself.
// ---------------------------------------------------------------------------

/// Round trip: for a tree built only from integer, symbol and string atoms
/// and lists, whose atom texts are well formed for printing, rendering the
/// tree and then tokenizing and parsing the text yields the identical tree,
/// whitespace notwithstanding.
pub proof fn print_parse_round_trip(t: Sx)
    requires
        wf_tree(t),
    ensures
        ({
            let toks = spec_tokens(print_tree(t), 0);
            spec_parse(toks, 0).0 == Option::Some(t)
        }),
{
    let w = print_tree(t);
    assert(forall|k: int| 0 <= k < w.len() ==> #[trigger] w[0 + k] == w[k]);
    lemma_tok_tree(w, 0, t);
    let toks = spec_tokens(w, 0);
    assert(spec_tokens(w, w.len()) == seq![Tok::OtherTok(Seq::empty())]);
    assert(toks == toks_of(t) + seq![Tok::OtherTok(Seq::empty())]);
    assert(forall|k: int| 0 <= k < toks_of(t).len() ==> #[trigger] toks[0 + k] == toks_of(t)[k]);
    lemma_toks_of_len(t);
    lemma_parse_tree(toks, 0, t);
}

} // verus!
