//! Properties of the parser, proved once and for all: determinism, absence
//! of the unbalanced-list sentinel on bracket-balanced input, and the exact
//! sentinel on input with surplus opening brackets.

use vstd::prelude::*;

use crate::types::Tok;
use crate::reader::classify_token;
use crate::reader::composite_of;
use crate::reader::is_closer;
use crate::reader::is_deref_tok;
use crate::reader::is_meta_tok;
use crate::reader::is_opener;
use crate::reader::is_quote_tok;
use crate::reader::spec_parse;
use crate::reader::spec_parse_list;
use crate::reader::spec_tokens;
use crate::reader::lemma_parse_advances;
use crate::types::Sx;
use crate::types::Val;

verus! {

/// Tokenizing is a pure function of the input text: the same text split
/// twice yields identical token sequences.
pub proof fn tokenize_deterministic(s1: Seq<char>, s2: Seq<char>)
    requires
        s1 == s2,
    ensures
        spec_tokens(s1, 0) == spec_tokens(s2, 0),
{
}

/// Parsing is a pure function of the token sequence and the start position:
/// the same tokens parsed twice from the same place yield structurally
/// identical trees and identical cursors.
pub proof fn parse_deterministic(t1: Seq<Tok>, p1: nat, t2: Seq<Tok>, p2: nat)
    requires
        t1 == t2,
        p1 == p2,
        p1 <= t1.len(),
    ensures
        spec_parse(t1, p1) == spec_parse(t2, p2),
{
}

// ---------------------------------------------------------------------------
// Bracket counting.
// ---------------------------------------------------------------------------

/// Opening brackets minus closing brackets among the tokens in `[a, b)`.
pub open spec fn net(toks: Seq<Tok>, a: int, b: int) -> int
    decreases b - a,
{
    if a >= b {
        0
    } else {
        net(toks, a, b - 1) + if is_opener(toks[b - 1]) {
            1
        } else if is_closer(toks[b - 1]) {
            -1
        } else {
            0
        }
    }
}

/// A token that is neither a quote, deref nor metadata shorthand.
pub open spec fn plain_tok(t: Tok) -> bool {
    !is_quote_tok(t) && !is_deref_tok(t) && !is_meta_tok(t)
}

pub open spec fn all_plain(toks: Seq<Tok>) -> bool {
    forall|k: int| 0 <= k < toks.len() ==> plain_tok(#[trigger] toks[k])
}

/// No empty "other" token: the padding the tokenizer appends at end of
/// input, which the parser filters by scanning on past it.
pub open spec fn no_empty_other(toks: Seq<Tok>) -> bool {
    forall|k: int| 0 <= k < toks.len() ==> (#[trigger] toks[k] matches Tok::OtherTok(s)
        ==> s.len() > 0)
}

/// With the padding excluded, every leaf token classifies to an atom.
proof fn lemma_classify_some(t: Tok)
    requires
        t matches Tok::OtherTok(s) ==> s.len() > 0,
    ensures
        classify_token(t) is Some,
{
}

/// No `UnbalancedListEnd` sentinel anywhere in the tree.
pub open spec fn no_unbal(t: Sx) -> bool
    decreases t, 1int,
{
    match t {
        Sx::Atom(v) => !(v matches Val::UnbalancedListEnd),
        Sx::List(s) => no_unbal_seq(s),
        Sx::Vector(s) => no_unbal_seq(s),
        Sx::HashMap(s) => no_unbal_seq(s),
    }
}

pub open spec fn no_unbal_seq(s: Seq<Sx>) -> bool
    decreases s, 0int,
{
    if s.len() == 0 {
        true
    } else {
        no_unbal(s[0]) && no_unbal_seq(s.drop_first())
    }
}

proof fn lemma_no_unbal_seq_push(s: Seq<Sx>, x: Sx)
    requires
        no_unbal_seq(s),
        no_unbal(x),
    ensures
        no_unbal_seq(s.push(x)),
    decreases s.len(),
{
    if s.len() == 0 {
        assert(s.push(x).drop_first() =~= Seq::<Sx>::empty());
        assert(s.push(x)[0] == x);
        assert(no_unbal_seq(Seq::<Sx>::empty()));
        assert(no_unbal(s.push(x)[0]) && no_unbal_seq(s.push(x).drop_first()));
    } else {
        assert(s.push(x).drop_first() =~= s.drop_first().push(x));
        assert(s.push(x)[0] == s[0]);
        lemma_no_unbal_seq_push(s.drop_first(), x);
    }
}

/// Counting is additive over adjacent ranges.
proof fn lemma_net_split(toks: Seq<Tok>, a: int, m: int, b: int)
    requires
        a <= m <= b,
    ensures
        net(toks, a, b) == net(toks, a, m) + net(toks, m, b),
    decreases b - m,
{
    if m < b {
        lemma_net_split(toks, a, m, b - 1);
    }
}

/// The first place, from `a` on, where the count from `pos` returns to zero.
proof fn least_zero(toks: Seq<Tok>, pos: int, a: int, e: int) -> (q: int)
    requires
        0 <= pos <= a <= e <= toks.len(),
        net(toks, pos, a) > 0,
        net(toks, pos, e) <= 0,
    ensures
        a <= q <= e,
        net(toks, pos, q) == 0,
        forall|r: int| a <= r < q ==> net(toks, pos, r) > 0,
    decreases e - a,
{
    assert(net(toks, pos, a) != net(toks, pos, e));
    assert(a < e);
    if net(toks, pos, a + 1) == 0 {
        a + 1
    } else {
        assert(net(toks, pos, a + 1) >= net(toks, pos, a) - 1);
        let q = least_zero(toks, pos, a + 1, e);
        q
    }
}

/// Leaf classification never yields the unbalanced-list sentinel.
proof fn lemma_classify_no_unbal(t: Tok)
    ensures
        match classify_token(t) {
            Option::Some(v) => !(v matches Val::UnbalancedListEnd),
            Option::None => true,
        },
{
}

/// A form that spans `[pos, e)` with strictly positive inner counts parses
/// without emitting an `UnbalancedListEnd` sentinel, and ends exactly at `e`.
proof fn lemma_span_no_unbal(toks: Seq<Tok>, pos: int, e: int)
    requires
        all_plain(toks),
        no_empty_other(toks),
        0 <= pos < e <= toks.len(),
        net(toks, pos, e) == 0,
        forall|q: int| pos < q < e ==> net(toks, pos, q) > 0,
        !is_closer(toks[pos]),
    ensures
        ({
            let (n, p2) = spec_parse(toks, pos as nat);
            &&& p2 == e
            &&& match n {
                Option::Some(x) => no_unbal(x),
                Option::None => true,
            }
        }),
    decreases toks.len() - pos, 0int,
{
    let t = toks[pos];
    assert(net(toks, pos, pos) == 0);
    assert(net(toks, pos, pos + 1) == if is_opener(t) {
        1int
    } else {
        0int
    });
    if is_opener(t) {
        assert forall|q: int| pos + 1 <= q < e implies #[trigger] net(toks, pos + 1, q) >= 0 by {
            lemma_net_split(toks, pos, pos + 1, q);
            if q > pos + 1 {
                assert(net(toks, pos, q) > 0);
            }
        }
        lemma_net_split(toks, pos, pos + 1, e);
        lemma_list_span_no_unbal(toks, pos + 1, e, Seq::empty());
    } else {
        // A plain leaf: exactly one token, so the span is one token wide.
        if e > pos + 1 {
            assert(net(toks, pos, pos + 1) > 0);
            assert(false);
        }
        lemma_classify_some(t);
        lemma_classify_no_unbal(t);
    }
}

/// The children of a composite whose closer stands at `e - 1` parse without
/// emitting a sentinel, and the composite ends exactly at `e`.
proof fn lemma_list_span_no_unbal(toks: Seq<Tok>, pos: int, e: int, acc: Seq<Sx>)
    requires
        all_plain(toks),
        no_empty_other(toks),
        0 <= pos < e <= toks.len(),
        net(toks, pos, e) == -1,
        forall|q: int| pos <= q < e ==> net(toks, pos, q) >= 0,
        no_unbal_seq(acc),
    ensures
        ({
            let (n, p2) = spec_parse_list(toks, pos as nat, acc);
            &&& p2 == e
            &&& match n {
                Option::Some(x) => no_unbal(x),
                Option::None => false,
            }
        }),
    decreases toks.len() - pos, 1int,
{
    let t = toks[pos];
    assert(net(toks, pos, pos) == 0);
    assert(net(toks, pos, pos + 1) == if is_opener(t) {
        1int
    } else if is_closer(t) {
        -1int
    } else {
        0int
    });
    if is_closer(t) {
        // This closer must be the one at e - 1.
        if pos + 1 < e {
            assert(net(toks, pos, pos + 1) >= 0);
            assert(false);
        }
        assert(pos + 1 == e);
        match t {
            Tok::One(c) => {
                assert(no_unbal(composite_of(c, acc)));
            },
            _ => {},
        }
    } else if is_opener(t) {
        // The nested form closes where the count from pos first returns to 0.
        assert(net(toks, pos, e) <= 0);
        let q = least_zero(toks, pos, pos + 1, e);
        assert(q < e) by {
            assert(net(toks, pos, e) == -1);
        }
        lemma_span_no_unbal(toks, pos, q);
        let (n, p2) = spec_parse(toks, pos as nat);
        assert(p2 == q);
        lemma_parse_advances(toks, pos as nat);
        let acc2 = match n {
            Option::Some(x) => acc.push(x),
            Option::None => acc,
        };
        assert(no_unbal_seq(acc2)) by {
            match n {
                Option::Some(x) => {
                    lemma_no_unbal_seq_push(acc, x);
                },
                Option::None => {},
            }
        }
        assert forall|r: int| q <= r < e implies net(toks, q, r) == net(toks, pos, r) by {
            lemma_net_split(toks, pos, q, r);
        }
        lemma_net_split(toks, pos, q, e);
        lemma_list_span_no_unbal(toks, q, e, acc2);
    } else {
        // A plain leaf: one token, no sentinel, carry on.
        lemma_span_no_unbal(toks, pos, pos + 1);
        let (n, p2) = spec_parse(toks, pos as nat);
        assert(p2 == pos + 1);
        let acc2 = match n {
            Option::Some(x) => acc.push(x),
            Option::None => acc,
        };
        assert(no_unbal_seq(acc2)) by {
            match n {
                Option::Some(x) => {
                    lemma_no_unbal_seq_push(acc, x);
                },
                Option::None => {},
            }
        }
        assert forall|r: int| pos + 1 <= r < e implies #[trigger] net(toks, pos + 1, r) >= 0 by {
            lemma_net_split(toks, pos, pos + 1, r);
        }
        lemma_net_split(toks, pos, pos + 1, e);
        if pos + 1 < e {
            lemma_list_span_no_unbal(toks, pos + 1, e, acc2);
        } else {
            assert(net(toks, pos, e) == 0);
            assert(false);
        }
    }
}

/// For bracket-balanced input without shorthand-marker tokens, the parser
/// never emits an `UnbalancedListEnd` sentinel.  Balanced means: no prefix
/// closes more brackets than it opened, and the whole sequence closes all of
/// them.  A dangling shorthand marker, such as a quote with nothing after
/// it, produces the sentinel even on bracket-balanced input, so marker
/// tokens are excluded here; so is the empty "other" padding, which stands
/// for no bracket at all.
pub proof fn balanced_parse_no_unbal(toks: Seq<Tok>)
    requires
        all_plain(toks),
        no_empty_other(toks),
        forall|q: int| 0 <= q <= toks.len() ==> net(toks, 0, q) >= 0,
        net(toks, 0, toks.len() as int) == 0,
    ensures
        match spec_parse(toks, 0).0 {
            Option::Some(x) => no_unbal(x),
            Option::None => true,
        },
{
    if toks.len() == 0 {
        return ;
    }
    let t = toks[0];
    assert(net(toks, 0, 0) == 0);
    assert(net(toks, 0, 1) == if is_opener(t) {
        1int
    } else if is_closer(t) {
        -1int
    } else {
        0int
    });
    assert(!is_closer(t));
    if is_opener(t) {
        let q = least_zero(toks, 0, 1, toks.len() as int);
        lemma_span_no_unbal(toks, 0, q);
    } else {
        lemma_span_no_unbal(toks, 0, 1);
    }
}

// ---------------------------------------------------------------------------
// Surplus opening brackets.
// ---------------------------------------------------------------------------

/// No child is itself a bare `UnbalancedListEnd` atom.
pub open spec fn no_bare_unbal(s: Seq<Sx>) -> bool {
    forall|k: int| 0 <= k < s.len() ==> !(#[trigger] s[k] matches Sx::Atom(
        Val::UnbalancedListEnd,
    ))
}

/// Children parsed in a context that never sees its closer: the list runs to
/// the end of input and appends exactly one sentinel.
proof fn lemma_list_overflow(toks: Seq<Tok>, pos: int, acc: Seq<Sx>)
    requires
        all_plain(toks),
        no_empty_other(toks),
        0 <= pos <= toks.len(),
        forall|q: int| pos <= q <= toks.len() ==> net(toks, pos, q) >= 0,
        no_bare_unbal(acc),
    ensures
        ({
            let (n, p2) = spec_parse_list(toks, pos as nat, acc);
            &&& p2 == toks.len()
            &&& match n {
                Option::Some(x) => match x {
                    Sx::List(ch) => ch.len() >= 1 && ch.last() == Sx::Atom(Val::UnbalancedListEnd)
                        && no_bare_unbal(ch.drop_last()),
                    _ => false,
                },
                Option::None => false,
            }
        }),
    decreases toks.len() - pos, 2int,
{
    let len = toks.len() as int;
    if pos == len {
        let ch = acc.push(Sx::Atom(Val::UnbalancedListEnd));
        assert(ch.drop_last() =~= acc);
        return ;
    }
    let t = toks[pos];
    assert(net(toks, pos, pos) == 0);
    assert(net(toks, pos, pos + 1) == if is_opener(t) {
        1int
    } else if is_closer(t) {
        -1int
    } else {
        0int
    });
    assert(!is_closer(t));
    if is_opener(t) {
        if exists|q: int| pos < q <= len && net(toks, pos, q) == 0 {
            // The nested form closes; the surplus lies further on.
            let q0 = choose|q0: int| pos < q0 <= len && net(toks, pos, q0) == 0;
            let q = least_zero(toks, pos, pos + 1, q0);
            lemma_span_no_unbal(toks, pos, q);
            let (n, p2) = spec_parse(toks, pos as nat);
            assert(p2 == q);
            lemma_parse_advances(toks, pos as nat);
            let acc2 = match n {
                Option::Some(x) => acc.push(x),
                Option::None => acc,
            };
            assert(no_bare_unbal(acc2)) by {
                match n {
                    Option::Some(x) => {
                        assert(no_unbal(x));
                        assert(forall|k: int| 0 <= k < acc.len() ==> acc2[k] == acc[k]);
                    },
                    Option::None => {},
                }
            }
            assert forall|r: int| q <= r <= len implies net(toks, q, r) >= 0 by {
                lemma_net_split(toks, pos, q, r);
            }
            lemma_list_overflow(toks, q, acc2);
        } else {
            // The nested form itself runs out of input; its sentinel is its
            // own, and this list appends one more at the very end.
            assert forall|r: int| pos + 1 <= r <= len implies #[trigger] net(toks, pos + 1, r)
                >= 0 by {
                lemma_net_split(toks, pos, pos + 1, r);
                assert(net(toks, pos, r) != 0);
            }
            lemma_list_overflow(toks, pos + 1, Seq::empty());
            let (n, p2) = spec_parse(toks, pos as nat);
            assert(p2 == len);
            let acc2 = match n {
                Option::Some(x) => acc.push(x),
                Option::None => acc,
            };
            assert(no_bare_unbal(acc2)) by {
                match n {
                    Option::Some(x) => {
                        assert(forall|k: int| 0 <= k < acc.len() ==> acc2[k] == acc[k]);
                    },
                    Option::None => {},
                }
            }
            lemma_list_overflow(toks, len, acc2);
        }
    } else {
        lemma_classify_some(t);
        lemma_classify_no_unbal(t);
        let (n, p2) = spec_parse(toks, pos as nat);
        assert(p2 == pos + 1);
        let acc2 = match n {
            Option::Some(x) => acc.push(x),
            Option::None => acc,
        };
        assert(no_bare_unbal(acc2)) by {
            match n {
                Option::Some(x) => {
                    assert(forall|k: int| 0 <= k < acc.len() ==> acc2[k] == acc[k]);
                },
                Option::None => {},
            }
        }
        assert forall|r: int| pos + 1 <= r <= len implies #[trigger] net(toks, pos + 1, r) >= 0
            by {
            lemma_net_split(toks, pos, pos + 1, r);
        }
        lemma_list_overflow(toks, pos + 1, acc2);
    }
}

/// For input that starts with an opening bracket, holds no shorthand-marker
/// tokens, and keeps strictly more opening than closing brackets in every
/// non-empty prefix, the top-level result is a list that runs to the end of
/// input and whose last child is exactly one `UnbalancedListEnd` sentinel:
/// the sentinel stands last, once, and nowhere else among the children.
pub proof fn surplus_open_parse_sentinel(toks: Seq<Tok>)
    requires
        all_plain(toks),
        no_empty_other(toks),
        toks.len() > 0,
        is_opener(toks[0]),
        forall|q: int| 0 < q <= toks.len() ==> net(toks, 0, q) > 0,
    ensures
        ({
            let (n, p2) = spec_parse(toks, 0);
            &&& p2 == toks.len()
            &&& match n {
                Option::Some(x) => match x {
                    Sx::List(ch) => ch.len() >= 1 && ch.last() == Sx::Atom(Val::UnbalancedListEnd)
                        && no_bare_unbal(ch.drop_last()),
                    _ => false,
                },
                Option::None => false,
            }
        }),
{
    let len = toks.len() as int;
    assert(net(toks, 0, 0) == 0);
    assert(net(toks, 0, 1) == 1);
    assert forall|r: int| 1 <= r <= len implies #[trigger] net(toks, 1, r) >= 0 by {
        lemma_net_split(toks, 0, 1, r);
        if r > 1 {
            assert(net(toks, 0, r) > 0);
        }
    }
    lemma_list_overflow(toks, 1, Seq::empty());
}

// ---------------------------------------------------------------------------
// `None` signals nothing but exhausted input.
// ---------------------------------------------------------------------------

/// A composite in progress always yields a node, however the input ends.
proof fn lemma_parse_list_some(toks: Seq<Tok>, pos: nat, acc: Seq<Sx>)
    requires
        pos <= toks.len(),
    ensures
        spec_parse_list(toks, pos, acc).0 is Some,
    decreases toks.len() - pos,
{
    if pos >= toks.len() {
    } else if is_closer(toks[pos as int]) {
    } else {
        lemma_parse_advances(toks, pos);
        let (n, p2) = spec_parse(toks, pos);
        let acc2 = match n {
            Option::Some(x) => acc.push(x),
            Option::None => acc,
        };
        lemma_parse_list_some(toks, p2, acc2);
    }
}

/// Nothing but empty "other" padding remains at or after `pos`.
pub open spec fn only_empty_others(toks: Seq<Tok>, pos: int) -> bool {
    forall|k: int| pos <= k < toks.len() ==> (#[trigger] toks[k] matches Tok::OtherTok(s)
        && s.len() == 0)
}

/// The parser returns no node exactly when nothing but empty "other"
/// padding remains at the cursor, end of input included.  A parse failure is
/// never signalled by `None`: it degrades to sentinel atoms inside a
/// returned tree.
pub proof fn parse_none_only_at_end(toks: Seq<Tok>, pos: nat)
    requires
        pos <= toks.len(),
    ensures
        (spec_parse(toks, pos).0 is None) <==> only_empty_others(toks, pos as int),
    decreases toks.len() - pos,
{
    if pos >= toks.len() {
        return ;
    }
    let t = toks[pos as int];
    if is_opener(t) {
        lemma_parse_list_some(toks, (pos + 1) as nat, Seq::empty());
        assert(!(t matches Tok::OtherTok(s) && s.len() == 0));
    } else if is_quote_tok(t) || is_deref_tok(t) || is_meta_tok(t) {
        assert(!(t matches Tok::OtherTok(s) && s.len() == 0));
    } else {
        match classify_token(t) {
            Option::Some(_) => {
                assert(!(t matches Tok::OtherTok(s) && s.len() == 0)) by {
                    match t {
                        Tok::OtherTok(s) => {
                            if s.len() == 0 {
                                assert(classify_token(t) is None);
                            }
                        },
                        _ => {},
                    }
                }
            },
            Option::None => {
                assert(t matches Tok::OtherTok(s) && s.len() == 0) by {
                    match t {
                        Tok::OtherTok(s) => {
                            if s.len() > 0 {
                                lemma_classify_some(t);
                            }
                        },
                        _ => {
                            lemma_classify_some(t);
                        },
                    }
                }
                parse_none_only_at_end(toks, (pos + 1) as nat);
                assert(only_empty_others(toks, pos as int) <==> (t matches Tok::OtherTok(s)
                    && s.len() == 0) && only_empty_others(toks, pos as int + 1));
            },
        }
    }
}

} // verus!
