//! Rendering a syntax tree back to canonical text.  Composites are
//! bracketed, space-joined sequences; comments render as nothing; the
//! quote-family markers render as their canonical names; sentinels render as
//! fixed diagnostic text.

use vstd::prelude::*;

use crate::types::AST;
use crate::types::Builtin;
use crate::types::MalType;
use crate::types::Sx;
use crate::types::Val;
use crate::types::view_ast;
use crate::types::view_asts;
use crate::types::view_val;
use crate::types::lemma_view_asts_index;
use crate::eval::sx_height;
use crate::eval::sxs_height;
use crate::eval::lemma_sxs_height;

verus! {

pub open spec fn digit_char(d: int) -> char {
    if d == 0 {
        '0'
    } else if d == 1 {
        '1'
    } else if d == 2 {
        '2'
    } else if d == 3 {
        '3'
    } else if d == 4 {
        '4'
    } else if d == 5 {
        '5'
    } else if d == 6 {
        '6'
    } else if d == 7 {
        '7'
    } else if d == 8 {
        '8'
    } else {
        '9'
    }
}

/// Decimal digits of a non-negative value, most significant first.
pub open spec fn digits_text(n: int) -> Seq<char>
    decreases n,
{
    if n <= 9 {
        seq![digit_char(n)]
    } else {
        digits_text(n / 10).push(digit_char(n % 10))
    }
}

/// Decimal notation of an integer.
pub open spec fn int_text(i: int) -> Seq<char> {
    if i < 0 {
        seq!['-'] + digits_text(-i)
    } else {
        digits_text(i)
    }
}

pub open spec fn op_name(f: Builtin) -> Seq<char> {
    match f {
        Builtin::Add => "+"@,
        Builtin::Subtract => "-"@,
        Builtin::Multiply => "*"@,
        Builtin::Divide => "/"@,
    }
}

/// Canonical text of one atom.
pub open spec fn print_val(v: Val) -> Seq<char> {
    match v {
        Val::Int(i) => int_text(i),
        Val::Sym(s, _) => s,
        Val::Str(s) => s,
        Val::Quote => "quote"@,
        Val::QuasiQuote => "quasiquote"@,
        Val::UnQuote => "unquote"@,
        Val::SpliceUnQuote => "splice-unquote"@,
        Val::Deref(s) => "(deref "@ + s + ")"@,
        Val::Meta => "with-meta"@,
        Val::Comment(_) => Seq::empty(),
        Val::Func(f) => op_name(f),
        Val::UnbalancedListEnd => "unbalanced list"@,
        Val::UnbalancedString(_) => "unbalanced string"@,
        Val::IncompleteDeref => "incomplete deref"@,
    }
}

/// Canonical text of one tree.
pub open spec fn print_tree(t: Sx) -> Seq<char>
    decreases sx_height(t), 0int, 0int,
    via print_tree_dec
{
    match t {
        Sx::Atom(v) => print_val(v),
        Sx::List(s) => seq!['('] + print_children(s) + seq![')'],
        Sx::Vector(s) => seq!['['] + print_children(s) + seq![']'],
        Sx::HashMap(s) => seq!['{'] + print_children(s) + seq!['}'],
    }
}

/// Space-joined children.
pub open spec fn print_children(s: Seq<Sx>) -> Seq<char>
    decreases sxs_height(s), 1int, s.len(),
    via print_children_dec
{
    if s.len() == 0 {
        Seq::empty()
    } else if s.len() == 1 {
        print_tree(s[0])
    } else {
        print_tree(s[0]) + seq![' '] + print_children(s.drop_first())
    }
}

#[via_fn]
proof fn print_tree_dec(t: Sx) {
}

#[via_fn]
proof fn print_children_dec(s: Seq<Sx>) {
    if s.len() > 0 {
        lemma_sxs_height(s, 0);
        if s.len() > 1 {
            lemma_sxs_height_drop(s);
        }
    }
}

/// The tail of a child sequence never stands taller than the whole.
pub proof fn lemma_sxs_height_drop(s: Seq<Sx>)
    requires
        s.len() > 0,
    ensures
        sxs_height(s.drop_first()) <= sxs_height(s),
{
}

/// Appending one more child to a non-empty sequence appends a space and its
/// text.
pub proof fn lemma_print_children_snoc(u: Seq<Sx>, x: Sx)
    requires
        u.len() >= 1,
    ensures
        print_children(u.push(x)) == print_children(u) + seq![' '] + print_tree(x),
    decreases u.len(),
{
    if u.len() == 1 {
        assert(u.push(x).drop_first() =~= seq![x]);
        assert(print_children(seq![x]) == print_tree(x));
        assert(u.push(x)[0] == u[0]);
        assert(print_children(u.push(x)) == print_tree(u[0]) + seq![' '] + print_tree(x));
    } else {
        assert(u.push(x).drop_first() =~= u.drop_first().push(x));
        lemma_print_children_snoc(u.drop_first(), x);
        assert(u.push(x)[0] == u[0]);
        assert(print_children(u.push(x)) == print_tree(u[0]) + seq![' '] + (print_children(
            u.drop_first(),
        ) + seq![' '] + print_tree(x)));
        assert(print_tree(u[0]) + seq![' '] + (print_children(u.drop_first()) + seq![' ']
            + print_tree(x)) =~= (print_tree(u[0]) + seq![' '] + print_children(u.drop_first()))
            + seq![' '] + print_tree(x));
    }
}

fn digit_str(d: u64) -> (r: &'static str)
    requires
        d <= 9,
    ensures
        r@ == seq![digit_char(d as int)],
{
    proof {
        reveal_strlit("0");
        reveal_strlit("1");
        reveal_strlit("2");
        reveal_strlit("3");
        reveal_strlit("4");
        reveal_strlit("5");
        reveal_strlit("6");
        reveal_strlit("7");
        reveal_strlit("8");
        reveal_strlit("9");
    }
    if d == 0 {
        "0"
    } else if d == 1 {
        "1"
    } else if d == 2 {
        "2"
    } else if d == 3 {
        "3"
    } else if d == 4 {
        "4"
    } else if d == 5 {
        "5"
    } else if d == 6 {
        "6"
    } else if d == 7 {
        "7"
    } else if d == 8 {
        "8"
    } else {
        "9"
    }
}

fn print_u64(n: u64) -> (r: String)
    ensures
        r@ == digits_text(n as int),
    decreases n,
{
    if n <= 9 {
        digit_str(n).to_owned()
    } else {
        let mut s = print_u64(n / 10);
        s.append(digit_str(n % 10));
        s
    }
}

fn print_i64(v: i64) -> (r: String)
    ensures
        r@ == int_text(v as int),
{
    if v >= 0 {
        print_u64(v as u64)
    } else {
        let mag: u64 = ((-(v + 1)) as u64) + 1;
        proof {
            assert(mag as int == -(v as int));
        }
        let mut s = String::from_str("-");
        proof {
            reveal_strlit("-");
            assert("-"@ =~= seq!['-']);
        }
        s.append(print_u64(mag).as_str());
        s
    }
}

fn print_atom(v: &MalType) -> (r: String)
    ensures
        r@ == print_val(view_val(*v)),
{
    match v {
        MalType::Integer(i) => print_i64(*i),
        MalType::Symbol(s, _) => s.clone(),
        MalType::Str(s) => s.clone(),
        MalType::Quote => String::from_str("quote"),
        MalType::QuasiQuote => String::from_str("quasiquote"),
        MalType::UnQuote => String::from_str("unquote"),
        MalType::SpliceUnQuote => String::from_str("splice-unquote"),
        MalType::Deref(x) => {
            let mut o = String::from_str("(deref ");
            o.append(x.as_str());
            o.append(")");
            o
        },
        MalType::Meta => String::from_str("with-meta"),
        MalType::Comment(_) => String::new(),
        MalType::Func(f) => match f {
            Builtin::Add => String::from_str("+"),
            Builtin::Subtract => String::from_str("-"),
            Builtin::Multiply => String::from_str("*"),
            Builtin::Divide => String::from_str("/"),
        },
        MalType::UnbalancedListEnd => String::from_str("unbalanced list"),
        MalType::UnbalancedString(_) => String::from_str("unbalanced string"),
        MalType::IncompleteDeref => String::from_str("incomplete deref"),
    }
}

/// Render one syntax tree as canonical text.
pub fn pr_str(ast: &AST) -> (r: String)
    ensures
        r@ == print_tree(view_ast(*ast)),
    decreases sx_height(view_ast(*ast)), 1int,
{
    let (open_text, close_text, l) = match ast {
        AST::Atom(v) => {
            return print_atom(v);
        },
        AST::List(l) => ("(", ")", l),
        AST::Vector(l) => ("[", "]", l),
        AST::HashMap(l) => ("{", "}", l),
    };
    proof {
        reveal_strlit("(");
        reveal_strlit(")");
        reveal_strlit("[");
        reveal_strlit("]");
        reveal_strlit("{");
        reveal_strlit("}");
        reveal_strlit(" ");
        lemma_view_asts_index(l@);
    }
    let ghost t = view_ast(*ast);
    let ghost s = view_asts(l@);
    let mut out = String::from_str(open_text);
    let mut i: usize = 0;
    let n = l.len();
    proof {
        assert(s.take(0) =~= Seq::<Sx>::empty());
        assert(open_text@ + print_children(s.take(0)) =~= open_text@);
    }
    while i < n
        invariant
            i <= n,
            n == l@.len(),
            s == view_asts(l@),
            s.len() == n,
            t == view_ast(*ast),
            sx_height(t) == 1 + sxs_height(s),
            forall|k: int| 0 <= k < n ==> s[k] == view_ast(l@[k]),
            open_text@.len() == 1,
            out@ == open_text@ + print_children(s.take(i as int)),
        decreases n - i,
    {
        let ghost pre = s.take(i as int);
        proof {
            reveal_strlit(" ");
            assert(" "@ =~= seq![' ']);
            lemma_sxs_height(s, i as int);
            assert(s.take(i as int + 1) =~= pre.push(s[i as int]));
        }
        if i > 0 {
            out.append(" ");
        }
        let piece = pr_str(&l[i]);
        out.append(piece.as_str());
        proof {
            if i == 0 {
                assert(pre.push(s[0]).drop_first() =~= Seq::<Sx>::empty());
                assert(print_children(pre.push(s[0])) == print_tree(s[0]));
                assert(out@ =~= open_text@ + print_children(s.take(1)));
            } else {
                lemma_print_children_snoc(pre, s[i as int]);
                assert(out@ =~= open_text@ + print_children(s.take(i as int + 1)));
            }
        }
        i += 1;
    }
    out.append(close_text);
    proof {
        assert(s.take(n as int) =~= s);
        match view_ast(*ast) {
            Sx::List(_) => {
                assert(out@ =~= print_tree(t));
            },
            Sx::Vector(_) => {
                assert(out@ =~= print_tree(t));
            },
            Sx::HashMap(_) => {
                assert(out@ =~= print_tree(t));
            },
            _ => {},
        }
    }
    out
}

} // verus!
