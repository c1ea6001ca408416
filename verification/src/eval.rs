//! The tree-walking evaluator: symbol resolution through the chained
//! environment, the one special form `def!`, and application of the four
//! integer builtins.  Every failure is a reported value, never an abort.

use vstd::prelude::*;

use crate::env::Env;
use crate::env::env_bind;
use crate::env::env_lookup;
use crate::env::view_env;
use crate::env::wf_env;
use crate::env::str_eq;
use crate::types::AST;
use crate::types::ASTResult;
use crate::types::Builtin;
use crate::types::MalError;
use crate::types::MalType;
use crate::types::Sx;
use crate::types::Val;
use crate::types::view_ast;
use crate::types::view_asts;
use crate::types::view_val;
use crate::types::lemma_view_asts_index;
use crate::types::lemma_view_asts_push;
use crate::reader::fits_i64;

verus! {

/// The chain of frame maps an evaluation runs against.
pub type EnvV = Seq<Map<Seq<char>, Val>>;

/// The failure categories evaluation can report.
pub enum EKind {
    UnboundSymbol,
    SpecialForm,
    OperandType,
    DivideByZero,
    NotCallable,
    NotImplemented,
    Arity,
    Overflow,
}

/// The human-readable description each failure category carries.
pub open spec fn kind_msg(k: EKind) -> Seq<char> {
    match k {
        EKind::UnboundSymbol => "unbound symbol"@,
        EKind::SpecialForm => "def! expects a symbol and a value"@,
        EKind::OperandType => "unsupported operand type"@,
        EKind::DivideByZero => "division by zero"@,
        EKind::NotCallable => "cannot apply"@,
        EKind::NotImplemented => "not implemented"@,
        EKind::Arity => "wrong number of arguments"@,
        EKind::Overflow => "integer overflow"@,
    }
}

pub open spec fn err_matches(e: MalError, k: EKind) -> bool {
    match e {
        MalError::Panic { description } => description@ == kind_msg(k),
    }
}

// ---------------------------------------------------------------------------
// The mathematical evaluator.
// ---------------------------------------------------------------------------

/// Height of a tree view, for termination of the evaluator.
pub open spec fn sx_height(t: Sx) -> nat
    decreases t, 1int,
{
    match t {
        Sx::Atom(_) => 0,
        Sx::List(s) => 1 + sxs_height(s),
        Sx::Vector(s) => 1 + sxs_height(s),
        Sx::HashMap(s) => 1 + sxs_height(s),
    }
}

pub open spec fn sxs_height(s: Seq<Sx>) -> nat
    decreases s, 0int,
{
    if s.len() == 0 {
        0
    } else if sx_height(s[0]) >= sxs_height(s.drop_first()) {
        sx_height(s[0])
    } else {
        sxs_height(s.drop_first())
    }
}

/// Every child stands strictly below its composite.
pub proof fn lemma_sxs_height(s: Seq<Sx>, i: int)
    requires
        0 <= i < s.len(),
    ensures
        sx_height(s[i]) <= sxs_height(s),
    decreases s.len(),
{
    if i > 0 {
        lemma_sxs_height(s.drop_first(), i - 1);
    }
}

/// Evaluation of one atom: a symbol resolves through the environment, and
/// carries the callable it resolved to when the bound value is callable;
/// every other atom is self-evaluating.
pub open spec fn seval_atom(v: Val, env: EnvV) -> Result<Sx, EKind> {
    match v {
        Val::Sym(name, _) => match env_lookup(env, name) {
            Option::None => Result::Err(EKind::UnboundSymbol),
            Option::Some(Val::Func(f)) => Result::Ok(
                Sx::Atom(Val::Sym(name, Option::Some(f))),
            ),
            Option::Some(b) => Result::Ok(Sx::Atom(b)),
        },
        _ => Result::Ok(Sx::Atom(v)),
    }
}

/// Is this node the literal `def!` symbol?
pub open spec fn is_def_head(t: Sx) -> bool {
    match t {
        Sx::Atom(Val::Sym(name, _)) => name == "def!"@,
        _ => false,
    }
}

/// Evaluation of one form.  A non-empty list whose head is the literal
/// `def!` is the special form: it binds the literal name of its second child
/// to the evaluated value of its third in the innermost frame and returns
/// that value; the children of any other non-empty list are evaluated left
/// to right, and the evaluated head, which must carry a callable, is applied
/// to the rest.  The environment is threaded: only `def!` changes it.
pub open spec fn seval(t: Sx, env: EnvV) -> (Result<Sx, EKind>, EnvV)
    decreases sx_height(t), 0int, 0int,
    via seval_dec
{
    match t {
        Sx::Atom(v) => (seval_atom(v, env), env),
        Sx::List(s) => {
            if s.len() == 0 {
                (Result::Ok(t), env)
            } else if is_def_head(s[0]) {
                if s.len() != 3 {
                    (Result::Err(EKind::SpecialForm), env)
                } else {
                    match s[1] {
                        Sx::Atom(Val::Sym(name, _)) => {
                            let (r2, env2) = seval(s[2], env);
                            match r2 {
                                Result::Err(k) => (Result::Err(k), env2),
                                Result::Ok(Sx::Atom(v)) => (
                                    Result::Ok(Sx::Atom(v)),
                                    env_bind(env2, name, v),
                                ),
                                Result::Ok(_) => (Result::Err(EKind::OperandType), env2),
                            }
                        },
                        _ => (Result::Err(EKind::SpecialForm), env),
                    }
                }
            } else {
                let (rs, env2) = seval_seq(s, 0, env);
                match rs {
                    Result::Err(k) => (Result::Err(k), env2),
                    Result::Ok(vs) => (sapply_vals(vs), env2),
                }
            }
        },
        _ => (Result::Err(EKind::NotImplemented), env),
    }
}

/// Left-to-right evaluation of the children from index `i` on, threading the
/// environment, stopping at the first failure.
pub open spec fn seval_seq(s: Seq<Sx>, i: int, env: EnvV) -> (Result<Seq<Sx>, EKind>, EnvV)
    decreases sxs_height(s), 1int, s.len() - i,
    when 0 <= i <= s.len()
    via seval_seq_dec
{
    if i >= s.len() {
        (Result::Ok(Seq::empty()), env)
    } else {
        let (r, env2) = seval(s[i], env);
        match r {
            Result::Err(k) => (Result::Err(k), env2),
            Result::Ok(x) => {
                let (rs, env3) = seval_seq(s, i + 1, env2);
                match rs {
                    Result::Err(k) => (Result::Err(k), env3),
                    Result::Ok(xs) => (Result::Ok(seq![x] + xs), env3),
                }
            },
        }
    }
}

#[via_fn]
proof fn seval_dec(t: Sx, env: EnvV) {
    match t {
        Sx::List(s) => {
            if s.len() == 3 {
                lemma_sxs_height(s, 2);
            }
        },
        _ => {},
    }
}

#[via_fn]
proof fn seval_seq_dec(s: Seq<Sx>, i: int, env: EnvV) {
    if 0 <= i < s.len() {
        lemma_sxs_height(s, i);
    }
}

/// Evaluation of the pieces of a form, as `eval_ast` performs it: an atom by
/// the atom rule, a list by the child rule, anything else unimplemented.
pub open spec fn seval_ast(t: Sx, env: EnvV) -> (Result<Sx, EKind>, EnvV) {
    match t {
        Sx::Atom(v) => (seval_atom(v, env), env),
        Sx::List(s) => {
            let (rs, env2) = seval_seq(s, 0, env);
            (
                match rs {
                    Result::Ok(vs) => Result::Ok(Sx::List(vs)),
                    Result::Err(k) => Result::Err(k),
                },
                env2,
            )
        },
        _ => (Result::Err(EKind::NotImplemented), env),
    }
}

/// The callable an evaluated head carries, if any.
pub open spec fn head_callable(v: Sx) -> Option<Builtin> {
    match v {
        Sx::Atom(Val::Sym(_, Option::Some(f))) => Option::Some(f),
        Sx::Atom(Val::Func(f)) => Option::Some(f),
        _ => Option::None,
    }
}

/// The atom payloads of the argument nodes; a composite argument is a type
/// failure.
pub open spec fn args_vals(vs: Seq<Sx>) -> Result<Seq<Val>, EKind>
    decreases vs.len(),
{
    if vs.len() == 0 {
        Result::Ok(Seq::empty())
    } else {
        match vs[0] {
            Sx::Atom(v) => match args_vals(vs.drop_first()) {
                Result::Ok(rest) => Result::Ok(seq![v] + rest),
                Result::Err(k) => Result::Err(k),
            },
            _ => Result::Err(EKind::OperandType),
        }
    }
}

/// Application of an evaluated form: the head must carry a callable, the
/// arguments must be atoms, and the callable decides the rest.
pub open spec fn sapply_vals(vs: Seq<Sx>) -> Result<Sx, EKind> {
    if vs.len() == 0 {
        Result::Err(EKind::NotCallable)
    } else {
        match head_callable(vs[0]) {
            Option::None => Result::Err(EKind::NotCallable),
            Option::Some(f) => match args_vals(vs.drop_first()) {
                Result::Err(k) => Result::Err(k),
                Result::Ok(args) => match sbuiltin(f, args) {
                    Result::Ok(v) => Result::Ok(Sx::Atom(v)),
                    Result::Err(k) => Result::Err(k),
                },
            },
        }
    }
}

/// Checked left fold of addition over integer operands.
pub open spec fn sum_fold(args: Seq<Val>, acc: int) -> Result<int, EKind>
    decreases args.len(),
{
    if args.len() == 0 {
        Result::Ok(acc)
    } else {
        match args[0] {
            Val::Int(i) => if fits_i64(acc + i) {
                sum_fold(args.drop_first(), acc + i)
            } else {
                Result::Err(EKind::Overflow)
            },
            _ => Result::Err(EKind::OperandType),
        }
    }
}

/// Checked left fold of multiplication over integer operands.
pub open spec fn prod_fold(args: Seq<Val>, acc: int) -> Result<int, EKind>
    decreases args.len(),
{
    if args.len() == 0 {
        Result::Ok(acc)
    } else {
        match args[0] {
            Val::Int(i) => if fits_i64(acc * i) {
                prod_fold(args.drop_first(), acc * i)
            } else {
                Result::Err(EKind::Overflow)
            },
            _ => Result::Err(EKind::OperandType),
        }
    }
}

/// Division truncated toward zero.
pub open spec fn spec_tdiv(x: int, d: int) -> int {
    if x == 0 {
        0
    } else if x > 0 && d > 0 {
        x / d
    } else if x < 0 && d < 0 {
        (x * -1) / (d * -1)
    } else if x < 0 {
        ((x * -1) / d) * -1
    } else {
        (x / (d * -1)) * -1
    }
}

/// What each builtin computes.  `+` folds from identity 0 over any number of
/// operands; `*` needs at least one and folds from the first; `-` and `/`
/// take exactly two; every operand must be an integer; division by zero and
/// any result outside the fixed-width range are failures.
pub open spec fn sbuiltin(f: Builtin, args: Seq<Val>) -> Result<Val, EKind> {
    match f {
        Builtin::Add => match sum_fold(args, 0) {
            Result::Ok(v) => Result::Ok(Val::Int(v)),
            Result::Err(k) => Result::Err(k),
        },
        Builtin::Multiply => if args.len() == 0 {
            Result::Err(EKind::Arity)
        } else {
            match args[0] {
                Val::Int(first) => match prod_fold(args.drop_first(), first) {
                    Result::Ok(v) => Result::Ok(Val::Int(v)),
                    Result::Err(k) => Result::Err(k),
                },
                _ => Result::Err(EKind::OperandType),
            }
        },
        Builtin::Subtract => if args.len() != 2 {
            Result::Err(EKind::Arity)
        } else {
            match (args[0], args[1]) {
                (Val::Int(a), Val::Int(b)) => if fits_i64(a - b) {
                    Result::Ok(Val::Int(a - b))
                } else {
                    Result::Err(EKind::Overflow)
                },
                _ => Result::Err(EKind::OperandType),
            }
        },
        Builtin::Divide => if args.len() != 2 {
            Result::Err(EKind::Arity)
        } else {
            match (args[0], args[1]) {
                (Val::Int(a), Val::Int(b)) => if b == 0 {
                    Result::Err(EKind::DivideByZero)
                } else if fits_i64(spec_tdiv(a, b)) {
                    Result::Ok(Val::Int(spec_tdiv(a, b)))
                } else {
                    Result::Err(EKind::Overflow)
                },
                _ => Result::Err(EKind::OperandType),
            }
        },
    }
}

/// The root environment: the four arithmetic builtins under their operator
/// names.
pub open spec fn root_env() -> EnvV {
    seq![
        Map::<Seq<char>, Val>::empty().insert("+"@, Val::Func(Builtin::Add)).insert(
            "-"@,
            Val::Func(Builtin::Subtract),
        ).insert("*"@, Val::Func(Builtin::Multiply)).insert("/"@, Val::Func(Builtin::Divide))
    ]
}

// ---------------------------------------------------------------------------
// The executable evaluator.
// ---------------------------------------------------------------------------

pub open spec fn view_vals(l: Seq<MalType>) -> Seq<Val> {
    l.map(|_i: int, v: MalType| view_val(v))
}

/// A failure carrying the given description.
pub fn fail(s: &str) -> (r: MalError)
    ensures
        match r {
            MalError::Panic { description } => description@ == s@,
        },
{
    MalError::Panic { description: s.to_owned() }
}

impl MalType {
    /// A structurally equal copy.
    pub fn duplicate(&self) -> (r: MalType)
        ensures
            r == *self,
    {
        match self {
            MalType::Integer(i) => MalType::Integer(*i),
            MalType::Symbol(s, f) => MalType::Symbol(s.clone(), *f),
            MalType::Str(s) => MalType::Str(s.clone()),
            MalType::Quote => MalType::Quote,
            MalType::QuasiQuote => MalType::QuasiQuote,
            MalType::UnQuote => MalType::UnQuote,
            MalType::SpliceUnQuote => MalType::SpliceUnQuote,
            MalType::Deref(s) => MalType::Deref(s.clone()),
            MalType::Meta => MalType::Meta,
            MalType::Comment(s) => MalType::Comment(s.clone()),
            MalType::Func(f) => MalType::Func(*f),
            MalType::UnbalancedListEnd => MalType::UnbalancedListEnd,
            MalType::UnbalancedString(s) => MalType::UnbalancedString(s.clone()),
            MalType::IncompleteDeref => MalType::IncompleteDeref,
        }
    }
}

impl AST {
    /// A copy denoting the same tree.
    pub fn duplicate(&self) -> (r: AST)
        ensures
            view_ast(r) == view_ast(*self),
        decreases sx_height(view_ast(*self)), 0int,
    {
        match self {
            AST::Atom(v) => AST::Atom(v.duplicate()),
            AST::List(l) => AST::List(duplicate_children(l)),
            AST::Vector(l) => AST::Vector(duplicate_children(l)),
            AST::HashMap(l) => AST::HashMap(duplicate_children(l)),
        }
    }
}

fn duplicate_children(l: &Vec<AST>) -> (r: Vec<AST>)
    ensures
        view_asts(r@) == view_asts(l@),
    decreases sxs_height(view_asts(l@)), 1int,
{
    let ghost s = view_asts(l@);
    let mut out: Vec<AST> = Vec::new();
    let mut i: usize = 0;
    proof {
        lemma_view_asts_index(l@);
    }
    while i < l.len()
        invariant
            i <= l@.len(),
            s == view_asts(l@),
            s.len() == l@.len(),
            forall|k: int| 0 <= k < l@.len() ==> s[k] == view_ast(l@[k]),
            view_asts(out@).len() == i,
            forall|k: int| 0 <= k < i ==> view_asts(out@)[k] == s[k],
            sxs_height(s) == sxs_height(view_asts(l@)),
        decreases l@.len() - i,
    {
        proof {
            lemma_sxs_height(s, i as int);
        }
        let d = l[i].duplicate();
        proof {
            lemma_view_asts_push(out@, d);
        }
        out.push(d);
        i += 1;
    }
    proof {
        lemma_view_asts_index(out@);
        assert(view_asts(out@) =~= view_asts(l@));
    }
    out
}

/// The root environment, freshly built: `+ - * /` bound to their builtins.
pub fn get_repl_env() -> (r: Env)
    ensures
        wf_env(r),
        view_env(r) == root_env(),
{
    let mut env = Env::new(None);
    let plus = String::from_str("+");
    let minus = String::from_str("-");
    let times = String::from_str("*");
    let slash = String::from_str("/");
    proof {
        assert(view_env(env) =~= seq![Map::<Seq<char>, Val>::empty()]);
    }
    env.set(&plus, MalType::Func(Builtin::Add));
    env.set(&minus, MalType::Func(Builtin::Subtract));
    env.set(&times, MalType::Func(Builtin::Multiply));
    env.set(&slash, MalType::Func(Builtin::Divide));
    proof {
        assert(view_env(env) =~= root_env());
    }
    env
}

/// Ties an executable builtin result to the mathematical one.
pub open spec fn builtin_post(f: Builtin, args: Seq<MalType>, r: Result<MalType, MalError>) -> bool {
    match (r, sbuiltin(f, view_vals(args))) {
        (Result::Ok(v), Result::Ok(sv)) => view_val(v) == sv,
        (Result::Err(e), Result::Err(k)) => err_matches(e, k),
        _ => false,
    }
}

/// Fold with identity 0 over zero or more integer operands.
pub fn add(args: Vec<MalType>) -> (r: Result<MalType, MalError>)
    ensures
        builtin_post(Builtin::Add, args@, r),
{
    let ghost vals = view_vals(args@);
    let mut acc: i64 = 0;
    let mut i: usize = 0;
    let n = args.len();
    proof {
        assert(vals.skip(0) =~= vals);
    }
    while i < n
        invariant
            i <= n,
            n == args@.len(),
            vals == view_vals(args@),
            vals.len() == n,
            sum_fold(vals, 0) == sum_fold(vals.skip(i as int), acc as int),
        decreases n - i,
    {
        let ghost rest = vals.skip(i as int);
        proof {
            assert(rest[0] == view_val(args@[i as int]));
            assert(rest.drop_first() =~= vals.skip(i as int + 1));
        }
        match &args[i] {
            MalType::Integer(v) => {
                match acc.checked_add(*v) {
                    Option::Some(x) => {
                        acc = x;
                    },
                    Option::None => {
                        return Err(fail("integer overflow"));
                    },
                }
            },
            _ => {
                return Err(fail("unsupported operand type"));
            },
        }
        i += 1;
    }
    proof {
        assert(vals.skip(n as int) =~= Seq::<Val>::empty());
    }
    Ok(MalType::Integer(acc))
}

/// Fold by multiplication with the first operand as seed; at least one
/// operand is required.
pub fn multiply(args: Vec<MalType>) -> (r: Result<MalType, MalError>)
    ensures
        builtin_post(Builtin::Multiply, args@, r),
{
    let ghost vals = view_vals(args@);
    let n = args.len();
    if n == 0 {
        return Err(fail("wrong number of arguments"));
    }
    proof {
        assert(vals[0] == view_val(args@[0]));
    }
    let first: i64 = match &args[0] {
        MalType::Integer(v) => *v,
        _ => {
            return Err(fail("unsupported operand type"));
        },
    };
    let mut acc: i64 = first;
    let mut i: usize = 1;
    proof {
        assert(vals.skip(1) =~= vals.drop_first());
    }
    while i < n
        invariant
            1 <= i <= n,
            n == args@.len(),
            vals == view_vals(args@),
            vals.len() == n,
            n >= 1,
            vals[0] == Val::Int(first as int),
            prod_fold(vals.drop_first(), first as int) == prod_fold(vals.skip(i as int), acc as int),
        decreases n - i,
    {
        let ghost rest = vals.skip(i as int);
        proof {
            assert(rest[0] == view_val(args@[i as int]));
            assert(rest.drop_first() =~= vals.skip(i as int + 1));
        }
        match &args[i] {
            MalType::Integer(v) => {
                match acc.checked_mul(*v) {
                    Option::Some(x) => {
                        acc = x;
                    },
                    Option::None => {
                        return Err(fail("integer overflow"));
                    },
                }
            },
            _ => {
                return Err(fail("unsupported operand type"));
            },
        }
        i += 1;
    }
    proof {
        assert(vals.skip(n as int) =~= Seq::<Val>::empty());
    }
    Ok(MalType::Integer(acc))
}

/// Exactly two integer operands: the left minus the right.
pub fn subtract(args: Vec<MalType>) -> (r: Result<MalType, MalError>)
    ensures
        builtin_post(Builtin::Subtract, args@, r),
{
    if args.len() != 2 {
        return Err(fail("wrong number of arguments"));
    }
    proof {
        assert(view_vals(args@)[0] == view_val(args@[0]));
        assert(view_vals(args@)[1] == view_val(args@[1]));
    }
    match (&args[0], &args[1]) {
        (MalType::Integer(a), MalType::Integer(b)) => {
            match a.checked_sub(*b) {
                Option::Some(x) => Ok(MalType::Integer(x)),
                Option::None => Err(fail("integer overflow")),
            }
        },
        _ => Err(fail("unsupported operand type")),
    }
}

/// Exactly two integer operands: the left divided by the right, truncating
/// toward zero; a zero divisor is a failure, not a panic.
pub fn divide(args: Vec<MalType>) -> (r: Result<MalType, MalError>)
    ensures
        builtin_post(Builtin::Divide, args@, r),
{
    if args.len() != 2 {
        return Err(fail("wrong number of arguments"));
    }
    proof {
        assert(view_vals(args@)[0] == view_val(args@[0]));
        assert(view_vals(args@)[1] == view_val(args@[1]));
    }
    match (&args[0], &args[1]) {
        (MalType::Integer(a), MalType::Integer(b)) => {
            if *b == 0 {
                return Err(fail("division by zero"));
            }
            match a.checked_div(*b) {
                Option::Some(x) => Ok(MalType::Integer(x)),
                Option::None => Err(fail("integer overflow")),
            }
        },
        _ => Err(fail("unsupported operand type")),
    }
}

/// Apply an evaluated form: the head must carry a callable; the arguments
/// are the remaining children, which must be atoms.
pub fn apply(list: Vec<AST>) -> (r: ASTResult)
    ensures
        match (r, sapply_vals(view_asts(list@))) {
            (Result::Ok(a), Result::Ok(x)) => view_ast(a) == x,
            (Result::Err(e), Result::Err(k)) => err_matches(e, k),
            _ => false,
        },
{
    let ghost vs = view_asts(list@);
    proof {
        lemma_view_asts_index(list@);
    }
    if list.len() == 0 {
        return Err(fail("cannot apply"));
    }
    let f: Builtin = match &list[0] {
        AST::Atom(MalType::Symbol(_, Option::Some(f))) => *f,
        AST::Atom(MalType::Func(f)) => *f,
        _ => {
            return Err(fail("cannot apply"));
        },
    };
    let mut args: Vec<MalType> = Vec::new();
    let mut i: usize = 1;
    let n = list.len();
    while i < n
        invariant
            1 <= i <= n,
            n == list@.len(),
            vs == view_asts(list@),
            vs.len() == n,
            n >= 1,
            head_callable(vs[0]) == Option::Some(f),
            forall|k: int| 0 <= k < list@.len() ==> vs[k] == view_ast(list@[k]),
            view_vals(args@).len() == i - 1,
            forall|k: int| 1 <= k < i ==> (#[trigger] vs[k] matches Sx::Atom(v) && view_vals(
                args@,
            )[k - 1] == v),
        decreases n - i,
    {
        match &list[i] {
            AST::Atom(v) => {
                args.push(v.duplicate());
                proof {
                    assert(view_vals(args@) =~= view_vals(args@.drop_last()).push(
                        view_val(args@.last()),
                    ));
                }
            },
            _ => {
                proof {
                    lemma_args_vals_err(vs.drop_first(), i - 1);
                }
                return Err(fail("unsupported operand type"));
            },
        }
        i += 1;
    }
    proof {
        lemma_args_vals_ok(vs.drop_first(), view_vals(args@));
    }
    let out = match f {
        Builtin::Add => crate::eval::add(args),
        Builtin::Subtract => subtract(args),
        Builtin::Multiply => multiply(args),
        Builtin::Divide => divide(args),
    };
    match out {
        Result::Ok(v) => Ok(AST::Atom(v)),
        Result::Err(e) => Err(e),
    }
}

/// All arguments are atoms with these payloads, in order.
proof fn lemma_args_vals_ok(vs: Seq<Sx>, ps: Seq<Val>)
    requires
        vs.len() == ps.len(),
        forall|k: int| 0 <= k < vs.len() ==> (#[trigger] vs[k] matches Sx::Atom(v) && ps[k] == v),
    ensures
        args_vals(vs) == Result::<Seq<Val>, EKind>::Ok(ps),
    decreases vs.len(),
{
    if vs.len() == 0 {
        assert(ps =~= Seq::<Val>::empty());
    } else {
        lemma_args_vals_ok(vs.drop_first(), ps.drop_first());
        assert(vs[0] matches Sx::Atom(v) && ps[0] == v);
        assert(seq![ps[0]] + ps.drop_first() =~= ps);
    }
}

/// The first composite argument makes the whole argument list a type
/// failure.
proof fn lemma_args_vals_err(vs: Seq<Sx>, j: int)
    requires
        0 <= j < vs.len(),
        forall|k: int| 0 <= k < j ==> vs[k] is Atom,
        !(vs[j] is Atom),
    ensures
        args_vals(vs) == Result::<Seq<Val>, EKind>::Err(EKind::OperandType),
    decreases j,
{
    if j > 0 {
        lemma_args_vals_err(vs.drop_first(), j - 1);
    }
}

/// Ties an executable evaluation to the mathematical one: the environment
/// afterwards and the result both agree with `seval`.
pub open spec fn eval_post(t: Sx, env0: EnvV, r: ASTResult, env1: EnvV) -> bool {
    let (sr, senv) = seval(t, env0);
    &&& env1 == senv
    &&& match (r, sr) {
        (Result::Ok(a), Result::Ok(x)) => view_ast(a) == x,
        (Result::Err(e), Result::Err(k)) => err_matches(e, k),
        _ => false,
    }
}

/// The same, against `seval_ast`.
pub open spec fn eval_ast_post(t: Sx, env0: EnvV, r: ASTResult, env1: EnvV) -> bool {
    let (sr, senv) = seval_ast(t, env0);
    &&& env1 == senv
    &&& match (r, sr) {
        (Result::Ok(a), Result::Ok(x)) => view_ast(a) == x,
        (Result::Err(e), Result::Err(k)) => err_matches(e, k),
        _ => false,
    }
}

/// Prefix already evaluated, in front of whatever the rest evaluates to.
pub open spec fn prepend_children(
    pre: Seq<Sx>,
    p: (Result<Seq<Sx>, EKind>, EnvV),
) -> (Result<Seq<Sx>, EKind>, EnvV) {
    (
        match p.0 {
            Result::Ok(vs) => Result::Ok(pre + vs),
            Result::Err(k) => Result::Err(k),
        },
        p.1,
    )
}

/// Evaluate one form against the environment.  The result and the final
/// environment are exactly those of the mathematical evaluator.
pub fn eval(ast: AST, repl_env: &mut Env) -> (r: ASTResult)
    requires
        wf_env(*old(repl_env)),
    ensures
        wf_env(*final(repl_env)),
        eval_post(view_ast(ast), view_env(*old(repl_env)), r, view_env(*final(repl_env))),
    decreases sx_height(view_ast(ast)), 3int,
{
    let is_empty_list = match &ast {
        AST::List(l) => l.len() == 0,
        _ => false,
    };
    if is_empty_list {
        proof {
            match &ast {
                AST::List(l) => {
                    lemma_view_asts_index(l@);
                },
                _ => {},
            }
        }
        return Ok(ast);
    }
    match &ast {
        AST::Atom(_) => eval_ast(&ast, repl_env),
        AST::Vector(_) => Err(fail("not implemented")),
        AST::HashMap(_) => Err(fail("not implemented")),
        AST::List(l) => {
            let ghost s = view_asts(l@);
            proof {
                lemma_view_asts_index(l@);
            }
            let is_def = match &l[0] {
                AST::Atom(MalType::Symbol(name, _)) => str_eq(name.as_str(), "def!"),
                _ => false,
            };
            if is_def {
                if l.len() != 3 {
                    return Err(fail("def! expects a symbol and a value"));
                }
                let name: String = match &l[1] {
                    AST::Atom(MalType::Symbol(nm, _)) => nm.clone(),
                    _ => {
                        return Err(fail("def! expects a symbol and a value"));
                    },
                };
                proof {
                    lemma_sxs_height(s, 2);
                }
                let third = l[2].duplicate();
                let r2 = eval(third, repl_env);
                match r2 {
                    Result::Err(e) => Err(e),
                    Result::Ok(a) => match a {
                        AST::Atom(v) => {
                            let dup = v.duplicate();
                            repl_env.set(&name, dup);
                            Ok(AST::Atom(v))
                        },
                        _ => Err(fail("unsupported operand type")),
                    },
                }
            } else {
                let r1 = eval_ast(&ast, repl_env);
                match r1 {
                    Result::Err(e) => Err(e),
                    Result::Ok(evaled) => match evaled {
                        AST::List(vs) => apply(vs),
                        _ => Err(fail("must return list")),
                    },
                }
            }
        },
    }
}

/// Evaluate the pieces of a form: a symbol resolves through the environment;
/// other atoms are self-evaluating; the children of a list are evaluated
/// left to right, stopping at the first failure.
pub fn eval_ast(ast: &AST, repl_env: &mut Env) -> (r: ASTResult)
    requires
        wf_env(*old(repl_env)),
    ensures
        wf_env(*final(repl_env)),
        eval_ast_post(view_ast(*ast), view_env(*old(repl_env)), r, view_env(*final(repl_env))),
    decreases sx_height(view_ast(*ast)), 2int,
{
    let ghost t = view_ast(*ast);
    let ghost env0 = view_env(*old(repl_env));
    match ast {
        AST::Atom(v) => match v {
            MalType::Symbol(name, _) => {
                match repl_env.find(name) {
                    Option::None => Err(fail("unbound symbol")),
                    Option::Some(bound) => match bound {
                        MalType::Func(f) => {
                            let f = *f;
                            Ok(AST::Atom(MalType::Symbol(name.clone(), Some(f))))
                        },
                        other => Ok(AST::Atom(other.duplicate())),
                    },
                }
            },
            other => Ok(AST::Atom(other.duplicate())),
        },
        AST::List(l) => {
            let ghost s = view_asts(l@);
            proof {
                lemma_view_asts_index(l@);
            }
            let mut out: Vec<AST> = Vec::new();
            let mut i: usize = 0;
            let n = l.len();
            proof {
                assert(view_asts(out@) =~= Seq::<Sx>::empty());
                assert(Seq::<Sx>::empty() + seval_seq(s, 0, env0).0->Ok_0 =~= seval_seq(
                    s,
                    0,
                    env0,
                ).0->Ok_0);
                assert(seval_seq(s, 0, env0) == prepend_children(
                    view_asts(out@),
                    seval_seq(s, 0, env0),
                ));
            }
            while i < n
                invariant
                    wf_env(*repl_env),
                    i <= n,
                    n == l@.len(),
                    s == view_asts(l@),
                    s.len() == n,
                    t == view_ast(*ast),
                    t == Sx::List(s),
                    env0 == view_env(*old(repl_env)),
                    forall|k: int| 0 <= k < n ==> s[k] == view_ast(l@[k]),
                    seval_seq(s, 0, env0) == prepend_children(
                        view_asts(out@),
                        seval_seq(s, i as int, view_env(*repl_env)),
                    ),
                decreases n - i,
            {
                let ghost env_pre = view_env(*repl_env);
                let ghost pre = view_asts(out@);
                proof {
                    lemma_sxs_height(s, i as int);
                }
                let dup = l[i].duplicate();
                let r = eval(dup, repl_env);
                match r {
                    Result::Err(e) => {
                        return Err(e);
                    },
                    Result::Ok(a) => {
                        proof {
                            let x = view_ast(a);
                            let env2 = view_env(*repl_env);
                            let inner = seval_seq(s, i as int + 1, env2);
                            match inner.0 {
                                Result::Ok(xs) => {
                                    assert(pre + (seq![x] + xs) =~= pre.push(x) + xs);
                                },
                                Result::Err(_) => {},
                            }
                            lemma_view_asts_push(out@, a);
                        }
                        out.push(a);
                    },
                }
                i += 1;
            }
            proof {
                let envn = view_env(*repl_env);
                assert(seval_seq(s, n as int, envn) == (
                    Result::<Seq<Sx>, EKind>::Ok(Seq::<Sx>::empty()),
                    envn,
                ));
                assert(view_asts(out@) + Seq::<Sx>::empty() =~= view_asts(out@));
            }
            Ok(AST::List(out))
        },
        AST::Vector(_) => Err(fail("not implemented")),
        AST::HashMap(_) => Err(fail("not implemented")),
    }
}

} // verus!
