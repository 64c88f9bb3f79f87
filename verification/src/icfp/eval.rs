//! The evaluator: call-by-name reduction by substitution, with constant
//! folding.
//!
//! Two passes alternate. The beta pass walks the tree once from the top and
//! replaces applications of functions by the function's body with the
//! argument put in place of the variable. The strict pass folds operators on
//! literals, resolves conditionals and applies a few algebraic identities, and
//! is repeated until it changes nothing. The evaluation ends when a beta pass
//! has made no substitution: the tree is then a literal, or the program has no
//! value.

use crate::base94::is_text;
use crate::base94::text_bytes_to_wire;
use crate::base94::text_to_wire;
use crate::base94::wire_bytes_to_text;
use crate::base94::wire_to_text;
use crate::base94::wire_value;
use crate::bigint::truncated_div;
use crate::bigint::truncated_rem;
use crate::bigint::BigInt;
use crate::icfp::ast::lemma_children_decrease;
use crate::icfp::ast::share;
use crate::icfp::ast::BinaryOp;
use crate::icfp::ast::Literal;
use crate::icfp::ast::Node;
use crate::icfp::ast::NodeRef;
use crate::icfp::ast::Term;
use crate::icfp::ast::UnuaryOp;
use crate::icfp::ast::Value;
use crate::icfp::ast::VarId;
use crate::icfp::base94::decode_big;
use crate::icfp::base94::encode_big;
use crate::icfp::base94::wire_of_number;
use crate::text::ascii_bytes;
use crate::text::ascii_bytes_of;
use crate::text::ascii_string;
use crate::text::ascii_text;
use std::rc::Rc;
use vstd::prelude::*;
use vstd::string::StrSliceExecFns;
use vstd::string::StringExecFns;

verus! {

/// The most substitutions, and the most strict rewrites, that one evaluation
/// may make.
pub const REDUCTION_LIMIT: u64 = 10000000;

/// Why a program has no value.
#[derive(Debug, Clone, Copy, PartialEq, Eq, Structural)]
pub enum EvalError {
    /// A variable was met that no application has replaced.
    FreeVariable,
    /// An operand is not of the kind that its operator works on.
    TypeMismatch,
    /// A division or a remainder by zero.
    DivideByZero,
    /// The reduction came to rest on something that is no literal.
    NonValue,
    /// More substitutions or more rewrites than the limit allows.
    Runaway,
}

/// The term with the argument in place of every free occurrence of the
/// variable. Nothing is renamed: the bound variables of a program are taken to
/// be distinct.
pub open spec fn substitute(t: Term, var: u64, arg: Term) -> Term
    decreases t,
{
    match t {
        Term::Value(_) => t,
        Term::Lambda { var: v, body } => if v != var {
            Term::Lambda { var: v, body: Box::new(substitute(*body, var, arg)) }
        } else {
            t
        },
        Term::Variable(v) => if v == var {
            arg
        } else {
            t
        },
        Term::Apply { f, value } => Term::Apply {
            f: Box::new(substitute(*f, var, arg)),
            value: Box::new(substitute(*value, var, arg)),
        },
        Term::BinaryOp { op, left, right } => Term::BinaryOp {
            op,
            left: Box::new(substitute(*left, var, arg)),
            right: Box::new(substitute(*right, var, arg)),
        },
        Term::UnuaryOp { op, body } => Term::UnuaryOp {
            op,
            body: Box::new(substitute(*body, var, arg)),
        },
        Term::If { cond, then_do, else_do } => Term::If {
            cond: Box::new(substitute(*cond, var, arg)),
            then_do: Box::new(substitute(*then_do, var, arg)),
            else_do: Box::new(substitute(*else_do, var, arg)),
        },
    }
}

/// One beta pass over a term, from a count of substitutions made so far: the
/// new term and the new count.
///
/// An application whose function reduces to a lambda becomes the lambda's body
/// with the unevaluated argument substituted; the result is not walked again
/// in this pass. The pass does not enter the body of a lambda. A variable that
/// it meets is free. A substitution beyond the limit is a runaway.
pub open spec fn beta_pass(t: Term, count: nat) -> Result<(Term, nat), EvalError>
    decreases t,
{
    match t {
        Term::Value(_) => Ok((t, count)),
        Term::Lambda { .. } => Ok((t, count)),
        Term::Variable(_) => Err(EvalError::FreeVariable),
        Term::Apply { f, value } => match beta_pass(*f, count) {
            Err(e) => Err(e),
            Ok((g, c1)) => match g {
                Term::Lambda { var, body } => if c1 >= REDUCTION_LIMIT {
                    Err(EvalError::Runaway)
                } else {
                    Ok((substitute(*body, var, *value), c1 + 1))
                },
                _ => match beta_pass(*value, c1) {
                    Err(e) => Err(e),
                    Ok((v, c2)) => Ok((Term::Apply { f: Box::new(g), value: Box::new(v) }, c2)),
                },
            },
        },
        Term::BinaryOp { op, left, right } => match beta_pass(*left, count) {
            Err(e) => Err(e),
            Ok((l, c1)) => match beta_pass(*right, c1) {
                Err(e) => Err(e),
                Ok((r, c2)) => Ok(
                    (Term::BinaryOp { op, left: Box::new(l), right: Box::new(r) }, c2),
                ),
            },
        },
        Term::UnuaryOp { op, body } => match beta_pass(*body, count) {
            Err(e) => Err(e),
            Ok((b, c1)) => Ok((Term::UnuaryOp { op, body: Box::new(b) }, c1)),
        },
        Term::If { cond, then_do, else_do } => match beta_pass(*cond, count) {
            Err(e) => Err(e),
            Ok((c, c1)) => match beta_pass(*then_do, c1) {
                Err(e) => Err(e),
                Ok((a, c2)) => match beta_pass(*else_do, c2) {
                    Err(e) => Err(e),
                    Ok((b, c3)) => Ok(
                        (
                            Term::If {
                                cond: Box::new(c),
                                then_do: Box::new(a),
                                else_do: Box::new(b),
                            },
                            c3,
                        ),
                    ),
                },
            },
        },
    }
}

/// How many characters `take` and `drop` count off for a length operand: its
/// absolute value modulo 2^64, and no more than the text has.
pub open spec fn take_count(n: int, len: nat) -> nat {
    let wanted = (vstd::math::abs(n) % 18446744073709551616) as nat;
    if wanted < len {
        wanted
    } else {
        len
    }
}

/// A text that the text codec can read: ASCII, and every character in the
/// alphabet.
pub open spec fn is_alphabet_text(s: Seq<char>) -> bool {
    vstd::utf8::is_ascii_chars(s) && is_text(ascii_bytes(s))
}

/// The value of a binary operator on two literals.
pub open spec fn fold_binary(op: BinaryOp, a: Literal, b: Literal) -> Result<Literal, EvalError> {
    match op {
        BinaryOp::IntAdd => match (a, b) {
            (Literal::Int(x), Literal::Int(y)) => Ok(Literal::Int(x + y)),
            _ => Err(EvalError::TypeMismatch),
        },
        BinaryOp::IntSub => match (a, b) {
            (Literal::Int(x), Literal::Int(y)) => Ok(Literal::Int(x - y)),
            _ => Err(EvalError::TypeMismatch),
        },
        BinaryOp::IntMul => match (a, b) {
            (Literal::Int(x), Literal::Int(y)) => Ok(Literal::Int(x * y)),
            _ => Err(EvalError::TypeMismatch),
        },
        BinaryOp::IntDiv => match (a, b) {
            (Literal::Int(x), Literal::Int(y)) => if y == 0 {
                Err(EvalError::DivideByZero)
            } else {
                Ok(Literal::Int(truncated_div(x, y)))
            },
            _ => Err(EvalError::TypeMismatch),
        },
        BinaryOp::IntMod => match (a, b) {
            (Literal::Int(x), Literal::Int(y)) => if y == 0 {
                Err(EvalError::DivideByZero)
            } else {
                Ok(Literal::Int(truncated_rem(x, y)))
            },
            _ => Err(EvalError::TypeMismatch),
        },
        BinaryOp::IntLt => match (a, b) {
            (Literal::Int(x), Literal::Int(y)) => Ok(Literal::Bool(x < y)),
            _ => Err(EvalError::TypeMismatch),
        },
        BinaryOp::IntGt => match (a, b) {
            (Literal::Int(x), Literal::Int(y)) => Ok(Literal::Bool(x > y)),
            _ => Err(EvalError::TypeMismatch),
        },
        BinaryOp::BoolOr => match (a, b) {
            (Literal::Bool(x), Literal::Bool(y)) => Ok(Literal::Bool(x || y)),
            _ => Err(EvalError::TypeMismatch),
        },
        BinaryOp::BoolAnd => match (a, b) {
            (Literal::Bool(x), Literal::Bool(y)) => Ok(Literal::Bool(x && y)),
            _ => Err(EvalError::TypeMismatch),
        },
        BinaryOp::StrConcat => match (a, b) {
            (Literal::Str(x), Literal::Str(y)) => Ok(Literal::Str(x + y)),
            _ => Err(EvalError::TypeMismatch),
        },
        BinaryOp::StrTake => match (a, b) {
            (Literal::Int(n), Literal::Str(s)) => Ok(
                Literal::Str(s.subrange(0, take_count(n, s.len()) as int)),
            ),
            _ => Err(EvalError::TypeMismatch),
        },
        BinaryOp::StrDrop => match (a, b) {
            (Literal::Int(n), Literal::Str(s)) => Ok(
                Literal::Str(s.subrange(take_count(n, s.len()) as int, s.len() as int)),
            ),
            _ => Err(EvalError::TypeMismatch),
        },
        BinaryOp::Eq => Ok(Literal::Bool(a == b)),
    }
}

/// The value of a unary operator on a literal.
pub open spec fn fold_unary(op: UnuaryOp, a: Literal) -> Result<Literal, EvalError> {
    match op {
        UnuaryOp::IntNeg => match a {
            Literal::Int(x) => Ok(Literal::Int(-x)),
            _ => Err(EvalError::TypeMismatch),
        },
        UnuaryOp::BoolNot => match a {
            Literal::Bool(x) => Ok(Literal::Bool(!x)),
            _ => Err(EvalError::TypeMismatch),
        },
        UnuaryOp::StrToInt => match a {
            Literal::Str(s) => if is_alphabet_text(s) {
                Ok(Literal::Int(wire_value(text_to_wire(ascii_bytes(s))) as int))
            } else {
                Err(EvalError::TypeMismatch)
            },
            _ => Err(EvalError::TypeMismatch),
        },
        UnuaryOp::IntToStr => match a {
            Literal::Int(x) => if x >= 0 {
                Ok(Literal::Str(ascii_text(wire_to_text(wire_of_number(x as nat)))))
            } else {
                Err(EvalError::TypeMismatch)
            },
            _ => Err(EvalError::TypeMismatch),
        },
    }
}

/// The operators whose chains of literals are folded from the head.
pub open spec fn is_associative(op: BinaryOp) -> bool {
    op == BinaryOp::IntAdd || op == BinaryOp::IntMul || op == BinaryOp::BoolAnd || op
        == BinaryOp::BoolOr || op == BinaryOp::StrConcat
}

/// `op(a, op(b, rest))` with literals `a` and `b` and an associative `op`
/// becomes `op(op(a, b), rest)` with the two literals folded; `None` where the
/// operands are not of that shape.
pub open spec fn reassociate(op: BinaryOp, l: Term, r: Term) -> Result<Option<Term>, EvalError> {
    match (l, r) {
        (Term::Value(a), Term::BinaryOp { op: op2, left, right: next }) => match *left {
            Term::Value(b) => if op == op2 && is_associative(op) {
                match fold_binary(op, a, b) {
                    Ok(v) => Ok(
                        Some(Term::BinaryOp { op, left: Box::new(Term::Value(v)), right: next }),
                    ),
                    Err(e) => Err(e),
                }
            } else {
                Ok(None)
            },
            _ => Ok(None),
        },
        _ => Ok(None),
    }
}

/// The term is the integer literal `n`.
pub open spec fn is_int(t: Term, n: int) -> bool {
    t == Term::Value(Literal::Int(n))
}

/// The term is the boolean literal `b`.
pub open spec fn is_bool(t: Term, b: bool) -> bool {
    t == Term::Value(Literal::Bool(b))
}

/// The term is the empty text.
pub open spec fn is_empty_str(t: Term) -> bool {
    t matches Term::Value(Literal::Str(s)) && s.len() == 0
}

/// The algebraic identities: `x+0 = 0+x = x`, `x-0 = x`, `0*x = x*0 = 0`,
/// `1*x = x*1 = x`, `x/1 = x`, `false|x = x|false = x`, `true|x = x|true =
/// true`, the same for `&` with the booleans exchanged, `""·x = x·"" = x`,
/// `take 0 x = drop 0 x = x`. `None` where none applies.
pub open spec fn identity(op: BinaryOp, l: Term, r: Term) -> Option<Term> {
    match op {
        BinaryOp::IntAdd => if is_int(l, 0) {
            Some(r)
        } else if is_int(r, 0) {
            Some(l)
        } else {
            None
        },
        BinaryOp::IntSub => if is_int(r, 0) {
            Some(l)
        } else {
            None
        },
        BinaryOp::IntMul => if is_int(l, 0) || is_int(r, 0) {
            Some(Term::Value(Literal::Int(0)))
        } else if is_int(l, 1) {
            Some(r)
        } else if is_int(r, 1) {
            Some(l)
        } else {
            None
        },
        BinaryOp::IntDiv => if is_int(r, 1) {
            Some(l)
        } else {
            None
        },
        BinaryOp::BoolOr => if is_bool(l, true) || is_bool(r, true) {
            Some(Term::Value(Literal::Bool(true)))
        } else if is_bool(l, false) {
            Some(r)
        } else if is_bool(r, false) {
            Some(l)
        } else {
            None
        },
        BinaryOp::BoolAnd => if is_bool(l, false) || is_bool(r, false) {
            Some(Term::Value(Literal::Bool(false)))
        } else if is_bool(l, true) {
            Some(r)
        } else if is_bool(r, true) {
            Some(l)
        } else {
            None
        },
        BinaryOp::StrConcat => if is_empty_str(l) {
            Some(r)
        } else if is_empty_str(r) {
            Some(l)
        } else {
            None
        },
        BinaryOp::StrTake => if is_int(l, 0) {
            Some(r)
        } else {
            None
        },
        BinaryOp::StrDrop => if is_int(l, 0) {
            Some(r)
        } else {
            None
        },
        _ => None,
    }
}

/// The strict pass at a binary operation `t` whose operands the pass has
/// already rewritten to `l` and `r`: two literals are folded; else a chain is
/// reassociated; else an identity is applied; else the operation is kept, and
/// counts as rewritten when an operand was.
pub open spec fn strict_binary(op: BinaryOp, t: Term, l: Term, r: Term, changed: bool) -> Result<
    (Term, bool),
    EvalError,
> {
    match (l, r) {
        (Term::Value(a), Term::Value(b)) => match fold_binary(op, a, b) {
            Ok(v) => Ok((Term::Value(v), true)),
            Err(e) => Err(e),
        },
        _ => match reassociate(op, l, r) {
            Err(e) => Err(e),
            Ok(Some(t2)) => Ok((t2, true)),
            Ok(None) => match identity(op, l, r) {
                Some(t2) => Ok((t2, true)),
                None => if changed {
                    Ok((Term::BinaryOp { op, left: Box::new(l), right: Box::new(r) }, true))
                } else {
                    Ok((t, false))
                },
            },
        },
    }
}

/// One strict pass over a term, from the leaves up: the new term, and whether
/// anything was rewritten. A term on which nothing was rewritten is returned
/// as it is.
///
/// A conditional whose condition is a boolean literal becomes the chosen
/// branch, on which the pass is made; the other branch is dropped unread.
pub open spec fn strict_pass(t: Term) -> Result<(Term, bool), EvalError>
    decreases t,
{
    match t {
        Term::Value(_) => Ok((t, false)),
        Term::Variable(_) => Ok((t, false)),
        Term::Lambda { var, body } => match strict_pass(*body) {
            Err(e) => Err(e),
            Ok((b, changed)) => if changed {
                Ok((Term::Lambda { var, body: Box::new(b) }, true))
            } else {
                Ok((t, false))
            },
        },
        Term::Apply { f, value } => match strict_pass(*f) {
            Err(e) => Err(e),
            Ok((g, changed_f)) => match strict_pass(*value) {
                Err(e) => Err(e),
                Ok((v, changed_v)) => if changed_f || changed_v {
                    Ok((Term::Apply { f: Box::new(g), value: Box::new(v) }, true))
                } else {
                    Ok((t, false))
                },
            },
        },
        Term::BinaryOp { op, left, right } => match strict_pass(*left) {
            Err(e) => Err(e),
            Ok((l, changed_l)) => match strict_pass(*right) {
                Err(e) => Err(e),
                Ok((r, changed_r)) => strict_binary(op, t, l, r, changed_l || changed_r),
            },
        },
        Term::UnuaryOp { op, body } => match strict_pass(*body) {
            Err(e) => Err(e),
            Ok((b, changed)) => match b {
                Term::Value(a) => match fold_unary(op, a) {
                    Ok(v) => Ok((Term::Value(v), true)),
                    Err(e) => Err(e),
                },
                _ => if changed {
                    Ok((Term::UnuaryOp { op, body: Box::new(b) }, true))
                } else {
                    Ok((t, false))
                },
            },
        },
        Term::If { cond, then_do, else_do } => match strict_pass(*cond) {
            Err(e) => Err(e),
            Ok((c, changed)) => match c {
                Term::Value(Literal::Bool(b)) => match strict_pass(
                    if b {
                        *then_do
                    } else {
                        *else_do
                    },
                ) {
                    Err(e) => Err(e),
                    Ok((chosen, _)) => Ok((chosen, true)),
                },
                _ => if changed {
                    Ok((Term::If { cond: Box::new(c), then_do, else_do }, true))
                } else {
                    Ok((t, false))
                },
            },
        },
    }
}

/// The strict pass repeated until it rewrites nothing, from a count of
/// rewrites made so far: the term at rest and the new count. A rewrite beyond
/// the limit is a runaway.
pub open spec fn strict_fixpoint(t: Term, rewrites: nat) -> Result<(Term, nat), EvalError>
    decreases REDUCTION_LIMIT - rewrites,
{
    match strict_pass(t) {
        Err(e) => Err(e),
        Ok((t2, changed)) => if !changed {
            Ok((t, rewrites))
        } else if rewrites >= REDUCTION_LIMIT {
            Err(EvalError::Runaway)
        } else {
            strict_fixpoint(t2, rewrites + 1)
        },
    }
}

/// The substitutions of a beta pass only add to the count, and a count that
/// has grown is within the limit.
pub proof fn lemma_beta_count(t: Term, count: nat)
    ensures
        beta_pass(t, count) matches Ok((_, c)) ==> count <= c && (c != count ==> c
            <= REDUCTION_LIMIT),
    decreases t,
{
    match t {
        Term::Apply { f, value } => {
            lemma_beta_count(*f, count);
            if let Ok((g, c1)) = beta_pass(*f, count) {
                if !(g is Lambda) {
                    lemma_beta_count(*value, c1);
                }
            }
        },
        Term::BinaryOp { op, left, right } => {
            lemma_beta_count(*left, count);
            if let Ok((_, c1)) = beta_pass(*left, count) {
                lemma_beta_count(*right, c1);
            }
        },
        Term::UnuaryOp { op, body } => {
            lemma_beta_count(*body, count);
        },
        Term::If { cond, then_do, else_do } => {
            lemma_beta_count(*cond, count);
            if let Ok((_, c1)) = beta_pass(*cond, count) {
                lemma_beta_count(*then_do, c1);
                if let Ok((_, c2)) = beta_pass(*then_do, c1) {
                    lemma_beta_count(*else_do, c2);
                }
            }
        },
        _ => {},
    }
}

/// The evaluation from a term and the two counts: the value, and the number
/// of substitutions made in all.
///
/// A beta pass is made, then the strict pass to its fixed point. When the beta
/// pass has made no substitution the evaluation ends: with the literal that
/// the term has become, or without a value.
pub open spec fn run(t: Term, substitutions: nat, rewrites: nat) -> Result<
    (Literal, nat),
    EvalError,
>
    decreases REDUCTION_LIMIT - substitutions,
{
    match beta_pass(t, substitutions) {
        Err(e) => Err(e),
        Ok((t1, s1)) => match strict_fixpoint(t1, rewrites) {
            Err(e) => Err(e),
            Ok((t2, r2)) => if s1 == substitutions {
                match t2 {
                    Term::Value(v) => Ok((v, s1)),
                    _ => Err(EvalError::NonValue),
                }
            } else {
                proof {
                    lemma_beta_count(t, substitutions);
                }
                run(t2, s1, r2)
            },
        },
    }
}

/// The value of a term.
pub open spec fn eval_term(t: Term) -> Result<Literal, EvalError> {
    match run(t, 0, 0) {
        Ok((v, _)) => Ok(v),
        Err(e) => Err(e),
    }
}


/// The exec result stands for the spec result.
pub open spec fn value_matches(r: Result<Value, EvalError>, s: Result<Literal, EvalError>) -> bool {
    match s {
        Ok(v) => r.is_ok() && r.unwrap()@ == v,
        Err(e) => r == Err::<Value, EvalError>(e),
    }
}

/// The exec result stands for the spec result.
pub open spec fn pass_matches(
    r: Result<(NodeRef, bool), EvalError>,
    s: Result<(Term, bool), EvalError>,
) -> bool {
    match s {
        Ok((t, changed)) => r.is_ok() && r.unwrap().0@ == t && r.unwrap().1 == changed,
        Err(e) => r == Err::<(NodeRef, bool), EvalError>(e),
    }
}

/// The exec result stands for the spec result.
pub open spec fn rewrite_matches(
    r: Result<Option<NodeRef>, EvalError>,
    s: Result<Option<Term>, EvalError>,
) -> bool {
    match s {
        Ok(Some(t)) => r.is_ok() && r.unwrap().is_some() && r.unwrap().unwrap()@ == t,
        Ok(None) => r.is_ok() && r.unwrap().is_none(),
        Err(e) => r == Err::<Option<NodeRef>, EvalError>(e),
    }
}

fn literal_node(v: Value) -> (r: NodeRef)
    ensures
        r@ == Term::Value(v@),
{
    Rc::new(Node::Value(v))
}

fn int_node(v: BigInt) -> (r: NodeRef)
    ensures
        r@ == Term::Value(Literal::Int(v@)),
{
    Rc::new(Node::Value(Value::Int(v)))
}

fn bool_node(v: bool) -> (r: NodeRef)
    ensures
        r@ == Term::Value(Literal::Bool(v)),
{
    Rc::new(Node::Value(Value::Bool(v)))
}

/// How many characters `take` and `drop` count off.
fn count_chars(n: &BigInt, len: usize) -> (r: usize)
    ensures
        r == take_count(n@, len as nat),
{
    let wanted: u64 = n.low_u64();
    if wanted < len as u64 {
        wanted as usize
    } else {
        len
    }
}

/// Whether two values are the same value.
pub fn value_eq(a: &Value, b: &Value) -> (r: bool)
    ensures
        r == (a@ == b@),
{
    match (a, b) {
        (Value::Str(x), Value::Str(y)) => *x == *y,
        (Value::Int(x), Value::Int(y)) => x.equals(y),
        (Value::Bool(x), Value::Bool(y)) => *x == *y,
        _ => false,
    }
}

/// The value of an arithmetic operator or a comparison on two integers.
fn fold_int(op: BinaryOp, x: &BigInt, y: &BigInt) -> (r: Result<Value, EvalError>)
    requires
        op == BinaryOp::IntAdd || op == BinaryOp::IntSub || op == BinaryOp::IntMul || op
            == BinaryOp::IntDiv || op == BinaryOp::IntMod || op == BinaryOp::IntLt || op
            == BinaryOp::IntGt,
    ensures
        value_matches(r, fold_binary(op, Literal::Int(x@), Literal::Int(y@))),
{
    match op {
        BinaryOp::IntAdd => Ok(Value::Int(x.add(y))),
        BinaryOp::IntSub => Ok(Value::Int(x.sub(y))),
        BinaryOp::IntMul => Ok(Value::Int(x.mul(y))),
        BinaryOp::IntDiv => match x.checked_div(y) {
            Some(q) => Ok(Value::Int(q)),
            None => Err(EvalError::DivideByZero),
        },
        BinaryOp::IntMod => match x.checked_rem(y) {
            Some(q) => Ok(Value::Int(q)),
            None => Err(EvalError::DivideByZero),
        },
        BinaryOp::IntLt => Ok(Value::Bool(x.less_than(y))),
        _ => Ok(Value::Bool(y.less_than(x))),
    }
}

/// The value of a text operator.
fn fold_str(op: BinaryOp, a: &Value, b: &Value) -> (r: Result<Value, EvalError>)
    requires
        op == BinaryOp::StrConcat || op == BinaryOp::StrTake || op == BinaryOp::StrDrop,
    ensures
        value_matches(r, fold_binary(op, a@, b@)),
{
    match op {
        BinaryOp::StrConcat => match (a, b) {
            (Value::Str(x), Value::Str(y)) => Ok(Value::Str(x.clone().concat(y.as_str()))),
            _ => Err(EvalError::TypeMismatch),
        },
        BinaryOp::StrTake => match (a, b) {
            (Value::Int(n), Value::Str(s)) => {
                let text = s.as_str();
                let k = count_chars(n, text.unicode_len());
                Ok(Value::Str(String::from_str(text.substring_char(0, k))))
            },
            _ => Err(EvalError::TypeMismatch),
        },
        _ => match (a, b) {
            (Value::Int(n), Value::Str(s)) => {
                let text = s.as_str();
                let len = text.unicode_len();
                let k = count_chars(n, len);
                Ok(Value::Str(String::from_str(text.substring_char(k, len))))
            },
            _ => Err(EvalError::TypeMismatch),
        },
    }
}

/// The value of a binary operator on two values.
pub fn fold_binary_values(op: BinaryOp, a: &Value, b: &Value) -> (r: Result<Value, EvalError>)
    ensures
        value_matches(r, fold_binary(op, a@, b@)),
{
    match op {
        BinaryOp::BoolOr => match (a, b) {
            (Value::Bool(x), Value::Bool(y)) => Ok(Value::Bool(*x || *y)),
            _ => Err(EvalError::TypeMismatch),
        },
        BinaryOp::BoolAnd => match (a, b) {
            (Value::Bool(x), Value::Bool(y)) => Ok(Value::Bool(*x && *y)),
            _ => Err(EvalError::TypeMismatch),
        },
        BinaryOp::StrConcat | BinaryOp::StrTake | BinaryOp::StrDrop => fold_str(op, a, b),
        BinaryOp::Eq => Ok(Value::Bool(value_eq(a, b))),
        _ => match (a, b) {
            (Value::Int(x), Value::Int(y)) => fold_int(op, x, y),
            _ => Err(EvalError::TypeMismatch),
        },
    }
}

/// The value of a unary operator on a value.
pub fn fold_unary_value(op: UnuaryOp, a: &Value) -> (r: Result<Value, EvalError>)
    ensures
        value_matches(r, fold_unary(op, a@)),
{
    match op {
        UnuaryOp::IntNeg => match a {
            Value::Int(x) => Ok(Value::Int(x.neg())),
            _ => Err(EvalError::TypeMismatch),
        },
        UnuaryOp::BoolNot => match a {
            Value::Bool(x) => Ok(Value::Bool(!*x)),
            _ => Err(EvalError::TypeMismatch),
        },
        UnuaryOp::StrToInt => match a {
            Value::Str(s) => {
                let text = match ascii_bytes_of(s.as_str()) {
                    Some(text) => text,
                    None => {
                        return Err(EvalError::TypeMismatch);
                    },
                };
                let wire = match text_bytes_to_wire(&text) {
                    Some(wire) => wire,
                    None => {
                        return Err(EvalError::TypeMismatch);
                    },
                };
                match decode_big(&wire) {
                    Some(n) => Ok(Value::Int(n)),
                    None => Err(EvalError::TypeMismatch),
                }
            },
            _ => Err(EvalError::TypeMismatch),
        },
        UnuaryOp::IntToStr => match a {
            Value::Int(x) => {
                if x.is_negative() {
                    return Err(EvalError::TypeMismatch);
                }
                let wire = encode_big(x);
                let text = wire_bytes_to_text(&wire);
                Ok(Value::Str(ascii_string(text)))
            },
            _ => Err(EvalError::TypeMismatch),
        },
    }
}

/// The node with the value in place of every free occurrence of the
/// variable. The value is shared, not copied.
pub fn substitute_node(node: &NodeRef, var: VarId, value: &NodeRef) -> (r: NodeRef)
    ensures
        r@ == substitute(node@, var.0, value@),
    decreases node@,
{
    proof {
        lemma_children_decrease(&**node);
    }
    match &**node {
        Node::Value(_) => share(node),
        Node::Lambda { var: v, body } => {
            if v.id() != var.id() {
                Rc::new(Node::Lambda { var: *v, body: substitute_node(body, var, value) })
            } else {
                share(node)
            }
        },
        Node::Variable(v) => {
            if v.id() == var.id() {
                share(value)
            } else {
                share(node)
            }
        },
        Node::Apply { strat, f, value: v } => Rc::new(
            Node::Apply {
                strat: *strat,
                f: substitute_node(f, var, value),
                value: substitute_node(v, var, value),
            },
        ),
        Node::BinaryOp { op, left, right } => Rc::new(
            Node::BinaryOp {
                op: *op,
                left: substitute_node(left, var, value),
                right: substitute_node(right, var, value),
            },
        ),
        Node::UnuaryOp { op, body } => Rc::new(
            Node::UnuaryOp { op: *op, body: substitute_node(body, var, value) },
        ),
        Node::If { cond, then_do, else_do } => Rc::new(
            Node::If {
                cond: substitute_node(cond, var, value),
                then_do: substitute_node(then_do, var, value),
                else_do: substitute_node(else_do, var, value),
            },
        ),
    }
}


/// Whether the operator's chains of literals are folded from the head.
fn associative(op: BinaryOp) -> (r: bool)
    ensures
        r == is_associative(op),
{
    match op {
        BinaryOp::IntAdd | BinaryOp::IntMul | BinaryOp::BoolAnd | BinaryOp::BoolOr
        | BinaryOp::StrConcat => true,
        _ => false,
    }
}

/// The head of a chain of literals folded, where the operands are of that
/// shape.
pub fn reassociate_nodes(op: BinaryOp, left: &NodeRef, right: &NodeRef) -> (r: Result<
    Option<NodeRef>,
    EvalError,
>)
    ensures
        rewrite_matches(r, reassociate(op, left@, right@)),
{
    match (&**left, &**right) {
        (Node::Value(a), Node::BinaryOp { op: op2, left: inner, right: next }) => {
            assert(right@ == Term::BinaryOp {
                op: *op2,
                left: Box::new(inner.term()),
                right: Box::new(next.term()),
            });
            match &**inner {
                Node::Value(b) => {
                    assert(inner.term() == Term::Value(b@));
                    if op == *op2 && associative(op) {
                        match fold_binary_values(op, a, b) {
                            Ok(v) => Ok(
                                Some(
                                    Rc::new(
                                        Node::BinaryOp {
                                            op,
                                            left: literal_node(v),
                                            right: share(next),
                                        },
                                    ),
                                ),
                            ),
                            Err(e) => Err(e),
                        }
                    } else {
                        Ok(None)
                    }
                },
                _ => Ok(None),
            }
        },
        _ => Ok(None),
    }
}

/// Whether the node is the integer literal zero.
fn node_is_zero(node: &NodeRef) -> (r: bool)
    ensures
        r == is_int(node@, 0),
{
    match &**node {
        Node::Value(Value::Int(v)) => v.is_zero(),
        _ => false,
    }
}

/// Whether the node is the integer literal one.
fn node_is_one(node: &NodeRef) -> (r: bool)
    ensures
        r == is_int(node@, 1),
{
    match &**node {
        Node::Value(Value::Int(v)) => v.is_one(),
        _ => false,
    }
}

/// Whether the node is the boolean literal `b`.
fn node_is_bool(node: &NodeRef, b: bool) -> (r: bool)
    ensures
        r == is_bool(node@, b),
{
    match &**node {
        Node::Value(Value::Bool(v)) => *v == b,
        _ => false,
    }
}

/// Whether the node is the empty text.
fn node_is_empty_str(node: &NodeRef) -> (r: bool)
    ensures
        r == is_empty_str(node@),
{
    match &**node {
        Node::Value(Value::Str(s)) => s.as_str().unicode_len() == 0,
        _ => false,
    }
}

/// The operation rewritten by an algebraic identity, where one applies.
pub fn identity_nodes(op: BinaryOp, left: &NodeRef, right: &NodeRef) -> (r: Option<NodeRef>)
    ensures
        match identity(op, left@, right@) {
            Some(t) => r.is_some() && r.unwrap()@ == t,
            None => r.is_none(),
        },
{
    match op {
        BinaryOp::IntAdd => {
            if node_is_zero(left) {
                Some(share(right))
            } else if node_is_zero(right) {
                Some(share(left))
            } else {
                None
            }
        },
        BinaryOp::IntSub => {
            if node_is_zero(right) {
                Some(share(left))
            } else {
                None
            }
        },
        BinaryOp::IntMul => {
            if node_is_zero(left) || node_is_zero(right) {
                Some(int_node(BigInt::zero()))
            } else if node_is_one(left) {
                Some(share(right))
            } else if node_is_one(right) {
                Some(share(left))
            } else {
                None
            }
        },
        BinaryOp::IntDiv => {
            if node_is_one(right) {
                Some(share(left))
            } else {
                None
            }
        },
        BinaryOp::BoolOr => {
            if node_is_bool(left, true) || node_is_bool(right, true) {
                Some(bool_node(true))
            } else if node_is_bool(left, false) {
                Some(share(right))
            } else if node_is_bool(right, false) {
                Some(share(left))
            } else {
                None
            }
        },
        BinaryOp::BoolAnd => {
            if node_is_bool(left, false) || node_is_bool(right, false) {
                Some(bool_node(false))
            } else if node_is_bool(left, true) {
                Some(share(right))
            } else if node_is_bool(right, true) {
                Some(share(left))
            } else {
                None
            }
        },
        BinaryOp::StrConcat => {
            if node_is_empty_str(left) {
                Some(share(right))
            } else if node_is_empty_str(right) {
                Some(share(left))
            } else {
                None
            }
        },
        BinaryOp::StrTake | BinaryOp::StrDrop => {
            if node_is_zero(left) {
                Some(share(right))
            } else {
                None
            }
        },
        _ => None,
    }
}

/// The strict pass at a binary operation whose operands the pass has already
/// rewritten.
pub fn strict_binary_nodes(
    op: BinaryOp,
    tree: &NodeRef,
    left: NodeRef,
    right: NodeRef,
    changed: bool,
) -> (r: Result<(NodeRef, bool), EvalError>)
    ensures
        pass_matches(r, strict_binary(op, tree@, left@, right@, changed)),
{
    match (&*left, &*right) {
        (Node::Value(a), Node::Value(b)) => {
            return match fold_binary_values(op, a, b) {
                Ok(v) => Ok((Rc::new(Node::Value(v)), true)),
                Err(e) => Err(e),
            };
        },
        _ => {},
    }
    match reassociate_nodes(op, &left, &right) {
        Err(e) => Err(e),
        Ok(Some(node)) => Ok((node, true)),
        Ok(None) => match identity_nodes(op, &left, &right) {
            Some(node) => Ok((node, true)),
            None => {
                if changed {
                    Ok((Rc::new(Node::BinaryOp { op, left, right }), true))
                } else {
                    Ok((share(tree), false))
                }
            },
        },
    }
}

/// One strict pass over a node: the new node, and whether anything was
/// rewritten. Subtrees that the pass does not rewrite are shared with the
/// result.
pub fn strict_reduction(tree: &NodeRef) -> (r: Result<(NodeRef, bool), EvalError>)
    ensures
        pass_matches(r, strict_pass(tree@)),
    decreases tree@,
{
    proof {
        lemma_children_decrease(&**tree);
    }
    match &**tree {
        Node::Value(_) => Ok((share(tree), false)),
        Node::Variable(_) => Ok((share(tree), false)),
        Node::Lambda { var, body } => {
            let (body, changed) = match strict_reduction(body) {
                Ok(pair) => pair,
                Err(e) => {
                    return Err(e);
                },
            };
            if changed {
                Ok((Rc::new(Node::Lambda { var: *var, body }), true))
            } else {
                Ok((share(tree), false))
            }
        },
        Node::Apply { strat, f, value } => {
            let (f, changed_f) = match strict_reduction(f) {
                Ok(pair) => pair,
                Err(e) => {
                    return Err(e);
                },
            };
            let (value, changed_v) = match strict_reduction(value) {
                Ok(pair) => pair,
                Err(e) => {
                    return Err(e);
                },
            };
            if changed_f || changed_v {
                Ok((Rc::new(Node::Apply { strat: *strat, f, value }), true))
            } else {
                Ok((share(tree), false))
            }
        },
        Node::BinaryOp { op, left, right } => {
            let (left, changed_l) = match strict_reduction(left) {
                Ok(pair) => pair,
                Err(e) => {
                    return Err(e);
                },
            };
            let (right, changed_r) = match strict_reduction(right) {
                Ok(pair) => pair,
                Err(e) => {
                    return Err(e);
                },
            };
            strict_binary_nodes(*op, tree, left, right, changed_l || changed_r)
        },
        Node::UnuaryOp { op, body } => {
            let (body, changed) = match strict_reduction(body) {
                Ok(pair) => pair,
                Err(e) => {
                    return Err(e);
                },
            };
            match &*body {
                Node::Value(v) => {
                    return match fold_unary_value(*op, v) {
                        Ok(v) => Ok((Rc::new(Node::Value(v)), true)),
                        Err(e) => Err(e),
                    };
                },
                _ => {},
            }
            if changed {
                Ok((Rc::new(Node::UnuaryOp { op: *op, body }), true))
            } else {
                Ok((share(tree), false))
            }
        },
        Node::If { cond, then_do, else_do } => {
            let (cond, changed) = match strict_reduction(cond) {
                Ok(pair) => pair,
                Err(e) => {
                    return Err(e);
                },
            };
            match &*cond {
                Node::Value(Value::Bool(b)) => {
                    let chosen = if *b {
                        then_do
                    } else {
                        else_do
                    };
                    return match strict_reduction(chosen) {
                        Ok((node, _)) => Ok((node, true)),
                        Err(e) => Err(e),
                    };
                },
                _ => {},
            }
            if changed {
                Ok(
                    (
                        Rc::new(
                            Node::If { cond, then_do: share(then_do), else_do: share(else_do) },
                        ),
                        true,
                    ),
                )
            } else {
                Ok((share(tree), false))
            }
        },
    }
}

/// The strict pass repeated until it rewrites nothing. Each rewriting pass
/// adds one to `rewrites`.
pub fn strict_to_fixpoint(tree: NodeRef, rewrites: &mut u64) -> (r: Result<NodeRef, EvalError>)
    requires
        *old(rewrites) <= REDUCTION_LIMIT,
    ensures
        *final(rewrites) <= REDUCTION_LIMIT,
        match strict_fixpoint(tree@, *old(rewrites) as nat) {
            Ok((t, count)) => r.is_ok() && r.unwrap()@ == t && *final(rewrites) == count,
            Err(e) => r == Err::<NodeRef, EvalError>(e),
        },
{
    let mut current = tree;
    loop
        invariant
            *rewrites <= REDUCTION_LIMIT,
            strict_fixpoint(current@, *rewrites as nat) == strict_fixpoint(
                tree@,
                *old(rewrites) as nat,
            ),
        decreases REDUCTION_LIMIT - *rewrites,
    {
        let (next, changed) = match strict_reduction(&current) {
            Ok(pair) => pair,
            Err(e) => {
                return Err(e);
            },
        };
        if !changed {
            return Ok(current);
        }
        if *rewrites >= REDUCTION_LIMIT {
            return Err(EvalError::Runaway);
        }
        current = next;
        *rewrites += 1;
    }
}

/// An evaluation in progress: it counts the substitutions that the beta passes
/// make.
pub struct Evaluator {
    pub num_substitutions: u64,
}

impl Evaluator {
    /// An evaluator that has made no substitution.
    pub fn new() -> (r: Self)
        ensures
            r.num_substitutions == 0,
    {
        Self { num_substitutions: 0 }
    }

    /// The value of the expression, and in `num_substitutions` the number of
    /// substitutions that it took.
    pub fn evaluate(&mut self, tree: NodeRef) -> (r: Result<Value, EvalError>)
        ensures
            match run(tree@, old(self).num_substitutions as nat, 0) {
                Ok((v, count)) => r.is_ok() && r.unwrap()@ == v && final(self).num_substitutions
                    == count,
                Err(e) => r == Err::<Value, EvalError>(e),
            },
    {
        let mut current = tree;
        let mut rewrites: u64 = 0;
        loop
            invariant
                rewrites <= REDUCTION_LIMIT,
                run(current@, self.num_substitutions as nat, rewrites as nat) == run(
                    tree@,
                    old(self).num_substitutions as nat,
                    0,
                ),
            decreases REDUCTION_LIMIT - self.num_substitutions,
        {
            let before = self.num_substitutions;
            proof {
                lemma_beta_count(current@, before as nat);
            }
            current = match self.beta_reduction(&current) {
                Ok(node) => node,
                Err(e) => {
                    return Err(e);
                },
            };
            current = match strict_to_fixpoint(current, &mut rewrites) {
                Ok(node) => node,
                Err(e) => {
                    return Err(e);
                },
            };
            if self.num_substitutions == before {
                return match &*current {
                    Node::Value(v) => Ok(v.clone()),
                    _ => Err(EvalError::NonValue),
                };
            }
        }
    }

    /// One beta pass over a node. Each substitution adds one to
    /// `num_substitutions`.
        pub fn beta_reduction(&mut self, tree: &NodeRef) -> (r: Result<NodeRef, EvalError>)
        ensures
            match beta_pass(tree@, old(self).num_substitutions as nat) {
                Ok((t, count)) => r.is_ok() && r.unwrap()@ == t && final(self).num_substitutions
                    == count,
                Err(e) => r == Err::<NodeRef, EvalError>(e),
            },
        decreases tree@,
    {
        proof {
            lemma_children_decrease(&**tree);
        }
        match &**tree {
            Node::Value(_) => Ok(share(tree)),
            Node::Lambda { .. } => Ok(share(tree)),
            Node::Variable(_) => Err(EvalError::FreeVariable),
            Node::Apply { strat, f, value } => {
                let node = match self.beta_reduction(f) {
                    Ok(node) => node,
                    Err(e) => {
                        return Err(e);
                    },
                };
                match &*node {
                    Node::Lambda { var, body } => {
                        if self.num_substitutions >= REDUCTION_LIMIT {
                            return Err(EvalError::Runaway);
                        }
                        let reduced = substitute_node(body, *var, value);
                        self.num_substitutions += 1;
                        return Ok(reduced);
                    },
                    _ => {},
                }
                let value = match self.beta_reduction(value) {
                    Ok(node) => node,
                    Err(e) => {
                        return Err(e);
                    },
                };
                Ok(Rc::new(Node::Apply { strat: *strat, f: node, value }))
            },
            Node::BinaryOp { op, left, right } => {
                let left = match self.beta_reduction(left) {
                    Ok(node) => node,
                    Err(e) => {
                        return Err(e);
                    },
                };
                let right = match self.beta_reduction(right) {
                    Ok(node) => node,
                    Err(e) => {
                        return Err(e);
                    },
                };
                Ok(Rc::new(Node::BinaryOp { op: *op, left, right }))
            },
            Node::UnuaryOp { op, body } => {
                let body = match self.beta_reduction(body) {
                    Ok(node) => node,
                    Err(e) => {
                        return Err(e);
                    },
                };
                Ok(Rc::new(Node::UnuaryOp { op: *op, body }))
            },
            Node::If { cond, then_do, else_do } => {
                let cond = match self.beta_reduction(cond) {
                    Ok(node) => node,
                    Err(e) => {
                        return Err(e);
                    },
                };
                let then_do = match self.beta_reduction(then_do) {
                    Ok(node) => node,
                    Err(e) => {
                        return Err(e);
                    },
                };
                let else_do = match self.beta_reduction(else_do) {
                    Ok(node) => node,
                    Err(e) => {
                        return Err(e);
                    },
                };
                Ok(Rc::new(Node::If { cond, then_do, else_do }))
            },
        }
    }
}

/// The value of an expression.
pub fn evaluate(tree: NodeRef) -> (r: Result<Value, EvalError>)
    ensures
        value_matches(r, eval_term(tree@)),
{
    Evaluator::new().evaluate(tree)
}

} // verus!
