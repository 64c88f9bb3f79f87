//! What holds of the evaluator.
//!
//! The laws are stated twice where they can be: of literal operands, where
//! they hold as equations, and of expressions. An expression has its value
//! only within the limits on substitutions and rewrites, and an operator
//! around it costs a rewrite or a substitution: so the laws of expressions
//! say that the value is the same or the evaluation runs away.
//!
//! The order of the two passes matters for `take 0 x`: the identity makes it
//! `x` while the operand is no literal yet, and the fold makes it the empty
//! text once the operand is a literal. So the law of the identity function is
//! stated of every argument in the form that holds (the evaluation goes on
//! with the strict pass over the argument), and as an equation of values for
//! arguments on which one of the two passes finds nothing to do; the law of
//! `take` is stated of literal texts.

use crate::base94::lemma_alphabet_bijective;
use crate::base94::lemma_decode_encode;
use crate::base94::lemma_text_wire_round_trip;
use crate::base94::is_wire;
use crate::base94::is_wire_byte;
use crate::base94::text_to_wire;
use crate::base94::wire_digits;
use crate::base94::wire_to_text;
use crate::base94::wire_value;
use crate::icfp::ast::BinaryOp;
use crate::icfp::ast::Literal;
use crate::icfp::ast::Term;
use crate::icfp::ast::UnuaryOp;
use crate::icfp::base94::wire_of_number;
use crate::icfp::eval::eval_term;
use crate::icfp::eval::fold_binary;
use crate::icfp::eval::fold_unary;
use crate::icfp::eval::is_alphabet_text;
use crate::icfp::eval::run;
use crate::icfp::eval::strict_fixpoint;
use crate::icfp::eval::strict_pass;
use crate::icfp::eval::take_count;
use crate::icfp::eval::EvalError;
use crate::text::ascii_bytes;
use crate::text::ascii_text;
use crate::text::lemma_ascii_round_trip;
use vstd::prelude::*;

verus! {

/// A literal as an expression.
pub open spec fn lit(v: Literal) -> Term {
    Term::Value(v)
}

/// A binary operation on two expressions.
pub open spec fn binary(op: BinaryOp, left: Term, right: Term) -> Term {
    Term::BinaryOp { op, left: Box::new(left), right: Box::new(right) }
}

/// A unary operation on an expression.
pub open spec fn unary(op: UnuaryOp, body: Term) -> Term {
    Term::UnuaryOp { op, body: Box::new(body) }
}

/// A literal evaluates to itself.
pub proof fn lemma_eval_literal(v: Literal)
    ensures
        eval_term(lit(v)) == Ok::<Literal, EvalError>(v),
{
    reveal_with_fuel(run, 2);
    reveal_with_fuel(strict_fixpoint, 2);
}

/// A binary operator on two literals evaluates to what the operator makes of
/// them.
pub proof fn lemma_eval_binary(op: BinaryOp, a: Literal, b: Literal)
    ensures
        eval_term(binary(op, lit(a), lit(b))) == fold_binary(op, a, b),
{
    reveal_with_fuel(run, 2);
    reveal_with_fuel(strict_fixpoint, 3);
    reveal_with_fuel(strict_pass, 3);
    reveal_with_fuel(crate::icfp::eval::beta_pass, 3);
}

/// A unary operator on a literal evaluates to what the operator makes of it.
pub proof fn lemma_eval_unary(op: UnuaryOp, a: Literal)
    ensures
        eval_term(unary(op, lit(a))) == fold_unary(op, a),
{
    reveal_with_fuel(run, 2);
    reveal_with_fuel(strict_fixpoint, 3);
    reveal_with_fuel(strict_pass, 3);
    reveal_with_fuel(crate::icfp::eval::beta_pass, 3);
}

/// The identity function applied to a value yields the value.
pub proof fn lemma_identity_application(x: u64, v: Literal)
    ensures
        eval_term(
            Term::Apply {
                f: Box::new(Term::Lambda { var: x, body: Box::new(Term::Variable(x)) }),
                value: Box::new(lit(v)),
            },
        ) == Ok::<Literal, EvalError>(v),
{
    let identity = Term::Lambda { var: x, body: Box::new(Term::Variable(x)) };
    let t = Term::Apply { f: Box::new(identity), value: Box::new(lit(v)) };
    assert(crate::icfp::eval::beta_pass(identity, 0) == Ok::<(Term, nat), EvalError>(
        (identity, 0),
    ));
    assert(crate::icfp::eval::substitute(Term::Variable(x), x, lit(v)) == lit(v));
    assert(crate::icfp::eval::beta_pass(t, 0) == Ok::<(Term, nat), EvalError>((lit(v), 1)));
    assert(strict_pass(lit(v)) == Ok::<(Term, bool), EvalError>((lit(v), false)));
    assert(strict_fixpoint(lit(v), 0) == Ok::<(Term, nat), EvalError>((lit(v), 0)));
    assert(crate::icfp::eval::beta_pass(lit(v), 1) == Ok::<(Term, nat), EvalError>((lit(v), 1)));
    assert(run(lit(v), 1, 0) == Ok::<(Literal, nat), EvalError>((v, 1)));
    assert(run(t, 0, 0) == run(lit(v), 1, 0));
}

/// A conditional on a boolean literal evaluates to the branch that the
/// literal chooses.
pub proof fn lemma_conditional(c: bool, a: Literal, b: Literal)
    ensures
        eval_term(
            Term::If {
                cond: Box::new(lit(Literal::Bool(c))),
                then_do: Box::new(lit(a)),
                else_do: Box::new(lit(b)),
            },
        ) == Ok::<Literal, EvalError>(
            if c {
                a
            } else {
                b
            },
        ),
{
    reveal_with_fuel(run, 3);
    reveal_with_fuel(strict_fixpoint, 3);
    reveal_with_fuel(strict_pass, 3);
    reveal_with_fuel(crate::icfp::eval::beta_pass, 3);
}

/// Zero is neutral for the sum, and absorbing for the product; the empty
/// text is neutral for the concatenation.
pub proof fn lemma_neutral_elements(a: int, s: Seq<char>)
    ensures
        eval_term(binary(BinaryOp::IntAdd, lit(Literal::Int(a)), lit(Literal::Int(0)))) == Ok::<
            Literal,
            EvalError,
        >(Literal::Int(a)),
        eval_term(binary(BinaryOp::IntMul, lit(Literal::Int(a)), lit(Literal::Int(0)))) == Ok::<
            Literal,
            EvalError,
        >(Literal::Int(0)),
        eval_term(
            binary(BinaryOp::StrConcat, lit(Literal::Str(Seq::empty())), lit(Literal::Str(s))),
        ) == Ok::<Literal, EvalError>(Literal::Str(s)),
{
    lemma_eval_binary(BinaryOp::IntAdd, Literal::Int(a), Literal::Int(0));
    lemma_eval_binary(BinaryOp::IntMul, Literal::Int(a), Literal::Int(0));
    lemma_eval_binary(BinaryOp::StrConcat, Literal::Str(Seq::empty()), Literal::Str(s));
    assert(a * 0 == 0) by (nonlinear_arith);
    assert(Seq::<char>::empty() + s =~= s);
}

/// The text of a number that is not negative, read back as a number, is the
/// number.
pub proof fn lemma_int_to_str_to_int(n: int)
    requires
        n >= 0,
    ensures
        fold_unary(UnuaryOp::IntToStr, Literal::Int(n)) matches Ok(Literal::Str(s))
            && fold_unary(UnuaryOp::StrToInt, Literal::Str(s)) == Ok::<Literal, EvalError>(
            Literal::Int(n),
        ),
        eval_term(unary(UnuaryOp::IntToStr, lit(Literal::Int(n)))) matches Ok(v) && eval_term(
            unary(UnuaryOp::StrToInt, lit(v)),
        ) == Ok::<Literal, EvalError>(Literal::Int(n)),
{
    let wire = wire_of_number(n as nat);
    if n > 0 {
        lemma_decode_encode(n as nat);
    } else {
        assert(is_wire_byte(wire[0]));
        let digits = wire_digits(wire);
        assert(digits.drop_last() =~= Seq::<u8>::empty());
        assert(crate::bigint::radix_value(digits.drop_last(), 94) == 0);
        assert(digits.last() == 0);
        assert(wire_value(wire) == 0);
    }
    assert(is_wire(wire));
    assert(wire_value(wire) == n);
    lemma_text_wire_round_trip(wire);
    let text = wire_to_text(wire);
    assert forall|i: int| 0 <= i < text.len() implies #[trigger] text[i] < 128 by {
        lemma_alphabet_bijective(text[i]);
    }
    lemma_ascii_round_trip(text);
    let s = ascii_text(text);
    assert(is_alphabet_text(s));
    assert(text_to_wire(ascii_bytes(s)) == wire);
    lemma_eval_unary(UnuaryOp::IntToStr, Literal::Int(n));
    lemma_eval_unary(UnuaryOp::StrToInt, Literal::Str(s));
}

/// The first `n` characters of a concatenation are the first `n` characters
/// of its first part, when the first part has that many.
pub proof fn lemma_take_of_concatenation(n: int, s1: Seq<char>, s2: Seq<char>)
    requires
        0 <= n <= s1.len(),
        n < 18446744073709551616,
    ensures
        fold_binary(BinaryOp::StrTake, Literal::Int(n), Literal::Str(s1 + s2)) == fold_binary(
            BinaryOp::StrTake,
            Literal::Int(n),
            Literal::Str(s1),
        ),
        eval_term(binary(BinaryOp::StrTake, lit(Literal::Int(n)), lit(Literal::Str(s1 + s2))))
            == eval_term(binary(BinaryOp::StrTake, lit(Literal::Int(n)), lit(Literal::Str(s1)))),
{
    assert(vstd::math::abs(n) % 18446744073709551616 == n) by (nonlinear_arith)
        requires
            0 <= n < 18446744073709551616,
    ;
    assert(take_count(n, s1.len()) == n);
    assert(take_count(n, (s1 + s2).len()) == n);
    assert((s1 + s2).subrange(0, n) =~= s1.subrange(0, n));
    lemma_eval_binary(BinaryOp::StrTake, Literal::Int(n), Literal::Str(s1 + s2));
    lemma_eval_binary(BinaryOp::StrTake, Literal::Int(n), Literal::Str(s1));
}

/// A value is equal to itself.
pub proof fn lemma_equal_to_itself(x: Literal)
    ensures
        eval_term(binary(BinaryOp::Eq, lit(x), lit(x))) == Ok::<Literal, EvalError>(
            Literal::Bool(true),
        ),
{
    lemma_eval_binary(BinaryOp::Eq, x, x);
}

/// A strict pass that rewrites nothing returns the term as it is.
pub proof fn lemma_unchanged(t: Term)
    ensures
        strict_pass(t) matches Ok((t2, changed)) ==> (!changed ==> t2 == t),
{
}

/// The evaluation of a literal ends with the literal, from any counts.
pub proof fn lemma_run_literal(v: Literal, substitutions: nat, rewrites: nat)
    ensures
        run(lit(v), substitutions, rewrites) == Ok::<(Literal, nat), EvalError>(
            (v, substitutions),
        ),
{
    reveal_with_fuel(strict_fixpoint, 2);
}

/// What the first two passes make of an expression that evaluates to an
/// integer: if the strict pass comes to a literal, the literal is an integer.
proof fn lemma_integer_at_rest(a: Term, x: int, n: nat)
    requires
        run(a, 0, 0) == Ok::<(Literal, nat), EvalError>((Literal::Int(x), n)),
    ensures
        crate::icfp::eval::beta_pass(a, 0) matches Ok((a1, c1)) && (strict_pass(a1) matches Ok(
            (l, changed),
        ) && (l is Value ==> l == lit(Literal::Int(x)))),
{
    let (a1, c1) = crate::icfp::eval::beta_pass(a, 0).unwrap();
    let (l, changed) = strict_pass(a1).unwrap();
    if let Term::Value(v) = l {
        lemma_unchanged(a1);
        reveal_with_fuel(strict_fixpoint, 3);
        assert(strict_pass(l) == Ok::<(Term, bool), EvalError>((l, false)));
        assert(strict_fixpoint(a1, 0) matches Ok((a2, _)) && a2 == l);
        let (a2, r2) = strict_fixpoint(a1, 0).unwrap();
        if c1 != 0 {
            lemma_run_literal(v, c1, r2);
        }
    }
}

/// Zero is neutral for the sum: an expression that evaluates to an integer
/// evaluates to the same integer with zero added, unless the one rewrite
/// more is one too many.
pub proof fn lemma_plus_zero(a: Term, x: int)
    requires
        eval_term(a) == Ok::<Literal, EvalError>(Literal::Int(x)),
    ensures
        eval_term(binary(BinaryOp::IntAdd, a, lit(Literal::Int(0)))) == Ok::<Literal, EvalError>(
            Literal::Int(x),
        ) || eval_term(binary(BinaryOp::IntAdd, a, lit(Literal::Int(0)))) == Err::<
            Literal,
            EvalError,
        >(EvalError::Runaway),
{
    let zero = lit(Literal::Int(0));
    let t = binary(BinaryOp::IntAdd, a, zero);
    let n = run(a, 0, 0).unwrap().1;
    lemma_integer_at_rest(a, x, n);
    let (a1, c1) = crate::icfp::eval::beta_pass(a, 0).unwrap();
    let (l, changed) = strict_pass(a1).unwrap();
    let t1 = binary(BinaryOp::IntAdd, a1, zero);
    assert(crate::icfp::eval::beta_pass(zero, c1) == Ok::<(Term, nat), EvalError>((zero, c1)));
    assert(crate::icfp::eval::beta_pass(t, 0) == Ok::<(Term, nat), EvalError>((t1, c1)));
    assert(strict_pass(zero) == Ok::<(Term, bool), EvalError>((zero, false)));
    assert(strict_pass(t1) == crate::icfp::eval::strict_binary(
        BinaryOp::IntAdd,
        t1,
        l,
        zero,
        changed,
    ));
    assert(strict_pass(t1) == Ok::<(Term, bool), EvalError>((l, true))) by {
        if l is Value {
            assert(x + 0 == x);
        }
    }
    assert(strict_fixpoint(t1, 0) == strict_fixpoint(l, 1));
    lemma_unchanged(a1);
    if changed {
        assert(strict_fixpoint(a1, 0) == strict_fixpoint(l, 1));
    } else {
        assert(l == a1);
        assert(strict_fixpoint(a1, 0) == Ok::<(Term, nat), EvalError>((a1, 0)));
        assert(strict_fixpoint(a1, 1) == Ok::<(Term, nat), EvalError>((a1, 1)));
        if c1 != 0 {
            lemma_run_shift_by(a1, c1, 0, 0, 1);
        }
    }
}

/// Zero is absorbing for the product: an expression that evaluates to an
/// integer evaluates to zero when it is multiplied by zero.
pub proof fn lemma_times_zero(a: Term, x: int)
    requires
        eval_term(a) == Ok::<Literal, EvalError>(Literal::Int(x)),
    ensures
        eval_term(binary(BinaryOp::IntMul, a, lit(Literal::Int(0)))) == Ok::<Literal, EvalError>(
            Literal::Int(0),
        ),
{
    let zero = lit(Literal::Int(0));
    let t = binary(BinaryOp::IntMul, a, zero);
    let n = run(a, 0, 0).unwrap().1;
    lemma_integer_at_rest(a, x, n);
    let (a1, c1) = crate::icfp::eval::beta_pass(a, 0).unwrap();
    let (l, changed) = strict_pass(a1).unwrap();
    let t1 = binary(BinaryOp::IntMul, a1, zero);
    assert(crate::icfp::eval::beta_pass(zero, c1) == Ok::<(Term, nat), EvalError>((zero, c1)));
    assert(crate::icfp::eval::beta_pass(t, 0) == Ok::<(Term, nat), EvalError>((t1, c1)));
    assert(strict_pass(zero) == Ok::<(Term, bool), EvalError>((zero, false)));
    assert(strict_pass(t1) == crate::icfp::eval::strict_binary(
        BinaryOp::IntMul,
        t1,
        l,
        zero,
        changed,
    ));
    assert(strict_pass(t1) == Ok::<(Term, bool), EvalError>((zero, true))) by {
        if l is Value {
            assert(x * 0 == 0) by (nonlinear_arith);
        }
    }
    reveal_with_fuel(strict_fixpoint, 3);
    assert(strict_fixpoint(t1, 0) == Ok::<(Term, nat), EvalError>((zero, 1)));
    crate::icfp::eval::lemma_beta_count(a, 0);
    if c1 != 0 {
        lemma_run_literal(Literal::Int(0), c1, 1);
    }
}

/// A beta pass from a greater count makes the same term with the count
/// greater by as much, or runs away.
pub proof fn lemma_beta_shift(t: Term, count: nat, more: nat)
    ensures
        crate::icfp::eval::beta_pass(t, count) matches Ok((t1, c1))
            ==> crate::icfp::eval::beta_pass(t, count + more) == Ok::<(Term, nat), EvalError>(
            (t1, c1 + more),
        ) || crate::icfp::eval::beta_pass(t, count + more) == Err::<(Term, nat), EvalError>(
            EvalError::Runaway,
        ),
    decreases t,
{
    match t {
        Term::Apply { f, value } => {
            lemma_beta_shift(*f, count, more);
            if let Ok((g, c1)) = crate::icfp::eval::beta_pass(*f, count) {
                if !(g is Lambda) {
                    lemma_beta_shift(*value, c1, more);
                }
            }
        },
        Term::BinaryOp { op, left, right } => {
            lemma_beta_shift(*left, count, more);
            if let Ok((_, c1)) = crate::icfp::eval::beta_pass(*left, count) {
                lemma_beta_shift(*right, c1, more);
            }
        },
        Term::UnuaryOp { op, body } => {
            lemma_beta_shift(*body, count, more);
        },
        Term::If { cond, then_do, else_do } => {
            lemma_beta_shift(*cond, count, more);
            if let Ok((_, c1)) = crate::icfp::eval::beta_pass(*cond, count) {
                lemma_beta_shift(*then_do, c1, more);
                if let Ok((_, c2)) = crate::icfp::eval::beta_pass(*then_do, c1) {
                    lemma_beta_shift(*else_do, c2, more);
                }
            }
        },
        _ => {},
    }
}

/// With more rewrites counted at its start, the strict pass comes to the same
/// rest with as many more rewrites counted, or runs away.
pub proof fn lemma_fixpoint_shift_by(t: Term, rewrites: nat, more: nat)
    ensures
        strict_fixpoint(t, rewrites) matches Ok((t2, k)) ==> strict_fixpoint(t, rewrites + more)
            == Ok::<(Term, nat), EvalError>((t2, k + more)) || strict_fixpoint(
            t,
            rewrites + more,
        ) == Err::<(Term, nat), EvalError>(EvalError::Runaway),
    decreases crate::icfp::eval::REDUCTION_LIMIT - rewrites,
{
    if let Ok((next, changed)) = strict_pass(t) {
        if changed && rewrites < crate::icfp::eval::REDUCTION_LIMIT {
            lemma_fixpoint_shift_by(next, rewrites + 1, more);
        }
    }
}

/// From greater counts, an evaluation that has a value has the same value,
/// with the count of substitutions greater by as much, or runs away.
pub proof fn lemma_run_shift_by(
    t: Term,
    substitutions: nat,
    rewrites: nat,
    more_substitutions: nat,
    more_rewrites: nat,
)
    ensures
        run(t, substitutions, rewrites) matches Ok((v, n)) ==> run(
            t,
            substitutions + more_substitutions,
            rewrites + more_rewrites,
        ) == Ok::<(Literal, nat), EvalError>((v, n + more_substitutions)) || run(
            t,
            substitutions + more_substitutions,
            rewrites + more_rewrites,
        ) == Err::<(Literal, nat), EvalError>(EvalError::Runaway),
    decreases crate::icfp::eval::REDUCTION_LIMIT - substitutions,
{
    crate::icfp::eval::lemma_beta_count(t, substitutions);
    lemma_beta_shift(t, substitutions, more_substitutions);
    if let Ok((t1, s1)) = crate::icfp::eval::beta_pass(t, substitutions) {
        lemma_fixpoint_shift_by(t1, rewrites, more_rewrites);
        if let Ok((t2, k)) = strict_fixpoint(t1, rewrites) {
            if s1 != substitutions {
                lemma_run_shift_by(t2, s1, k, more_substitutions, more_rewrites);
            }
        }
    }
}

/// The identity function applied to any argument: the first beta pass puts
/// the argument in the place of the application, and the evaluation goes on
/// with the strict pass over the argument, one substitution made. The
/// argument alone is evaluated with a beta pass first.
pub proof fn lemma_identity_application_unfolds(x: u64, a: Term)
    ensures
        run(
            Term::Apply {
                f: Box::new(Term::Lambda { var: x, body: Box::new(Term::Variable(x)) }),
                value: Box::new(a),
            },
            0,
            0,
        ) == match strict_fixpoint(a, 0) {
            Err(e) => Err::<(Literal, nat), EvalError>(e),
            Ok((rest, rewrites)) => run(rest, 1, rewrites),
        },
{
    let identity = Term::Lambda { var: x, body: Box::new(Term::Variable(x)) };
    let t = Term::Apply { f: Box::new(identity), value: Box::new(a) };
    assert(crate::icfp::eval::beta_pass(identity, 0) == Ok::<(Term, nat), EvalError>(
        (identity, 0),
    ));
    assert(crate::icfp::eval::substitute(Term::Variable(x), x, a) == a);
    assert(crate::icfp::eval::beta_pass(t, 0) == Ok::<(Term, nat), EvalError>((a, 1)));
}

/// The identity function applied to an argument on which the strict pass
/// finds nothing to rewrite yields the value of the argument, unless the one
/// substitution more is one too many.
pub proof fn lemma_identity_application_at_rest(x: u64, a: Term, v: Literal)
    requires
        eval_term(a) == Ok::<Literal, EvalError>(v),
        strict_pass(a) == Ok::<(Term, bool), EvalError>((a, false)),
    ensures
        ({
            let applied = Term::Apply {
                f: Box::new(Term::Lambda { var: x, body: Box::new(Term::Variable(x)) }),
                value: Box::new(a),
            };
            eval_term(applied) == Ok::<Literal, EvalError>(v) || eval_term(applied) == Err::<
                Literal,
                EvalError,
            >(EvalError::Runaway)
        }),
{
    let identity = Term::Lambda { var: x, body: Box::new(Term::Variable(x)) };
    let t = Term::Apply { f: Box::new(identity), value: Box::new(a) };
    assert(crate::icfp::eval::beta_pass(identity, 0) == Ok::<(Term, nat), EvalError>(
        (identity, 0),
    ));
    assert(crate::icfp::eval::substitute(Term::Variable(x), x, a) == a);
    assert(crate::icfp::eval::beta_pass(t, 0) == Ok::<(Term, nat), EvalError>((a, 1)));
    assert(strict_fixpoint(a, 0) == Ok::<(Term, nat), EvalError>((a, 0)));
    assert(run(t, 0, 0) == run(a, 1, 0));
    lemma_run_shift_by(a, 0, 0, 1, 0);
}

/// The identity function applied to an argument that holds no application of
/// a function for the beta pass (so that the strict pass alone gives its
/// value) yields the value of the argument.
pub proof fn lemma_identity_application_folded(x: u64, a: Term, v: Literal)
    requires
        eval_term(a) == Ok::<Literal, EvalError>(v),
        crate::icfp::eval::beta_pass(a, 0) == Ok::<(Term, nat), EvalError>((a, 0)),
    ensures
        eval_term(
            Term::Apply {
                f: Box::new(Term::Lambda { var: x, body: Box::new(Term::Variable(x)) }),
                value: Box::new(a),
            },
        ) == Ok::<Literal, EvalError>(v),
{
    let identity = Term::Lambda { var: x, body: Box::new(Term::Variable(x)) };
    let t = Term::Apply { f: Box::new(identity), value: Box::new(a) };
    assert(crate::icfp::eval::beta_pass(identity, 0) == Ok::<(Term, nat), EvalError>(
        (identity, 0),
    ));
    assert(crate::icfp::eval::substitute(Term::Variable(x), x, a) == a);
    assert(crate::icfp::eval::beta_pass(t, 0) == Ok::<(Term, nat), EvalError>((a, 1)));
    let (rest, k) = strict_fixpoint(a, 0).unwrap();
    assert(rest == lit(v));
    lemma_run_literal(v, 1, k);
    assert(run(t, 0, 0) == run(rest, 1, k));
}

/// A conditional on a boolean literal evaluates to the value of the branch
/// that the literal chooses, when a beta pass over the other branch
/// succeeds, unless the substitutions in the other branch or the one rewrite
/// more are too many.
pub proof fn lemma_conditional_chooses(c: bool, a: Term, b: Term, v: Literal)
    requires
        eval_term(
            if c {
                a
            } else {
                b
            },
        ) == Ok::<Literal, EvalError>(v),
        crate::icfp::eval::beta_pass(
            if c {
                b
            } else {
                a
            },
            0,
        ).is_ok(),
    ensures
        ({
            let conditional = Term::If {
                cond: Box::new(lit(Literal::Bool(c))),
                then_do: Box::new(a),
                else_do: Box::new(b),
            };
            eval_term(conditional) == Ok::<Literal, EvalError>(v) || eval_term(conditional)
                == Err::<Literal, EvalError>(EvalError::Runaway)
        }),
{
    let cond = lit(Literal::Bool(c));
    let t = Term::If { cond: Box::new(cond), then_do: Box::new(a), else_do: Box::new(b) };
    let chosen = if c {
        a
    } else {
        b
    };
    let other = if c {
        b
    } else {
        a
    };
    let (chosen1, cc) = crate::icfp::eval::beta_pass(chosen, 0).unwrap();
    let (other1, co) = crate::icfp::eval::beta_pass(other, 0).unwrap();
    assert(crate::icfp::eval::beta_pass(cond, 0) == Ok::<(Term, nat), EvalError>((cond, 0)));
    // the branches are passed in order, the second from the count of the first
    if c {
        lemma_beta_shift(b, 0, cc);
    } else {
        lemma_beta_shift(b, 0, co);
    }
    let a1 = if c {
        chosen1
    } else {
        other1
    };
    let b1 = if c {
        other1
    } else {
        chosen1
    };
    let t1 = Term::If { cond: Box::new(cond), then_do: Box::new(a1), else_do: Box::new(b1) };
    if crate::icfp::eval::beta_pass(t, 0) == Ok::<(Term, nat), EvalError>((t1, cc + co)) {
        let (l, changed) = strict_pass(chosen1).unwrap();
        assert(strict_pass(cond) == Ok::<(Term, bool), EvalError>((cond, false)));
        assert(strict_pass(t1) == Ok::<(Term, bool), EvalError>((l, true)));
        assert(strict_fixpoint(t1, 0) == strict_fixpoint(l, 1));
        lemma_unchanged(chosen1);
        let (rest, r2) = strict_fixpoint(chosen1, 0).unwrap();
        // the strict pass comes to the same rest, with one rewrite more at most
        let extra: nat = if changed {
            0
        } else {
            1
        };
        if changed {
            assert(strict_fixpoint(chosen1, 0) == strict_fixpoint(l, 1));
        } else {
            assert(strict_fixpoint(chosen1, 1) == Ok::<(Term, nat), EvalError>((chosen1, 1)));
        }
        assert(strict_fixpoint(t1, 0) == Ok::<(Term, nat), EvalError>((rest, r2 + extra)));
        crate::icfp::eval::lemma_beta_count(chosen, 0);
        crate::icfp::eval::lemma_beta_count(t, 0);
        if cc == 0 {
            // the chosen branch is at rest: it is the value
            assert(rest == lit(v));
            if co != 0 {
                lemma_run_literal(v, co, r2 + extra);
            }
        } else {
            lemma_run_shift_by(rest, cc, r2, co, extra);
        }
    }
}

/// The empty text before an expression.
pub open spec fn after_empty(x: Term) -> Term {
    binary(BinaryOp::StrConcat, lit(Literal::Str(Seq::empty())), x)
}

/// A term that can never become a text: a literal of another kind, or a
/// concatenation whose first part is such a literal.
pub open spec fn never_text(t: Term) -> bool {
    match t {
        Term::Value(v) => !(v is Str),
        Term::BinaryOp { op, left, right } => op == BinaryOp::StrConcat && (*left matches Term::Value(
            v,
        ) && !(v is Str)),
        _ => false,
    }
}

/// The passes keep a term that can never become a text as such a term.
pub proof fn lemma_never_text_kept(t: Term, count: nat)
    requires
        never_text(t),
    ensures
        crate::icfp::eval::beta_pass(t, count) matches Ok((t1, _)) ==> never_text(t1),
        strict_pass(t) matches Ok((t2, _)) ==> never_text(t2),
{
    if let Term::BinaryOp { op, left, right } = t {
        assert(crate::icfp::eval::beta_pass(*left, count) == Ok::<(Term, nat), EvalError>(
            (*left, count),
        ));
        assert(strict_pass(*left) == Ok::<(Term, bool), EvalError>((*left, false)));
    }
}

/// The strict pass to its fixed point keeps a term that can never become a
/// text as such a term.
pub proof fn lemma_never_text_at_rest(t: Term, rewrites: nat)
    requires
        never_text(t),
    ensures
        strict_fixpoint(t, rewrites) matches Ok((t2, _)) ==> never_text(t2),
    decreases crate::icfp::eval::REDUCTION_LIMIT - rewrites,
{
    lemma_never_text_kept(t, 0);
    if let Ok((next, changed)) = strict_pass(t) {
        if changed && rewrites < crate::icfp::eval::REDUCTION_LIMIT {
            lemma_never_text_at_rest(next, rewrites + 1);
        }
    }
}

/// A term that can never become a text does not evaluate to a text.
pub proof fn lemma_never_text(t: Term, substitutions: nat, rewrites: nat)
    requires
        never_text(t),
    ensures
        !(run(t, substitutions, rewrites) matches Ok((Literal::Str(_), _))),
    decreases crate::icfp::eval::REDUCTION_LIMIT - substitutions,
{
    crate::icfp::eval::lemma_beta_count(t, substitutions);
    lemma_never_text_kept(t, substitutions);
    if let Ok((t1, s1)) = crate::icfp::eval::beta_pass(t, substitutions) {
        lemma_never_text_at_rest(t1, rewrites);
        if let Ok((t2, k)) = strict_fixpoint(t1, rewrites) {
            if s1 != substitutions {
                lemma_never_text(t2, s1, k);
            }
        }
    }
}

/// One strict pass over the empty text before an expression makes what the
/// pass makes of the expression, or fails because the expression can never
/// become a text.
pub proof fn lemma_after_empty_pass(x: Term)
    ensures
        strict_pass(x) matches Ok((x2, changed)) ==> strict_pass(after_empty(x)) == Ok::<
            (Term, bool),
            EvalError,
        >((x2, true)) || never_text(x2),
{
    let empty = lit(Literal::Str(Seq::empty()));
    if let Ok((x2, changed)) = strict_pass(x) {
        assert(strict_pass(empty) == Ok::<(Term, bool), EvalError>((empty, false)));
        assert(strict_pass(after_empty(x)) == crate::icfp::eval::strict_binary(
            BinaryOp::StrConcat,
            after_empty(x),
            empty,
            x2,
            changed,
        ));
        match x2 {
            Term::Value(Literal::Str(y)) => {
                assert(Seq::<char>::empty() + y =~= y);
            },
            Term::BinaryOp { op, left, right } => {
                if let Term::Value(Literal::Str(y)) = *left {
                    assert(Seq::<char>::empty() + y =~= y);
                }
            },
            _ => {},
        }
    }
}

/// The strict pass to its fixed point over the empty text before an
/// expression comes to the rest of the expression, with one more rewrite at
/// most, or runs away, unless the expression can never become a text.
pub proof fn lemma_after_empty_at_rest(x: Term, rewrites: nat)
    ensures
        strict_fixpoint(x, rewrites) matches Ok((rest, k)) ==> ({
            let with_empty = strict_fixpoint(after_empty(x), rewrites);
            ||| with_empty == Ok::<(Term, nat), EvalError>((rest, k))
            ||| with_empty == Ok::<(Term, nat), EvalError>((rest, k + 1))
            ||| with_empty == Err::<(Term, nat), EvalError>(EvalError::Runaway)
            ||| never_text(rest)
        }),
{
    if let Ok((rest, k)) = strict_fixpoint(x, rewrites) {
        let (x2, changed) = strict_pass(x).unwrap();
        lemma_after_empty_pass(x);
        lemma_unchanged(x);
        if never_text(x2) {
            if changed {
                lemma_never_text_at_rest(x2, rewrites + 1);
            }
        } else if rewrites < crate::icfp::eval::REDUCTION_LIMIT && !changed {
            lemma_fixpoint_shift_by(x, rewrites, 1);
        }
    }
}

/// The evaluation of the empty text before an expression that evaluates to a
/// text comes to the same text, or runs away.
pub proof fn lemma_after_empty_run(x: Term, substitutions: nat, rewrites: nat)
    ensures
        run(x, substitutions, rewrites) matches Ok((Literal::Str(y), n)) ==> run(
            after_empty(x),
            substitutions,
            rewrites,
        ) == Ok::<(Literal, nat), EvalError>((Literal::Str(y), n)) || run(
            after_empty(x),
            substitutions,
            rewrites,
        ) == Err::<(Literal, nat), EvalError>(EvalError::Runaway),
{
    if let Ok((Literal::Str(y), n)) = run(x, substitutions, rewrites) {
        let empty = lit(Literal::Str(Seq::empty()));
        crate::icfp::eval::lemma_beta_count(x, substitutions);
        let (x1, s1) = crate::icfp::eval::beta_pass(x, substitutions).unwrap();
        assert(crate::icfp::eval::beta_pass(empty, substitutions) == Ok::<
            (Term, nat),
            EvalError,
        >((empty, substitutions)));
        assert(crate::icfp::eval::beta_pass(after_empty(x), substitutions) == Ok::<
            (Term, nat),
            EvalError,
        >((after_empty(x1), s1)));
        let (rest, k) = strict_fixpoint(x1, rewrites).unwrap();
        lemma_after_empty_at_rest(x1, rewrites);
        if never_text(rest) {
            if s1 != substitutions {
                lemma_never_text(rest, s1, k);
            }
        } else if s1 != substitutions {
            lemma_run_shift_by(rest, s1, k, 0, 1);
        }
    }
}

/// The empty text is neutral for the concatenation: an expression that
/// evaluates to a text evaluates to the same text behind the empty text,
/// unless the one rewrite more is one too many.
pub proof fn lemma_empty_text_before(s: Term, y: Seq<char>)
    requires
        eval_term(s) == Ok::<Literal, EvalError>(Literal::Str(y)),
    ensures
        eval_term(after_empty(s)) == Ok::<Literal, EvalError>(Literal::Str(y)) || eval_term(
            after_empty(s),
        ) == Err::<Literal, EvalError>(EvalError::Runaway),
{
    lemma_after_empty_run(s, 0, 0);
}

} // verus!
