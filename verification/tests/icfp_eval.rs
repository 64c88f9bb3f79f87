use std::rc::Rc;

use icfl_toolkit::bigint::BigInt;
use icfl_toolkit::icfp::evaluate;
use icfl_toolkit::icfp::parse;
use icfl_toolkit::icfp::BinaryOp;
use icfl_toolkit::icfp::EvalError;
use icfl_toolkit::icfp::EvalStrat;
use icfl_toolkit::icfp::Evaluator;
use icfl_toolkit::icfp::Node;
use icfl_toolkit::icfp::Token;
use icfl_toolkit::icfp::Value;
use icfl_toolkit::icfp::VarId;

fn eval(code: &str) -> Value {
    evaluate(parse(&mut Token::lexer(code)).unwrap()).unwrap()
}

fn eval_err(code: &str) -> EvalError {
    evaluate(parse(&mut Token::lexer(code)).unwrap()).unwrap_err()
}

fn int_value(v: i64) -> Value {
    Value::Int(BigInt::from_i64(v))
}

#[test]
fn eval_example() {
    let tree = Rc::new(Node::Apply {
        strat: EvalStrat::Name,
        f: Rc::new(Node::Apply {
            strat: EvalStrat::Name,
            f: Rc::new(Node::Lambda {
                var: VarId::new(2),
                body: Rc::new(Node::Lambda {
                    var: VarId::new(3),
                    body: Rc::new(Node::Variable(VarId::new(2))),
                }),
            }),
            value: Rc::new(Node::BinaryOp {
                op: BinaryOp::StrConcat,
                left: Rc::new(Node::Value(Value::Str("Hello".to_string()))),
                right: Rc::new(Node::Value(Value::Str(" World!".to_string()))),
            }),
        }),
        value: Rc::new(Node::Value(Value::Int(BigInt::from_i64(42)))),
    });
    assert_eq!(evaluate(tree), Ok(Value::Str("Hello World!".to_string())));
}

#[test]
fn eval_unary_negate() {
    const TASK: &str = "U- I$";
    assert_eq!(eval(TASK), int_value(-3));
}

#[test]
fn eval_unary_not() {
    const TASK: &str = "U! T";
    assert_eq!(eval(TASK), Value::Bool(false));
}

#[test]
fn eval_unary_string_to_int() {
    const TASK: &str = "U# S4%34";
    assert_eq!(eval(TASK), int_value(15818151));
}

#[test]
fn eval_unary_int_to_string() {
    const TASK: &str = "U$ I4%34";
    assert_eq!(eval(TASK), Value::Str("test".to_string()));
}

#[test]
fn eval_binary_add() {
    const TASK: &str = "B+ I# I$";
    assert_eq!(eval(TASK), int_value(5));
}

#[test]
fn eval_binary_sub() {
    const TASK: &str = "B- I$ I#";
    assert_eq!(eval(TASK), int_value(1));
}

#[test]
fn eval_binary_mul() {
    const TASK: &str = "B* I$ I#";
    assert_eq!(eval(TASK), int_value(6));
}

#[test]
fn eval_binary_div() {
    const TASK: &str = "B/ U- I( I#";
    assert_eq!(eval(TASK), int_value(-3));
}

#[test]
fn eval_binary_mod() {
    const TASK: &str = "B% U- I( I#";
    assert_eq!(eval(TASK), int_value(-1));
}

#[test]
fn eval_binary_lt() {
    const TASK: &str = "B< I$ I#";
    assert_eq!(eval(TASK), Value::Bool(false));
}

#[test]
fn eval_binary_gt() {
    const TASK: &str = "B> I$ I#";
    assert_eq!(eval(TASK), Value::Bool(true));
}

#[test]
fn eval_binary_eq() {
    const TASK: &str = "B= I$ I#";
    assert_eq!(eval(TASK), Value::Bool(false));
}

#[test]
fn eval_binary_or() {
    const TASK: &str = "B| T F";
    assert_eq!(eval(TASK), Value::Bool(true));
}

#[test]
fn eval_binary_and() {
    const TASK: &str = "B& T F";
    assert_eq!(eval(TASK), Value::Bool(false));
}

#[test]
fn eval_binary_str_concat() {
    const TASK: &str = "B. S4% S34";
    assert_eq!(eval(TASK), Value::Str("test".to_string()));
}

#[test]
fn eval_binary_str_take() {
    const TASK: &str = "BT I$ S4%34";
    assert_eq!(eval(TASK), Value::Str("tes".to_string()));
}

#[test]
fn eval_binary_str_drop() {
    const TASK: &str = "BD I$ S4%34";
    assert_eq!(eval(TASK), Value::Str("t".to_string()));
}

#[test]
fn eval_if_then_else() {
    const TASK: &str = "? B> I# I$ S9%3 S./";
    assert_eq!(eval(TASK), Value::Str("no".to_string()));
}

#[test]
fn eval_lambda() {
    const TASK: &str = "B$ B$ L# L$ v# B. SB%,,/ S}Q/2,$_ IK";
    assert_eq!(eval(TASK), Value::Str("Hello World!".to_string()));
}

#[test]
fn eval_num_substitutions() {
    const TASK: &str = "B$ B$ L\" B$ L# B$ v\" B$ v# v# L# B$ v\" B$ v# v# L\" L# ? B= v# I! I\" B$ L$ B+ B$ v\" v$ B$ v\" v$ B- v# I\" I%";
    let mut evaluator = Evaluator::new();
    let result = evaluator.evaluate(parse(&mut Token::lexer(TASK)).unwrap());
    assert_eq!(result, Ok(int_value(16)));
    assert_eq!(evaluator.num_substitutions, 109);
}

#[test]
fn eval_language_test() {
    const TASK: &str = "? B= B$ B$ B$ B$ L$ L$ L$ L# v$ I\" I# I$ I% I$ ? B= B$ L$ v$ I+ I+ ? B= BD I$ S4%34 S4 ? B= BT I$ S4%34 S4%3 ? B= B. S4% S34 S4%34 ? U! B& T F ? B& T T ? U! B| F F ? B| F T ? B< U- I$ U- I# ? B> I$ I# ? B= U- I\" B% U- I$ I# ? B= I\" B% I( I$ ? B= U- I\" B/ U- I$ I# ? B= I# B/ I( I$ ? B= I' B* I# I$ ? B= I$ B+ I\" I# ? B= U$ I4%34 S4%34 ? B= U# S4%34 I4%34 ? U! F ? B= U- I$ B- I# I& ? B= I$ B- I& I# ? B= S4%34 S4%34 ? B= F F ? B= I$ I$ ? T B. B. SM%,&k#(%#+}IEj}3%.$}z3/,6%},!.'5!'%y4%34} U$ B+ I# B* I$> I1~s:U@ Sz}4/}#,!)-}0/).43}&/2})4 S)&})3}./4}#/22%#4 S\").!29}q})3}./4}#/22%#4 S\").!29}q})3}./4}#/22%#4 S\").!29}q})3}./4}#/22%#4 S\").!29}k})3}./4}#/22%#4 S5.!29}k})3}./4}#/22%#4 S5.!29}_})3}./4}#/22%#4 S5.!29}a})3}./4}#/22%#4 S5.!29}b})3}./4}#/22%#4 S\").!29}i})3}./4}#/22%#4 S\").!29}h})3}./4}#/22%#4 S\").!29}m})3}./4}#/22%#4 S\").!29}m})3}./4}#/22%#4 S\").!29}c})3}./4}#/22%#4 S\").!29}c})3}./4}#/22%#4 S\").!29}r})3}./4}#/22%#4 S\").!29}p})3}./4}#/22%#4 S\").!29}{})3}./4}#/22%#4 S\").!29}{})3}./4}#/22%#4 S\").!29}d})3}./4}#/22%#4 S\").!29}d})3}./4}#/22%#4 S\").!29}l})3}./4}#/22%#4 S\").!29}N})3}./4}#/22%#4 S\").!29}>})3}./4}#/22%#4 S!00,)#!4)/.})3}./4}#/22%#4 S!00,)#!4)/.})3}./4}#/22%#4";
    let tree = parse(&mut Token::lexer(TASK)).unwrap();
    assert_eq!(
        evaluate(tree),
        Ok(Value::Str(
            "Self-check OK, send `solve language_test 4w3s0m3` to claim points for it".to_owned()
        ))
    );
}

#[test]
fn eval_lambdaman10() {
    const TASK: &str = "B. SF B$ B$ L\" B$ L# B$ v\" B$ v# v# L# B$ v\" B$ v# v# L\" L# ? B= v# I;Y S B. ? B= B% v# IS I! S~ S B. ? B= B% v# I, I! Sa Sl B$ v\" B+ v# I\" I\"";
    // Make sure this doesn't overflow stack
    eval(TASK);
}

#[test]
fn test_3d_response() {
    const TASK: &str = "B$ B$ L\" B$ L# B$ v\" B$ v# v# L# B$ v\" B$ v# v# L\" L# ? B= v# I! Su B. B$ v\" B/ v# IH BT I\" BD B% v# IH Su4qVj}8^WX\\U[]ZY9w~f%-0\"/!2$gH.375)lP,n I(t'T]i`L\\q}xfv-+AbPWONl[f;FyoN|Sjm%ifIR!%r:L1/h4KYz~x@v}PFUj2npub/DuW6c16@K3(*qvWF";
    eval(TASK);
}

#[test]
fn efficiency1() {
    let mut value = BigInt::from_i64(1);
    for _ in 0..22 {
        value = value.mul(&BigInt::from_i64(4));
    }
    println!("{}", value.to_decimal());
    assert_eq!(value.to_decimal(), "17592186044416");
}

fn efficiency4_func(v: u64, memo: &mut Vec<Option<BigInt>>) -> BigInt {
    if let Some(known) = &memo[v as usize] {
        return known.clone();
    }
    let r = if v < 2 {
        BigInt::from_i64(1)
    } else {
        efficiency4_func(v - 1, memo).add(&efficiency4_func(v - 2, memo))
    };
    memo[v as usize] = Some(r.clone());
    r
}

#[test]
fn efficiency4() {
    let mut memo: Vec<Option<BigInt>> = Vec::new();
    for _ in 0..41 {
        memo.push(None);
    }
    let r = efficiency4_func(40, &mut memo);
    println!("{}", r.to_decimal());
    assert_eq!(r.to_decimal(), "165580141");
}

#[test]
fn unused_argument_is_never_evaluated() {
    // The argument `v8` is a free variable. Call-by-name never looks at it,
    // because the function does not use its parameter.
    assert_eq!(eval("B$ L# B$ L\" B+ v\" v\" B* I$ I# v8"), int_value(12));
    // Evaluated without that substitution, the argument has no value.
    assert_eq!(eval_err("v8"), EvalError::FreeVariable);
    assert_eq!(eval_err("B+ I# v8"), EvalError::FreeVariable);
}

#[test]
fn division_by_zero_is_an_error() {
    assert_eq!(eval_err("B/ I# I!"), EvalError::DivideByZero);
    assert_eq!(eval_err("B% I# I!"), EvalError::DivideByZero);
}

#[test]
fn operand_of_wrong_kind_is_an_error() {
    assert_eq!(eval_err("B+ I# T"), EvalError::TypeMismatch);
    assert_eq!(eval_err("U- S4%34"), EvalError::TypeMismatch);
    assert_eq!(eval_err("U$ U- I#"), EvalError::TypeMismatch);
}

#[test]
fn lambda_alone_has_no_value() {
    assert_eq!(eval_err("L# v#"), EvalError::NonValue);
}

#[test]
fn endless_reduction_is_a_runaway() {
    assert_eq!(eval_err("B$ L# B$ v# v# L# B$ v# v#"), EvalError::Runaway);
}

#[test]
fn deep_expression_is_parsed_and_evaluated() {
    let depth = 10001;
    let mut code = String::new();
    for _ in 0..depth {
        code.push_str("U- ");
    }
    code.push_str("I\"");
    assert_eq!(eval(&code), int_value(-1));
    let mut sum = String::new();
    for _ in 0..depth {
        sum.push_str("B+ I\" ");
    }
    sum.push_str("I\"");
    assert_eq!(eval(&sum), int_value(depth as i64 + 1));
}
