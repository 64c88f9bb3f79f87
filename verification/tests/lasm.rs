use std::rc::Rc;

use icfl_toolkit::bigint::BigInt;
use icfl_toolkit::icfp::evaluate;
use icfl_toolkit::icfp::serialize_str;
use icfl_toolkit::icfp::BinaryOp;
use icfl_toolkit::icfp::EvalError;
use icfl_toolkit::icfp::Value;
use icfl_toolkit::lasm::compile;
use icfl_toolkit::lasm::parse;
use icfl_toolkit::lasm::CompileError;
use icfl_toolkit::lasm::Iden;
use icfl_toolkit::lasm::LNode;

fn number(v: i64) -> BigInt {
    BigInt::from_i64(v)
}

fn run(sample: &str) -> Value {
    let node = parse(sample).unwrap();
    let node = compile(node).unwrap();
    evaluate(node).unwrap()
}

#[test]
fn test_mess() {
    let sample = r#"
            let a = 1;
                b = a + 1;
                f x y = x * y + b;
                rec fac x = if x < 2 { x } else { x * fac (x - 1) };
            in (f 2 a) + fac 3
        "#;
    let node = parse(sample).unwrap();
    let node = compile(node).unwrap();
    assert_eq!(evaluate(node).unwrap().as_int(), &number(10));
}

#[test]
fn test_take() {
    let sample = r#"
            "ab" take 1
        "#;
    let node = parse(sample).unwrap();
    let node = compile(node).unwrap();
    let value = evaluate(node).unwrap();
    println!("{:#?}", value);
    assert_eq!(value.as_str(), "a");
}

#[test]
fn test_concat() {
    let sample = r#"
            let a = "a"; in
            a . "b"
        "#;
    let node = parse(sample).unwrap();
    let node = compile(node).unwrap();
    let value = evaluate(node).unwrap();
    println!("{:#?}", value);
    assert_eq!(value.as_str(), "ab");
}

#[test]
fn test_equals() {
    let sample = r#"
            if 1 == 2 {
                3
            } else {
                4
            }
        "#;
    let node = parse(sample).unwrap();
    let node = compile(node).unwrap();
    assert_eq!(evaluate(node).unwrap().as_int(), &BigInt::from_u64(4));
}

#[test]
fn test_let_in() {
    let sample = r#"
            let a = 1;
                b = a + 1;
                f x y = x * y + b;
            in (f 2 a)
        "#;
    let node = parse(sample).unwrap();
    let node = compile(node).unwrap();
    assert_eq!(evaluate(node).unwrap().as_int(), &number(4));
}

#[test]
fn test_string_litteral() {
    let sample = r#"
            "ab\"\\"
        "#;
    println!("{}", sample);
    let node = parse(sample).unwrap();
    let node = compile(node).unwrap();
    assert_eq!(evaluate(node).unwrap().as_str(), "ab\"\\");
}

#[test]
fn test_simple_string_litteral() {
    let sample = r#"
            "ab"
        "#;
    let node = parse(sample).unwrap();
    let node = compile(node).unwrap();
    assert_eq!(evaluate(node).unwrap().as_str(), "ab");
}

#[test]
fn test_apply_unuary_precedence() {
    let sample = r#"
            let mul_two x = x * 2;
            in mul_two 1 - 1
        "#;
    let node = parse(sample).unwrap();
    let node = compile(node).unwrap();
    assert_eq!(evaluate(node).unwrap().as_int(), &number(1));
}

#[test]
fn test_apply_mul_precedence() {
    let sample = r#"
            let mul_two x = x * 2;
            in 2 * mul_two 1
        "#;
    let node = parse(sample).unwrap();
    let node = compile(node).unwrap();
    assert_eq!(evaluate(node).unwrap().as_int(), &number(4));
}

#[test]
fn test_infix_sequence() {
    let sample = r#"
            2 + 1 * 2 - 1
        "#;
    let node = parse(sample).unwrap();
    let node = compile(node).unwrap();
    assert_eq!(evaluate(node).unwrap().as_int(), &number(5));
}

#[test]
fn test_rec() {
    let sample = r#"
            let rec fac x = if x < 2 { x } else { x * (fac (x - 1)) };
            in fac 3
        "#;
    let node = parse(sample).unwrap();
    let node = compile(node).unwrap();
    assert_eq!(evaluate(node).unwrap().as_int(), &number(6));
}

#[test]
fn test_rec_prio() {
    let sample = r#"
            let rec fac x = if x < 2 { x } else { x * fac (x - 1) };
            in fac 3
        "#;
    let node = parse(sample).unwrap();
    let node = compile(node).unwrap();
    assert_eq!(evaluate(node).unwrap().as_int(), &number(6));
}

#[test]
fn test_integer() {
    let sample = r" 1 ";
    let node = parse(sample).unwrap();
    assert_eq!(evaluate(compile(node).unwrap()).unwrap().as_int(), &number(1));
}

#[test]
fn test_comment() {
    let sample = r#"
            // a
            1
        "#;
    let node = parse(sample).unwrap();
    assert_eq!(evaluate(compile(node).unwrap()).unwrap().as_int(), &number(1));
}

#[test]
fn test_variable() {
    let sample = r" a ";
    let node = parse(sample).unwrap();
    assert_eq!(node, LNode::var(Iden::new("a".to_owned())));
}

#[test]
fn test_apply_fancy() {
    let sample = r" f (g 1) b";
    parse(sample).unwrap();
}

#[test]
fn test_let_in_integer() {
    let sample = r#"
            let a = 1;
            in a
        "#;
    let node = parse(sample).unwrap();
    assert_eq!(evaluate(compile(node).unwrap()).unwrap().as_int(), &number(1));
}

#[test]
fn test_function_call() {
    let sample = r#"
            let f a = a; in f 1
        "#;
    let node = parse(sample).unwrap();
    assert_eq!(evaluate(compile(node).unwrap()).unwrap().as_int(), &number(1));
}

#[test]
fn test_if() {
    let sample = r#"
            if true { 1 } else { 2 }
        "#;
    let node = parse(sample).unwrap();
    assert_eq!(evaluate(compile(node).unwrap()).unwrap().as_int(), &number(1));
}

#[test]
fn test_sub() {
    let sample = r#"
            x - 1
        "#;
    let node = parse(sample).unwrap();
    assert_eq!(
        Rc::new(LNode::BinaryOp {
            op: BinaryOp::IntSub,
            left: LNode::var(Iden::new("x".to_owned())),
            right: LNode::integer(1),
        }),
        node
    );
}

#[test]
fn test_apply() {
    let sample = r#"
            a b
        "#;
    let node = parse(sample).unwrap();
    assert_eq!(
        LNode::apply(
            LNode::var(Iden::new("a".to_owned())),
            LNode::var(Iden::new("b".to_owned()))
        ),
        node
    );
}

#[test]
fn test_call_params() {
    let sample = r#"
            fac (x - 1)
        "#;
    let node = parse(sample).unwrap();
    println!("{:#?}", node);
}

#[test]
fn take_and_drop_exchange_their_operands() {
    assert_eq!(run("\"abcd\" drop 1").as_str(), "bcd");
    assert_eq!(run("\"abcd\" take 3").as_str(), "abc");
}

#[test]
fn prefix_operators() {
    assert_eq!(run("-3").as_int(), &number(-3));
    assert_eq!(run("!true").as_bool(), false);
    assert_eq!(run("str2int\"test\"").as_int(), &number(15818151));
    assert_eq!(run("int2str(15818151)").as_str(), "test");
    assert_eq!(run("int2str15818151").as_str(), "test");
    assert_eq!(run("str2int(int2str(0))").as_int(), &number(0));
    // nothing may stand between a prefix operator and its operand
    assert!(parse("int2str 15818151").is_err());
}

#[test]
fn operators_of_every_kind() {
    assert_eq!(run("7 / 2").as_int(), &number(3));
    assert_eq!(run("7 % 2").as_int(), &number(1));
    assert_eq!(run("1 < 2").as_bool(), true);
    assert_eq!(run("1 > 2").as_bool(), false);
    assert_eq!(run("true | false").as_bool(), true);
    assert_eq!(run("true & false").as_bool(), false);
    assert_eq!(run("\"a\" == \"a\"").as_bool(), true);
}

#[test]
fn texts_that_are_no_program() {
    assert!(parse("").is_err());
    assert!(parse("1 +").is_err());
    assert!(parse("(1").is_err());
    assert!(parse("- 1").is_err());
    assert!(parse("\"a\\n\"").is_err());
    assert!(parse("\"{\"").is_err());
    assert!(parse("let a = 1; a").is_err());
    assert!(parse("let a= 1; in a").is_err());
    assert!(parse("if true { 1 }").is_err());
    assert!(parse("99999999999999999999").is_err());
    assert!(parse("take").is_err());
    assert!(parse("1 é").is_err());
    assert!(parse("//\n1").is_err());
    // a condition that begins with a name is read as a binding, and `=` then
    // wants a value
    assert!(parse("let a = 1; in x == 2").is_err());
}

#[test]
fn comments_and_blanks_separate() {
    assert_eq!(run("1 // one é\n + // plus\n 2").as_int(), &number(3));
    assert_eq!(run("\t1\r\n+\n2 ").as_int(), &number(3));
}

#[test]
fn recursion_needs_a_parameter() {
    let node = parse("let rec a = 1; in a").unwrap();
    assert_eq!(compile(node), Err(CompileError::RecursionWithoutParams));
}

#[test]
fn name_without_definition() {
    let node = parse("let a = 1; in b").unwrap();
    assert_eq!(compile(node), Err(CompileError::UnresolvedName));
    let node = parse("x - 1").unwrap();
    assert_eq!(compile(node), Err(CompileError::UnresolvedName));
}

#[test]
fn definitions_may_refer_to_later_ones() {
    assert_eq!(run("let a = b; b = 1; in a").as_int(), &number(1));
}

#[test]
fn one_fixed_point_combinator_for_two_recursive_functions() {
    let sample = r#"
            let rec fac x = if x < 2 { 1 } else { x * fac (x - 1) };
                rec sum x = if x < 1 { 0 } else { x + sum (x - 1) };
            in fac 4 + sum 4
        "#;
    let node = compile(parse(sample).unwrap()).unwrap();
    let text = serialize_str(node.clone());
    // names take the variables 0 to 2 (`fac`, `x`, `sum`); the combinator is
    // variable 5 and is defined over the variables 3 and 4
    let definition = "L$ B$ L% B$ v$ B$ v% v% L% B$ v$ B$ v% v%";
    assert!(text.starts_with("B$ L& "));
    assert!(text.ends_with(definition));
    assert_eq!(text.matches(definition).count(), 1);
    assert_eq!(text.matches("B$ v& ").count(), 2);
    assert_eq!(evaluate(node).unwrap().as_int(), &number(34));
}

#[test]
fn no_fixed_point_combinator_without_recursion() {
    let node = compile(parse("let f x = x + 1; in f 1").unwrap()).unwrap();
    assert_eq!(serialize_str(node), "B$ L! B$ v! I\" L\" B+ v\" I\"");
}

#[test]
fn unbound_recursion_runs_away() {
    let node = compile(parse("let rec f x = f x; in f 1").unwrap()).unwrap();
    assert_eq!(evaluate(node), Err(EvalError::Runaway));
}
