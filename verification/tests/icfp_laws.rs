use std::rc::Rc;

use icfl_toolkit::bigint::BigInt;
use icfl_toolkit::icfp::evaluate;
use icfl_toolkit::icfp::parse;
use icfl_toolkit::icfp::parser::parse_str;
use icfl_toolkit::icfp::serialize;
use icfl_toolkit::icfp::serialize_str;
use icfl_toolkit::icfp::serializer::is_writable;
use icfl_toolkit::icfp::BinaryOp;
use icfl_toolkit::icfp::EvalError;
use icfl_toolkit::icfp::EvalStrat;
use icfl_toolkit::icfp::Node;
use icfl_toolkit::icfp::NodeRef;
use icfl_toolkit::icfp::ParsingError;
use icfl_toolkit::icfp::Token;
use icfl_toolkit::icfp::UnuaryOp;
use icfl_toolkit::icfp::Value;
use icfl_toolkit::icfp::VarId;

fn number(v: i64) -> NodeRef {
    Rc::new(Node::Value(Value::Int(BigInt::from_i64(v))))
}

fn text(s: &str) -> NodeRef {
    Rc::new(Node::Value(Value::Str(s.to_string())))
}

fn truth(b: bool) -> NodeRef {
    Rc::new(Node::Value(Value::Bool(b)))
}

fn binary(op: BinaryOp, left: NodeRef, right: NodeRef) -> NodeRef {
    Rc::new(Node::BinaryOp { op, left, right })
}

fn unary(op: UnuaryOp, body: NodeRef) -> NodeRef {
    Rc::new(Node::UnuaryOp { op, body })
}

fn eval(code: &str) -> Result<Value, EvalError> {
    evaluate(parse_str(code).unwrap())
}

#[test]
fn parser_reads_back_what_the_serializer_writes() {
    let ast = Rc::new(Node::If {
        cond: binary(BinaryOp::Eq, Node::var(VarId::new(0)), number(0)),
        then_do: Node::lambda(
            VarId::new(94),
            Node::apply(EvalStrat::Name, Node::var(VarId::new(94)), text("a b\n\"\\")),
        ),
        else_do: unary(UnuaryOp::BoolNot, binary(BinaryOp::StrTake, number(1337), truth(false))),
    });
    assert!(is_writable(&ast));
    let written = serialize_str(ast.clone());
    assert_eq!(written, "? B= v! I! L\"! B$ v\"! S!}\"~`v U! BT I/6 F");
    assert_eq!(parse_str(&written), Ok(ast.clone()));
    assert_eq!(serialize(ast).len(), 12);
}

#[test]
fn text_outside_the_alphabet_cannot_be_written() {
    assert!(!is_writable(&binary(BinaryOp::StrConcat, text("a"), text("{"))));
    assert!(is_writable(&binary(BinaryOp::StrConcat, text("a"), text(""))));
}

#[test]
fn parser_stops_behind_one_expression() {
    let mut lexer = Token::lexer("B+ I# I$ T garbage{");
    assert_eq!(parse(&mut lexer), Ok(binary(BinaryOp::IntAdd, number(2), number(3))));
    assert_eq!(lexer.next(), Some(Ok(Token::True)));
}

#[test]
fn texts_that_are_no_expression() {
    assert_eq!(parse_str(""), Err(ParsingError::EmptyTokenStream));
    assert_eq!(parse_str("   "), Err(ParsingError::EmptyTokenStream));
    assert_eq!(parse_str("B+ I#"), Err(ParsingError::EmptyTokenStream));
    assert_eq!(parse_str("? T T"), Err(ParsingError::EmptyTokenStream));
    assert_eq!(parse_str("B+ I# {"), Err(ParsingError::LexerError));
    assert_eq!(parse_str("X"), Err(ParsingError::LexerError));
}

#[test]
fn identity_function_yields_its_argument() {
    let identity = Node::lambda(VarId::new(7), Node::var(VarId::new(7)));
    let applied = Node::apply(EvalStrat::Name, identity, text("kept"));
    assert_eq!(evaluate(applied), Ok(Value::Str("kept".to_string())));
    assert_eq!(eval("B$ L' v' B+ I# I$"), Ok(Value::Int(BigInt::from_i64(5))));
}

#[test]
fn conditional_takes_the_chosen_branch() {
    assert_eq!(eval("? T I# I$"), Ok(Value::Int(BigInt::from_i64(2))));
    assert_eq!(eval("? F I# I$"), Ok(Value::Int(BigInt::from_i64(3))));
    // the branch that is not chosen is never folded
    assert_eq!(eval("? T I# B/ I# I!"), Ok(Value::Int(BigInt::from_i64(2))));
    assert_eq!(eval("? F I# B/ I# I!"), Err(EvalError::DivideByZero));
    // a condition that is no boolean leaves the conditional standing
    assert_eq!(eval("? I# I# I$"), Err(EvalError::NonValue));
}

#[test]
fn neutral_and_absorbing_elements() {
    assert_eq!(eval("B+ I( I!"), Ok(Value::Int(BigInt::from_i64(7))));
    assert_eq!(eval("B* I( I!"), Ok(Value::Int(BigInt::zero())));
    assert_eq!(eval("B. S S4%34"), Ok(Value::Str("test".to_string())));
}

#[test]
fn identities_on_operands_that_are_no_literals() {
    // under a lambda nothing is substituted, so the operand stays a variable
    let cases = [
        ("L# B+ v# I!", "L# v#"),
        ("L# B+ I! v#", "L# v#"),
        ("L# B- v# I!", "L# v#"),
        ("L# B* v# I!", "L# I!"),
        ("L# B* I! v#", "L# I!"),
        ("L# B* v# I\"", "L# v#"),
        ("L# B* I\" v#", "L# v#"),
        ("L# B/ v# I\"", "L# v#"),
        ("L# B| F v#", "L# v#"),
        ("L# B| v# F", "L# v#"),
        ("L# B| v# T", "L# T"),
        ("L# B& T v#", "L# v#"),
        ("L# B& v# F", "L# F"),
        ("L# B. S v#", "L# v#"),
        ("L# B. v# S", "L# v#"),
        ("L# BT I! v#", "L# v#"),
        ("L# BD I! v#", "L# v#"),
        // a chain of literals is folded from the head
        ("L# B+ I# B+ I$ v#", "L# B+ I& v#"),
        ("L# B* I# B* I$ v#", "L# B* I' v#"),
        ("L# B. S4% B. S34 v#", "L# B. S4%34 v#"),
        ("L# B| T B| F v#", "L# T"),
        // an identity applies before a literal whatever follows it
        ("L# B+ I! B* v# v#", "L# B* v# v#"),
        ("L# B| F B| F B| v# v#", "L# B| v# v#"),
        ("L# B& T B& T B& v# v#", "L# B& v# v#"),
        ("L# B. S B. v# v#", "L# B. v# v#"),
        ("L# B* I! B* v# v#", "L# I!"),
        // subtraction is no chain
        ("L# B- I# B- I$ v#", "L# B- I# B- I$ v#"),
    ];
    for (source, folded) in cases {
        let tree = parse_str(source).unwrap();
        let (reduced, _) = icfl_toolkit::icfp::eval::strict_reduction(&tree).unwrap();
        let (reduced, _) = icfl_toolkit::icfp::eval::strict_reduction(&reduced).unwrap();
        assert_eq!(serialize_str(reduced), folded, "{}", source);
    }
}

#[test]
fn number_to_text_and_back() {
    for n in [0i64, 1, 93, 94, 15818151, i64::MAX] {
        let there = evaluate(unary(UnuaryOp::IntToStr, number(n))).unwrap();
        let back = evaluate(unary(UnuaryOp::StrToInt, Rc::new(Node::Value(there))));
        assert_eq!(back, Ok(Value::Int(BigInt::from_i64(n))));
    }
    assert_eq!(eval("U$ I!"), Ok(Value::Str("a".to_string())));
    assert_eq!(eval("U# S"), Ok(Value::Int(BigInt::zero())));
    assert_eq!(
        evaluate(unary(UnuaryOp::StrToInt, text("{"))),
        Err(EvalError::TypeMismatch)
    );
}

#[test]
fn take_of_a_concatenation() {
    for n in 0..=3 {
        let whole = binary(
            BinaryOp::StrTake,
            number(n),
            binary(BinaryOp::StrConcat, text("abc"), text("def")),
        );
        let part = binary(BinaryOp::StrTake, number(n), text("abc"));
        assert_eq!(evaluate(whole), evaluate(part));
    }
    // beyond the end, all of the text is taken and nothing is left to drop
    assert_eq!(eval("BT I~ S4%34"), Ok(Value::Str("test".to_string())));
    assert_eq!(eval("BD I~ S4%34"), Ok(Value::Str(String::new())));
    // texts are counted in characters
    let umlaut = binary(BinaryOp::StrTake, number(2), text("äöü"));
    assert_eq!(evaluate(umlaut), Ok(Value::Str("äö".to_string())));
}

#[test]
fn every_value_equals_itself() {
    assert_eq!(eval("B= I/6 I/6"), Ok(Value::Bool(true)));
    assert_eq!(eval("B= S4%34 S4%34"), Ok(Value::Bool(true)));
    assert_eq!(eval("B= T T"), Ok(Value::Bool(true)));
    // values of different kinds are different
    assert_eq!(eval("B= T I\""), Ok(Value::Bool(false)));
    assert_eq!(eval("B= S I!"), Ok(Value::Bool(false)));
}

#[test]
fn laws_need_operands_of_the_right_kind() {
    // zero added to a text
    assert_eq!(eval("B+ S4%34 I!"), Err(EvalError::TypeMismatch));
    assert_eq!(eval("B* T I!"), Err(EvalError::TypeMismatch));
    assert_eq!(eval("B. S I\""), Err(EvalError::TypeMismatch));
    // a free variable in the branch that is not chosen is met by the beta pass
    assert_eq!(eval("? T I\" v#"), Err(EvalError::FreeVariable));
}

#[test]
fn laws_of_expressions() {
    // the operand is an application that evaluates to 5
    let five = "B$ L# B+ v# I# I$";
    assert_eq!(eval(five), Ok(Value::Int(BigInt::from_i64(5))));
    assert_eq!(eval(&format!("B+ {} I!", five)), eval(five));
    assert_eq!(eval(&format!("B* {} I!", five)), Ok(Value::Int(BigInt::zero())));
    assert_eq!(eval(&format!("? T {} I!", five)), eval(five));
    assert_eq!(eval(&format!("? F I! {}", five)), eval(five));
    assert_eq!(eval(&format!("B$ L% v% {}", five)), eval(five));
    let text = "B$ L# B. v# S34 S4%";
    assert_eq!(eval(text), Ok(Value::Str("test".to_string())));
    assert_eq!(eval(&format!("B. S {}", text)), eval(text));
}

#[test]
fn evaluation_ends_with_the_first_pass_without_substitution() {
    // the strict pass uncovers a function, and no beta pass follows
    let stuck = "B$ ? T L\" v\" I! I&";
    assert_eq!(eval(stuck), Err(EvalError::NonValue));
    // behind a substitution another beta pass follows
    assert_eq!(eval(&format!("B$ L% v% {}", stuck)), Ok(Value::Int(BigInt::from_i64(5))));
}

#[test]
fn take_of_nothing_depends_on_the_order_of_the_passes() {
    // the operand of `take 0` is an application that evaluates to "te"
    let taken = "BT I! B$ L# v# S4%";
    // the beta pass comes first and leaves a literal: nothing of it is taken
    assert_eq!(eval(taken), Ok(Value::Str(String::new())));
    // behind the identity function the strict pass comes first, and the
    // operand that is no literal yet stands for the whole
    assert_eq!(eval(&format!("B$ L' v' {}", taken)), Ok(Value::Str("te".to_string())));
    // an operand that needs two beta passes is no literal at the first
    // strict pass
    let slow = "B$ L# B$ L$ v$ v# S4%";
    assert_eq!(eval(slow), Ok(Value::Str("te".to_string())));
    assert_eq!(eval(&format!("BT I! B. {} S34", slow)), Ok(Value::Str("test".to_string())));
    assert_eq!(eval(&format!("BT I! {}", slow)), Ok(Value::Str("te".to_string())));
}

#[test]
fn identity_function_and_an_argument_without_applications() {
    assert_eq!(eval("B$ L' v' B* B+ I# I$ I%"), eval("B* B+ I# I$ I%"));
    assert_eq!(eval("B$ L' v' ? B< I# I$ S4% S34"), eval("? B< I# I$ S4% S34"));
}
