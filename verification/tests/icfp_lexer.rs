use icfl_toolkit::bigint::BigInt;
use icfl_toolkit::icfp::lexer::LexError;
use icfl_toolkit::icfp::parse;
use icfl_toolkit::icfp::serialize_str;
use icfl_toolkit::icfp::Node;
use icfl_toolkit::icfp::Token;
use icfl_toolkit::icfp::Value;
use std::rc::Rc;

#[test]
fn lexer_bool_true() {
    let mut lex = Token::lexer("T");
    assert_eq!(lex.next().unwrap().unwrap(), Token::True);
    assert_eq!(lex.next(), None);
}

#[test]
fn lexer_bool_false() {
    let mut lex = Token::lexer("F");
    assert_eq!(lex.next().unwrap().unwrap(), Token::False);
    assert_eq!(lex.next(), None);
}

#[test]
fn lexer_integer() {
    let mut lex = Token::lexer("I/6");
    assert_eq!(lex.next().unwrap().unwrap(), Token::Integer(BigInt::from_u64(1337)));
    assert_eq!(lex.next(), None);
}

#[test]
fn lexer_string() {
    let mut lex = Token::lexer("SB%,,/}Q/2,$_");
    assert_eq!(lex.next().unwrap().unwrap(), Token::String("Hello World!".to_string()));
    assert_eq!(lex.next(), None);
}

#[test]
fn lexer_eval_example() {
    let mut lex = Token::lexer("B$ L# B$ L\" B+ v\" v\" B* I$ I# v8");
    assert_eq!(lex.next().unwrap().unwrap(), Token::Apply);
    assert_eq!(lex.next().unwrap().unwrap(), Token::Lambda(2));
    assert_eq!(lex.next().unwrap().unwrap(), Token::Apply);
    assert_eq!(lex.next().unwrap().unwrap(), Token::Lambda(1));
    assert_eq!(lex.next().unwrap().unwrap(), Token::Add);
    assert_eq!(lex.next().unwrap().unwrap(), Token::Variable(1));
    assert_eq!(lex.next().unwrap().unwrap(), Token::Variable(1));
    assert_eq!(lex.next().unwrap().unwrap(), Token::Multiply);
    assert_eq!(lex.next().unwrap().unwrap(), Token::Integer(BigInt::from_u64(3)));
    assert_eq!(lex.next().unwrap().unwrap(), Token::Integer(BigInt::from_u64(2)));
    assert_eq!(lex.next().unwrap().unwrap(), Token::Variable(23));
}

#[test]
fn lexer_lambdaman10() {
    let mut lex = Token::lexer("B. SF B$ B$ L\" B$ L# B$ v\" B$ v# v# L# B$ v\" B$ v# v# L\" L# ? B= v# I;Y S B. ? B= B% v# IS I! S~ S B. ? B= B% v# I, I! Sa Sl B$ v\" B+ v# I\" I\"");
    lex.collect().expect("Failed to lex the program");
}

#[test]
fn loopback() {
    let reference: &str = r#"? B= B$ B$ B$ B$ L$ L$ L$ L# v$ I" I# I$ I% I$ ? B= B$ L$ v$ I+ I+ ? B= BD I$ S4%34 S4 ? B= BT I$ S4%34 S4%3 ? B= B. S4% S34 S4%34 ? U! B& T F ? B& T T ? U! B| F F ? B| F T ? B< U- I$ U- I# ? B> I$ I# ? B= U- I" B% U- I$ I# ? B= I" B% I( I$ ? B= U- I" B/ U- I$ I# ? B= I# B/ I( I$ ? B= I' B* I# I$ ? B= I$ B+ I" I# ? B= U$ I4%34 S4%34 ? B= U# S4%34 I4%34 ? U! F ? B= U- I$ B- I# I& ? B= I$ B- I& I# ? B= S4%34 S4%34 ? B= F F ? B= I$ I$ ? T B. B. SM%,&k#(%#+}IEj}3%.$}z3/,6%},!.'5!'%y4%34} U$ B+ I# B* I$> I1~s:U@ Sz}4/}#,!)-}0/).43}&/2})4 S)&})3}./4}#/22%#4 S").!29}q})3}./4}#/22%#4 S").!29}q})3}./4}#/22%#4 S").!29}q})3}./4}#/22%#4 S").!29}k})3}./4}#/22%#4 S5.!29}k})3}./4}#/22%#4 S5.!29}_})3}./4}#/22%#4 S5.!29}a})3}./4}#/22%#4 S5.!29}b})3}./4}#/22%#4 S").!29}i})3}./4}#/22%#4 S").!29}h})3}./4}#/22%#4 S").!29}m})3}./4}#/22%#4 S").!29}m})3}./4}#/22%#4 S").!29}c})3}./4}#/22%#4 S").!29}c})3}./4}#/22%#4 S").!29}r})3}./4}#/22%#4 S").!29}p})3}./4}#/22%#4 S").!29}{})3}./4}#/22%#4 S").!29}{})3}./4}#/22%#4 S").!29}d})3}./4}#/22%#4 S").!29}d})3}./4}#/22%#4 S").!29}l})3}./4}#/22%#4 S").!29}N})3}./4}#/22%#4 S").!29}>})3}./4}#/22%#4 S!00,)#!4)/.})3}./4}#/22%#4 S!00,)#!4)/.})3}./4}#/22%#4"#;
    let mut lexer = Token::lexer(reference);
    let ast = parse(&mut lexer).unwrap();
    assert_eq!(&serialize_str(ast), reference);
}

#[test]
fn fields_that_are_no_token() {
    assert_eq!(Token::lexer("I").next(), Some(Err(LexError::Malformed(0))));
    assert_eq!(Token::lexer("  Tx").next(), Some(Err(LexError::Malformed(2))));
    assert_eq!(Token::lexer("x").next(), Some(Err(LexError::Malformed(0))));
    assert_eq!(Token::lexer("B^").next(), Some(Err(LexError::Malformed(0))));
    assert_eq!(Token::lexer("U+").next(), Some(Err(LexError::Malformed(0))));
    assert_eq!(Token::lexer("\t").next(), Some(Err(LexError::Malformed(0))));
    assert_eq!(Token::lexer("L~~~~~~~~~~~").next(), Some(Err(LexError::Malformed(0))));
    assert_eq!(Token::lexer("   ").next(), None);
    assert_eq!(Token::lexer("S").next(), Some(Ok(Token::String(String::new()))));
}

#[test]
fn zero_is_written_with_one_digit() {
    assert_eq!(Token::Integer(BigInt::zero()).to_text(), "I!");
    assert_eq!(Token::Lambda(0).to_text(), "L!");
    assert_eq!(Token::Variable(0).to_text(), "v!");
    assert_eq!(Token::lexer("v!").next(), Some(Ok(Token::Variable(0))));
}

#[test]
fn collect_reads_to_the_end() {
    assert_eq!(
        Token::lexer("  B+ I# ? ").collect(),
        Ok(vec![Token::Add, Token::Integer(BigInt::from_u64(2)), Token::If])
    );
    assert_eq!(Token::lexer("").collect(), Ok(vec![]));
    assert_eq!(Token::lexer("B+ Bx I#").collect(), Err(LexError::Malformed(3)));
    let mut lexer = Token::lexer("T F");
    assert_eq!(lexer.next(), Some(Ok(Token::True)));
    assert_eq!(lexer.collect(), Ok(vec![Token::False]));
    assert_eq!(lexer.next(), None);
}

#[test]
fn every_token_is_written_as_it_is_read() {
    let text = "T F I/6 SB%,,/ U- U! U# U$ B+ B- B* B/ B% B< B> B= B| B& B. BT BD B$ ? L# v#";
    let tokens = Token::lexer(text).collect().unwrap();
    assert_eq!(tokens.len(), 25);
    let written: Vec<String> = tokens.iter().map(|t| t.to_text()).collect();
    assert_eq!(written.join(" "), text);
    assert!(tokens.iter().all(|t| t.is_writable()));
    assert!(!Token::String("{".to_string()).is_writable());
    assert!(!Token::String("é".to_string()).is_writable());
    // the integers of the wire have no sign
    assert!(!Token::Integer(BigInt::from_i64(-1)).is_writable());
    assert!(Token::Integer(BigInt::zero()).is_writable());
}

#[test]
fn negative_literal_is_written_as_a_negation() {
    let node = Rc::new(Node::Value(Value::Int(BigInt::from_i64(-3))));
    assert_eq!(serialize_str(node), "U- I$");
}
