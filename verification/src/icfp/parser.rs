//! The parser of the wire syntax: prefix notation, one token for each node.

use crate::icfp::ast::BinaryOp;
use crate::icfp::ast::EvalStrat;
use crate::icfp::ast::Literal;
use crate::icfp::ast::Node;
use crate::icfp::ast::NodeRef;
use crate::icfp::ast::Term;
use crate::icfp::ast::UnuaryOp;
use crate::icfp::ast::Value;
use crate::icfp::ast::VarId;
use crate::icfp::lexer::lemma_next_lexeme_advances;
use crate::icfp::lexer::next_lexeme;
use crate::icfp::lexer::Lexeme;
use crate::icfp::lexer::Lexer;
use crate::icfp::lexer::Token;
use std::rc::Rc;
use vstd::prelude::*;
use vstd::string::StringSliceAdditionalSpecFns;

verus! {

/// Why a text is no program.
#[derive(Debug, Clone, Copy, PartialEq, Eq, Structural)]
pub enum ParsingError {
    /// The text ended where a token was needed.
    EmptyTokenStream,
    /// A field is no token.
    LexerError,
}

/// What a token begins: a finished expression, or a node with one, two or
/// three children.
pub enum Head {
    Leaf(Term),
    Unary(UnuaryOp),
    Binary(BinaryOp),
    Apply,
    If,
    Lambda(u64),
}

/// What a token begins.
#[verifier::opaque]
pub open spec fn head_of(lexeme: Lexeme) -> Head {
    match lexeme {
        Lexeme::True => Head::Leaf(Term::Value(Literal::Bool(true))),
        Lexeme::False => Head::Leaf(Term::Value(Literal::Bool(false))),
        Lexeme::Integer(n) => Head::Leaf(Term::Value(Literal::Int(n))),
        Lexeme::String(s) => Head::Leaf(Term::Value(Literal::Str(s))),
        Lexeme::UnaryMinus => Head::Unary(UnuaryOp::IntNeg),
        Lexeme::UnaryNot => Head::Unary(UnuaryOp::BoolNot),
        Lexeme::StringToInt => Head::Unary(UnuaryOp::StrToInt),
        Lexeme::IntToString => Head::Unary(UnuaryOp::IntToStr),
        Lexeme::Add => Head::Binary(BinaryOp::IntAdd),
        Lexeme::Subtract => Head::Binary(BinaryOp::IntSub),
        Lexeme::Multiply => Head::Binary(BinaryOp::IntMul),
        Lexeme::Divide => Head::Binary(BinaryOp::IntDiv),
        Lexeme::Modulo => Head::Binary(BinaryOp::IntMod),
        Lexeme::LessThan => Head::Binary(BinaryOp::IntLt),
        Lexeme::GreaterThan => Head::Binary(BinaryOp::IntGt),
        Lexeme::Equal => Head::Binary(BinaryOp::Eq),
        Lexeme::Or => Head::Binary(BinaryOp::BoolOr),
        Lexeme::And => Head::Binary(BinaryOp::BoolAnd),
        Lexeme::StringConcat => Head::Binary(BinaryOp::StrConcat),
        Lexeme::Take => Head::Binary(BinaryOp::StrTake),
        Lexeme::Drop => Head::Binary(BinaryOp::StrDrop),
        Lexeme::Apply => Head::Apply,
        Lexeme::If => Head::If,
        Lexeme::Lambda(id) => Head::Lambda(id),
        Lexeme::Variable(id) => Head::Leaf(Term::Variable(id)),
    }
}

/// The expression that begins at or after `pos`, and the position behind it.
///
/// One token is read; an operator then takes its children from what follows,
/// left to right. What follows the expression is not looked at. The tests
/// `pos < p <= bytes.len()` hold of every token and every expression (see
/// [`lemma_parse_advances`]); they make the definition well-founded.
pub open spec fn parse_term(bytes: Seq<u8>, pos: int) -> Result<(Term, int), ParsingError>
    decreases bytes.len() - pos,
{
    match next_lexeme(bytes, pos) {
        None => Err(ParsingError::EmptyTokenStream),
        Some((Err(_), _)) => Err(ParsingError::LexerError),
        Some((Ok(lexeme), p0)) => if !(pos < p0 <= bytes.len()) {
            Err(ParsingError::LexerError)
        } else {
            match head_of(lexeme) {
                Head::Leaf(t) => Ok((t, p0)),
                Head::Unary(op) => match parse_term(bytes, p0) {
                    Err(e) => Err(e),
                    Ok((body, p1)) => Ok((Term::UnuaryOp { op, body: Box::new(body) }, p1)),
                },
                Head::Lambda(var) => match parse_term(bytes, p0) {
                    Err(e) => Err(e),
                    Ok((body, p1)) => Ok((Term::Lambda { var, body: Box::new(body) }, p1)),
                },
                Head::Binary(op) => match parse_term(bytes, p0) {
                    Err(e) => Err(e),
                    Ok((left, p1)) => if !(pos < p1 <= bytes.len()) {
                        Err(ParsingError::LexerError)
                    } else {
                        match parse_term(bytes, p1) {
                            Err(e) => Err(e),
                            Ok((right, p2)) => Ok(
                                (
                                    Term::BinaryOp {
                                        op,
                                        left: Box::new(left),
                                        right: Box::new(right),
                                    },
                                    p2,
                                ),
                            ),
                        }
                    },
                },
                Head::Apply => match parse_term(bytes, p0) {
                    Err(e) => Err(e),
                    Ok((f, p1)) => if !(pos < p1 <= bytes.len()) {
                        Err(ParsingError::LexerError)
                    } else {
                        match parse_term(bytes, p1) {
                            Err(e) => Err(e),
                            Ok((value, p2)) => Ok(
                                (Term::Apply { f: Box::new(f), value: Box::new(value) }, p2),
                            ),
                        }
                    },
                },
                Head::If => match parse_term(bytes, p0) {
                    Err(e) => Err(e),
                    Ok((cond, p1)) => if !(pos < p1 <= bytes.len()) {
                        Err(ParsingError::LexerError)
                    } else {
                        match parse_term(bytes, p1) {
                            Err(e) => Err(e),
                            Ok((then_do, p2)) => if !(pos < p2 <= bytes.len()) {
                                Err(ParsingError::LexerError)
                            } else {
                                match parse_term(bytes, p2) {
                                    Err(e) => Err(e),
                                    Ok((else_do, p3)) => Ok(
                                        (
                                            Term::If {
                                                cond: Box::new(cond),
                                                then_do: Box::new(then_do),
                                                else_do: Box::new(else_do),
                                            },
                                            p3,
                                        ),
                                    ),
                                }
                            },
                        }
                    },
                },
            }
        },
    }
}

/// An expression ends behind the place where it begins, and inside the text.
pub proof fn lemma_parse_advances(bytes: Seq<u8>, pos: int)
    ensures
        parse_term(bytes, pos) matches Ok((_, end)) ==> 0 <= pos < end <= bytes.len(),
    decreases bytes.len() - pos,
{
    lemma_next_lexeme_advances(bytes, pos);
    match next_lexeme(bytes, pos) {
        Some((Ok(lexeme), p0)) => {
            match head_of(lexeme) {
                Head::Leaf(t) => {},
                Head::Unary(_) | Head::Lambda(_) => {
                    lemma_parse_advances(bytes, p0);
                },
                Head::Binary(_) | Head::Apply => {
                    lemma_parse_advances(bytes, p0);
                    if let Ok((_, p1)) = parse_term(bytes, p0) {
                        lemma_parse_advances(bytes, p1);
                    }
                },
                Head::If => {
                    lemma_parse_advances(bytes, p0);
                    if let Ok((_, p1)) = parse_term(bytes, p0) {
                        lemma_parse_advances(bytes, p1);
                        if let Ok((_, p2)) = parse_term(bytes, p1) {
                            lemma_parse_advances(bytes, p2);
                        }
                    }
                },
            }
        },
        _ => {},
    }
}

/// What a token begins, with the finished expression built.
enum TokenHead {
    Leaf(NodeRef),
    Unary(UnuaryOp),
    Binary(BinaryOp),
    Apply,
    If,
    Lambda(u64),
}

impl View for TokenHead {
    type V = Head;

    closed spec fn view(&self) -> Head {
        match self {
            TokenHead::Leaf(node) => Head::Leaf(node@),
            TokenHead::Unary(op) => Head::Unary(*op),
            TokenHead::Binary(op) => Head::Binary(*op),
            TokenHead::Apply => Head::Apply,
            TokenHead::If => Head::If,
            TokenHead::Lambda(id) => Head::Lambda(*id),
        }
    }
}

/// What a token begins.
fn classify(token: Token) -> (r: TokenHead)
    ensures
        r@ == head_of(token@),
{
    proof {
        reveal(head_of);
    }
    match token {
        Token::True => TokenHead::Leaf(Rc::new(Node::Value(Value::Bool(true)))),
        Token::False => TokenHead::Leaf(Rc::new(Node::Value(Value::Bool(false)))),
        Token::Integer(value) => TokenHead::Leaf(Rc::new(Node::Value(Value::Int(value)))),
        Token::String(value) => TokenHead::Leaf(Rc::new(Node::Value(Value::Str(value)))),
        Token::UnaryMinus => TokenHead::Unary(UnuaryOp::IntNeg),
        Token::UnaryNot => TokenHead::Unary(UnuaryOp::BoolNot),
        Token::StringToInt => TokenHead::Unary(UnuaryOp::StrToInt),
        Token::IntToString => TokenHead::Unary(UnuaryOp::IntToStr),
        Token::Add => TokenHead::Binary(BinaryOp::IntAdd),
        Token::Subtract => TokenHead::Binary(BinaryOp::IntSub),
        Token::Multiply => TokenHead::Binary(BinaryOp::IntMul),
        Token::Divide => TokenHead::Binary(BinaryOp::IntDiv),
        Token::Modulo => TokenHead::Binary(BinaryOp::IntMod),
        Token::LessThan => TokenHead::Binary(BinaryOp::IntLt),
        Token::GreaterThan => TokenHead::Binary(BinaryOp::IntGt),
        Token::Equal => TokenHead::Binary(BinaryOp::Eq),
        Token::Or => TokenHead::Binary(BinaryOp::BoolOr),
        Token::And => TokenHead::Binary(BinaryOp::BoolAnd),
        Token::StringConcat => TokenHead::Binary(BinaryOp::StrConcat),
        Token::Take => TokenHead::Binary(BinaryOp::StrTake),
        Token::Drop => TokenHead::Binary(BinaryOp::StrDrop),
        Token::Apply => TokenHead::Apply,
        Token::If => TokenHead::If,
        Token::Lambda(id) => TokenHead::Lambda(id),
        Token::Variable(id) => TokenHead::Leaf(Rc::new(Node::Variable(VarId::new(id)))),
    }
}

/// Reads one expression from the tokens of `lexer`.
///
/// On success the reader stands behind the expression; what follows is left
/// unread. Every application is tagged call-by-name.
pub fn parse(lexer: &mut Lexer) -> (r: Result<NodeRef, ParsingError>)
    ensures
        final(lexer).source() == old(lexer).source(),
        match parse_term(old(lexer).source(), old(lexer).offset()) {
            Ok((term, end)) => r.is_ok() && r.unwrap()@ == term && final(lexer).offset() == end,
            Err(e) => r == Err::<NodeRef, ParsingError>(e),
        },
    decreases old(lexer).source().len() - old(lexer).offset(), 1int,
{
    let ghost bytes = lexer.source();
    let ghost pos = lexer.offset();
    proof {
        lemma_next_lexeme_advances(bytes, pos);
    }
    let token = match lexer.next() {
        None => {
            return Err(ParsingError::EmptyTokenStream);
        },
        Some(Err(_)) => {
            return Err(ParsingError::LexerError);
        },
        Some(Ok(token)) => token,
    };
    proof {
        lemma_parse_advances(bytes, lexer.offset());
    }
    match classify(token) {
        TokenHead::Leaf(node) => Ok(node),
        TokenHead::Unary(op) => parse_unuary(lexer, op),
        TokenHead::Binary(op) => parse_bin(lexer, op),
        TokenHead::Lambda(id) => {
            let body = match parse(lexer) {
                Ok(node) => node,
                Err(e) => {
                    return Err(e);
                },
            };
            Ok(Rc::new(Node::Lambda { var: VarId::new(id), body }))
        },
        TokenHead::Apply => {
            proof {
                lemma_parse_advances(bytes, lexer.offset());
            }
            let f = match parse(lexer) {
                Ok(node) => node,
                Err(e) => {
                    return Err(e);
                },
            };
            let value = match parse(lexer) {
                Ok(node) => node,
                Err(e) => {
                    return Err(e);
                },
            };
            Ok(Rc::new(Node::Apply { strat: EvalStrat::Name, f, value }))
        },
        TokenHead::If => {
            proof {
                lemma_parse_advances(bytes, lexer.offset());
            }
            let cond = match parse(lexer) {
                Ok(node) => node,
                Err(e) => {
                    return Err(e);
                },
            };
            proof {
                lemma_parse_advances(bytes, lexer.offset());
            }
            let then_do = match parse(lexer) {
                Ok(node) => node,
                Err(e) => {
                    return Err(e);
                },
            };
            let else_do = match parse(lexer) {
                Ok(node) => node,
                Err(e) => {
                    return Err(e);
                },
            };
            Ok(Rc::new(Node::If { cond, then_do, else_do }))
        },
    }
}

/// The operand of a unary operator, read from the tokens behind it.
fn parse_unuary(lexer: &mut Lexer, op: UnuaryOp) -> (r: Result<NodeRef, ParsingError>)
    ensures
        final(lexer).source() == old(lexer).source(),
        match parse_term(old(lexer).source(), old(lexer).offset()) {
            Ok((body, end)) => r.is_ok() && r.unwrap()@ == (Term::UnuaryOp {
                op,
                body: Box::new(body),
            }) && final(lexer).offset() == end,
            Err(e) => r == Err::<NodeRef, ParsingError>(e),
        },
    decreases old(lexer).source().len() - old(lexer).offset(), 2int,
{
    match parse(lexer) {
        Ok(body) => Ok(Rc::new(Node::UnuaryOp { op, body })),
        Err(e) => Err(e),
    }
}

/// The two operands of a binary operator, read from the tokens behind it.
fn parse_bin(lexer: &mut Lexer, op: BinaryOp) -> (r: Result<NodeRef, ParsingError>)
    ensures
        final(lexer).source() == old(lexer).source(),
        match parse_term(old(lexer).source(), old(lexer).offset()) {
            Ok((left, p1)) => match parse_term(old(lexer).source(), p1) {
                Ok((right, p2)) => r.is_ok() && r.unwrap()@ == (Term::BinaryOp {
                    op,
                    left: Box::new(left),
                    right: Box::new(right),
                }) && final(lexer).offset() == p2,
                Err(e) => r == Err::<NodeRef, ParsingError>(e),
            },
            Err(e) => r == Err::<NodeRef, ParsingError>(e),
        },
    decreases old(lexer).source().len() - old(lexer).offset(), 2int,
{
    proof {
        lemma_parse_advances(lexer.source(), lexer.offset());
    }
    let left = match parse(lexer) {
        Ok(node) => node,
        Err(e) => {
            return Err(e);
        },
    };
    let right = match parse(lexer) {
        Ok(node) => node,
        Err(e) => {
            return Err(e);
        },
    };
    Ok(Rc::new(Node::BinaryOp { op, left, right }))
}

/// Reads one expression from the start of a text.
pub fn parse_str(source: &str) -> (r: Result<NodeRef, ParsingError>)
    ensures
        match parse_term(source.spec_bytes(), 0) {
            Ok((term, _)) => r.is_ok() && r.unwrap()@ == term,
            Err(e) => r == Err::<NodeRef, ParsingError>(e),
        },
{
    let mut lexer = Token::lexer(source);
    parse(&mut lexer)
}

} // verus!
