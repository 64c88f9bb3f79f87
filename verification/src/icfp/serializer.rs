//! The writer of the wire syntax: the inverse of the parser.
//!
//! Every node is written as one token followed by its children, but for an
//! integer literal below zero: the wire's integers are unsigned, so it is
//! written as the negation of its magnitude.

use crate::base94::is_wire_byte;
use crate::icfp::ast::lemma_children_decrease;
use crate::icfp::ast::BinaryOp;
use crate::icfp::ast::Literal;
use crate::icfp::ast::Node;
use crate::icfp::ast::NodeRef;
use crate::icfp::ast::Term;
use crate::icfp::ast::UnuaryOp;
use crate::icfp::ast::Value;
use crate::icfp::eval::is_alphabet_text;
use crate::icfp::lexer::token_views;
use crate::icfp::lexer::Lexeme;
use crate::icfp::lexer::Token;
use crate::text::append_bytes;
use crate::text::ascii_string;
use crate::text::ascii_text;
use crate::text::is_ascii_bytes;
use vstd::prelude::*;

verus! {

/// The token of a unary operator.
pub open spec fn unary_token(op: UnuaryOp) -> Lexeme {
    match op {
        UnuaryOp::IntNeg => Lexeme::UnaryMinus,
        UnuaryOp::BoolNot => Lexeme::UnaryNot,
        UnuaryOp::StrToInt => Lexeme::StringToInt,
        UnuaryOp::IntToStr => Lexeme::IntToString,
    }
}

/// The token of a binary operator.
pub open spec fn binary_token(op: BinaryOp) -> Lexeme {
    match op {
        BinaryOp::IntAdd => Lexeme::Add,
        BinaryOp::IntSub => Lexeme::Subtract,
        BinaryOp::IntMul => Lexeme::Multiply,
        BinaryOp::IntDiv => Lexeme::Divide,
        BinaryOp::IntMod => Lexeme::Modulo,
        BinaryOp::IntLt => Lexeme::LessThan,
        BinaryOp::IntGt => Lexeme::GreaterThan,
        BinaryOp::BoolOr => Lexeme::Or,
        BinaryOp::BoolAnd => Lexeme::And,
        BinaryOp::StrConcat => Lexeme::StringConcat,
        BinaryOp::StrTake => Lexeme::Take,
        BinaryOp::StrDrop => Lexeme::Drop,
        BinaryOp::Eq => Lexeme::Equal,
    }
}

/// The tokens of a literal.
pub open spec fn literal_tokens(v: Literal) -> Seq<Lexeme> {
    match v {
        Literal::Str(s) => seq![Lexeme::String(s)],
        Literal::Int(i) => if i < 0 {
            seq![Lexeme::UnaryMinus, Lexeme::Integer(-i)]
        } else {
            seq![Lexeme::Integer(i)]
        },
        Literal::Bool(b) => if b {
            seq![Lexeme::True]
        } else {
            seq![Lexeme::False]
        },
    }
}

/// The tokens of a term, in prefix order.
pub open spec fn lexemes_of(t: Term) -> Seq<Lexeme>
    decreases t,
{
    match t {
        Term::Value(v) => literal_tokens(v),
        Term::Lambda { var, body } => seq![Lexeme::Lambda(var)] + lexemes_of(*body),
        Term::Variable(v) => seq![Lexeme::Variable(v)],
        Term::Apply { f, value } => seq![Lexeme::Apply] + lexemes_of(*f) + lexemes_of(*value),
        Term::BinaryOp { op, left, right } => seq![binary_token(op)] + lexemes_of(*left)
            + lexemes_of(*right),
        Term::UnuaryOp { op, body } => seq![unary_token(op)] + lexemes_of(*body),
        Term::If { cond, then_do, else_do } => seq![Lexeme::If] + lexemes_of(*cond) + lexemes_of(
            *then_do,
        ) + lexemes_of(*else_do),
    }
}

/// A term can be written when every text in it is in the alphabet.
pub open spec fn writable(t: Term) -> bool
    decreases t,
{
    match t {
        Term::Value(Literal::Str(s)) => is_alphabet_text(s),
        Term::Value(_) => true,
        Term::Lambda { var, body } => writable(*body),
        Term::Variable(_) => true,
        Term::Apply { f, value } => writable(*f) && writable(*value),
        Term::BinaryOp { op, left, right } => writable(*left) && writable(*right),
        Term::UnuaryOp { op, body } => writable(*body),
        Term::If { cond, then_do, else_do } => writable(*cond) && writable(*then_do) && writable(
            *else_do,
        ),
    }
}

/// Every token can be written.
pub open spec fn all_writable(tokens: Seq<Lexeme>) -> bool {
    forall|i: int| 0 <= i < tokens.len() ==> Token::writable(#[trigger] tokens[i])
}

/// The fields of the tokens, with one space between neighbours.
pub open spec fn wire_of_lexemes(tokens: Seq<Lexeme>) -> Seq<u8>
    decreases tokens.len(),
{
    if tokens.len() == 0 {
        Seq::empty()
    } else if tokens.len() == 1 {
        Token::wire(tokens[0])
    } else {
        wire_of_lexemes(tokens.drop_last()) + seq![32u8] + Token::wire(tokens.last())
    }
}

/// The wire text of a term.
pub open spec fn wire_of_term(t: Term) -> Seq<u8> {
    wire_of_lexemes(lexemes_of(t))
}

/// The tokens of a writable term can be written.
pub proof fn lemma_writable_tokens(t: Term)
    requires
        writable(t),
    ensures
        all_writable(lexemes_of(t)),
        lexemes_of(t).len() > 0,
    decreases t,
{
    match t {
        Term::Value(v) => {},
        Term::Lambda { var, body } => {
            lemma_writable_tokens(*body);
        },
        Term::Variable(_) => {},
        Term::Apply { f, value } => {
            lemma_writable_tokens(*f);
            lemma_writable_tokens(*value);
        },
        Term::BinaryOp { op, left, right } => {
            lemma_writable_tokens(*left);
            lemma_writable_tokens(*right);
        },
        Term::UnuaryOp { op, body } => {
            lemma_writable_tokens(*body);
        },
        Term::If { cond, then_do, else_do } => {
            lemma_writable_tokens(*cond);
            lemma_writable_tokens(*then_do);
            lemma_writable_tokens(*else_do);
        },
    }
}

/// Whether the expression can be written: whether every text in it is in the
/// alphabet.
pub fn is_writable(node: &NodeRef) -> (r: bool)
    ensures
        r == writable(node@),
    decreases node@,
{
    proof {
        lemma_children_decrease(&**node);
    }
    match &**node {
        Node::Value(Value::Str(s)) => {
            let token = Token::String(s.clone());
            token.is_writable()
        },
        Node::Value(_) => true,
        Node::Lambda { var, body } => is_writable(body),
        Node::Variable(_) => true,
        Node::Apply { strat, f, value } => is_writable(f) && is_writable(value),
        Node::BinaryOp { op, left, right } => is_writable(left) && is_writable(right),
        Node::UnuaryOp { op, body } => is_writable(body),
        Node::If { cond, then_do, else_do } => is_writable(cond) && is_writable(then_do)
            && is_writable(else_do),
    }
}

/// The token of a unary operator.
fn unary_op_token(op: UnuaryOp) -> (r: Token)
    ensures
        r@ == unary_token(op),
{
    match op {
        UnuaryOp::IntNeg => Token::UnaryMinus,
        UnuaryOp::BoolNot => Token::UnaryNot,
        UnuaryOp::StrToInt => Token::StringToInt,
        UnuaryOp::IntToStr => Token::IntToString,
    }
}

/// The token of a binary operator.
fn binary_op_token(op: BinaryOp) -> (r: Token)
    ensures
        r@ == binary_token(op),
{
    match op {
        BinaryOp::IntAdd => Token::Add,
        BinaryOp::IntSub => Token::Subtract,
        BinaryOp::IntMul => Token::Multiply,
        BinaryOp::IntDiv => Token::Divide,
        BinaryOp::IntMod => Token::Modulo,
        BinaryOp::IntLt => Token::LessThan,
        BinaryOp::IntGt => Token::GreaterThan,
        BinaryOp::BoolOr => Token::Or,
        BinaryOp::BoolAnd => Token::And,
        BinaryOp::StrConcat => Token::StringConcat,
        BinaryOp::StrTake => Token::Take,
        BinaryOp::StrDrop => Token::Drop,
        BinaryOp::Eq => Token::Equal,
    }
}

/// Appends one token.
fn emit(out: &mut Vec<Token>, token: Token)
    ensures
        token_views(final(out)@) == token_views(old(out)@) + seq![token@],
{
    out.push(token);
    assert(token_views(out@) =~= token_views(old(out)@) + seq![token@]);
}

/// Appends the tokens of an expression.
fn serialize_into(node: &NodeRef, out: &mut Vec<Token>)
    ensures
        token_views(final(out)@) == token_views(old(out)@) + lexemes_of(node@),
    decreases node@,
{
    let ghost before = token_views(out@);
    proof {
        lemma_children_decrease(&**node);
    }
    match &**node {
        Node::Value(val) => match val {
            Value::Str(s) => {
                emit(out, Token::String(s.clone()));
            },
            Value::Int(v) => {
                if v.is_negative() {
                    emit(out, Token::UnaryMinus);
                    emit(out, Token::Integer(v.neg()));
                    assert(token_views(out@) =~= before + literal_tokens(val@));
                } else {
                    emit(out, Token::Integer(v.clone()));
                }
            },
            Value::Bool(b) => {
                emit(
                    out,
                    if *b {
                        Token::True
                    } else {
                        Token::False
                    },
                );
            },
        },
        Node::Lambda { var, body } => {
            emit(out, Token::Lambda(var.id()));
            serialize_into(body, out);
            assert(token_views(out@) =~= before + lexemes_of(node@));
        },
        Node::Variable(v) => {
            emit(out, Token::Variable(v.id()));
        },
        Node::Apply { strat, f, value } => {
            emit(out, Token::Apply);
            serialize_into(f, out);
            serialize_into(value, out);
            assert(token_views(out@) =~= before + lexemes_of(node@));
        },
        Node::BinaryOp { op, left, right } => {
            emit(out, binary_op_token(*op));
            serialize_into(left, out);
            serialize_into(right, out);
            assert(token_views(out@) =~= before + lexemes_of(node@));
        },
        Node::UnuaryOp { op, body } => {
            emit(out, unary_op_token(*op));
            serialize_into(body, out);
            assert(token_views(out@) =~= before + lexemes_of(node@));
        },
        Node::If { cond, then_do, else_do } => {
            emit(out, Token::If);
            serialize_into(cond, out);
            serialize_into(then_do, out);
            serialize_into(else_do, out);
            assert(token_views(out@) =~= before + lexemes_of(node@));
        },
    }
}

/// The tokens of an expression, in prefix order.
pub fn serialize(node: NodeRef) -> (r: Vec<Token>)
    ensures
        token_views(r@) == lexemes_of(node@),
{
    let mut out: Vec<Token> = Vec::new();
    assert(token_views(out@) =~= Seq::<Lexeme>::empty());
    serialize_into(&node, &mut out);
    assert(token_views(out@) =~= lexemes_of(node@));
    out
}

/// The wire bytes of tokens, with one space between neighbours.
pub fn tokens_to_bytes(tokens: &Vec<Token>) -> (r: Vec<u8>)
    requires
        all_writable(token_views(tokens@)),
    ensures
        r@ == wire_of_lexemes(token_views(tokens@)),
        is_ascii_bytes(r@),
{
    let mut r: Vec<u8> = Vec::new();
    let mut i: usize = 0;
    let ghost all = token_views(tokens@);
    proof {
        assert(all.subrange(0, 0) =~= Seq::<Lexeme>::empty());
    }
    while i < tokens.len()
        invariant
            i <= tokens@.len(),
            all == token_views(tokens@),
            all_writable(all),
            r@ == wire_of_lexemes(all.subrange(0, i as int)),
            is_ascii_bytes(r@),
        decreases tokens@.len() - i,
    {
        let ghost before = r@;
        if i > 0 {
            r.push(32);
        }
        assert(Token::writable(all[i as int]));
        let field = tokens[i].to_bytes();
        append_bytes(&mut r, &field);
        proof {
            let prefix = all.subrange(0, i + 1);
            assert(prefix.drop_last() =~= all.subrange(0, i as int));
            assert(prefix.last() == all[i as int]);
            assert(tokens@[i as int]@ == all[i as int]);
            if i == 0 {
                assert(before =~= Seq::<u8>::empty());
                assert(r@ =~= field@);
            } else {
                assert(r@ =~= before + seq![32u8] + field@);
            }
            assert forall|j: int| 0 <= j < r@.len() implies #[trigger] r@[j] < 128 by {
                if j < before.len() {
                    assert(r@[j] == before[j]);
                } else if i > 0 && j == before.len() {
                } else {
                    let k = if i == 0 {
                        j - before.len()
                    } else {
                        j - before.len() - 1
                    };
                    assert(r@[j] == field@[k]);
                    assert(is_wire_byte(field@[k]));
                }
            }
        }
        i += 1;
    }
    proof {
        assert(all.subrange(0, tokens@.len() as int) =~= all);
    }
    r
}

/// The wire text of an expression in which every text is in the alphabet.
pub fn serialize_str(node: NodeRef) -> (r: String)
    requires
        writable(node@),
    ensures
        r@ == ascii_text(wire_of_term(node@)),
{
    proof {
        lemma_writable_tokens(node@);
    }
    let tokens = serialize(node);
    let bytes = tokens_to_bytes(&tokens);
    ascii_string(bytes)
}

} // verus!
