//! The parser of the surface language.
//!
//! The grammar is
//!
//! ```text
//! expr    := sep* prefix? infix sep*
//! prefix  := '-' | '!' | 'str2int' | 'int2str'
//! infix   := call (sep* binop sep* call)*
//! binop   := '+' | '-' | '*' | '/' | '%' | '<' | '>' | '|' | '&' | '.'
//!          | 'take' | 'drop' | '=='
//! call    := atom (sep+ atom)*
//! atom    := let | '(' expr ')' | if | int | bool | string | ident
//! let     := 'let' binding+ sep+ 'in' expr
//! binding := (sep+ 'rec')? sep+ ident (sep+ ident)* sep+ '=' expr ';'
//! if      := 'if' expr block 'else' block
//! block   := sep* '{' expr '}' sep*
//! sep     := blank+ | '//' followed by the rest of a line that is not empty
//! ```
//!
//! read as an ordered choice: the alternatives of a rule are tried from left
//! to right and the first that matches is taken; a repetition takes as many
//! items as match. Some failures are final and end the parse at once: nothing
//! else is tried after `let` without a binding or without `in`, after `( `
//! without an expression, after `if` and a condition without a block, after
//! `else` without a block, after `=` without a value, after `{` without an
//! expression, and after a backslash in a text that escapes neither `"` nor
//! `\`. Operators have no precedence among themselves and associate to the
//! left; application binds tighter than any operator. The operands of `take`
//! and `drop` are written text first, and come out length first.

use crate::bigint::radix_value;
use crate::icfp::ast::BinaryOp;
use crate::icfp::ast::Literal;
use crate::icfp::ast::UnuaryOp;
use crate::lasm::ast::Binding;
use crate::lasm::ast::Iden;
use crate::lasm::ast::LBinding;
use crate::lasm::ast::LNode;
use crate::lasm::ast::LNodeRef;
use crate::lasm::ast::LTerm;
use crate::text::ascii_text;
use std::rc::Rc;
use vstd::prelude::*;
use vstd::string::StringSliceAdditionalSpecFns;

verus! {

/// How a rule ends at a position: with a result and the position behind it,
/// without a match, or with a failure that ends the parse.
pub enum Parsed<T> {
    Done(T, int),
    Error,
    Failure,
}

/// A blank: space, tab, carriage return or line feed.
pub open spec fn is_space(b: u8) -> bool {
    b == 32 || b == 9 || b == 13 || b == 10
}

/// A letter of an identifier's start.
pub open spec fn is_alpha(b: u8) -> bool {
    (65 <= b <= 90) || (97 <= b <= 122)
}

/// A decimal digit.
pub open spec fn is_digit(b: u8) -> bool {
    48 <= b <= 57
}

/// A byte that an identifier may hold behind its first.
pub open spec fn is_word(b: u8) -> bool {
    is_alpha(b) || is_digit(b) || b == 95
}

/// A character that a text literal may hold as it is: a character of the
/// alphabet other than `"` and `\`.
pub open spec fn is_plain(b: u8) -> bool {
    is_alpha(b) || is_digit(b) || b == 32 || b == 10 || b == 33 || (35 <= b <= 47) || (58 <= b
        <= 64) || b == 91 || (93 <= b <= 96) || b == 124 || b == 126
}

/// The byte stands at the position.
pub open spec fn at1(bytes: Seq<u8>, pos: int, a: u8) -> bool {
    0 <= pos < bytes.len() && bytes[pos] == a
}

/// The two bytes stand at the position.
pub open spec fn at2(bytes: Seq<u8>, pos: int, a: u8, b: u8) -> bool {
    at1(bytes, pos, a) && at1(bytes, pos + 1, b)
}

/// The three bytes stand at the position.
pub open spec fn at3(bytes: Seq<u8>, pos: int, a: u8, b: u8, c: u8) -> bool {
    at2(bytes, pos, a, b) && at1(bytes, pos + 2, c)
}

/// The four bytes stand at the position.
pub open spec fn at4(bytes: Seq<u8>, pos: int, a: u8, b: u8, c: u8, d: u8) -> bool {
    at2(bytes, pos, a, b) && at2(bytes, pos + 2, c, d)
}

/// `let` stands at the position.
pub open spec fn at_let(bytes: Seq<u8>, pos: int) -> bool {
    at3(bytes, pos, 108, 101, 116)
}

/// `in` stands at the position.
pub open spec fn at_in(bytes: Seq<u8>, pos: int) -> bool {
    at2(bytes, pos, 105, 110)
}

/// `rec` stands at the position.
pub open spec fn at_rec(bytes: Seq<u8>, pos: int) -> bool {
    at3(bytes, pos, 114, 101, 99)
}

/// `if` stands at the position.
pub open spec fn at_if(bytes: Seq<u8>, pos: int) -> bool {
    at2(bytes, pos, 105, 102)
}

/// `else` stands at the position.
pub open spec fn at_else(bytes: Seq<u8>, pos: int) -> bool {
    at4(bytes, pos, 101, 108, 115, 101)
}

/// `true` stands at the position.
pub open spec fn at_true(bytes: Seq<u8>, pos: int) -> bool {
    at4(bytes, pos, 116, 114, 117, 101)
}

/// `false` stands at the position.
pub open spec fn at_false(bytes: Seq<u8>, pos: int) -> bool {
    at4(bytes, pos, 102, 97, 108, 115) && at1(bytes, pos + 4, 101)
}

/// `take` stands at the position.
pub open spec fn at_take(bytes: Seq<u8>, pos: int) -> bool {
    at4(bytes, pos, 116, 97, 107, 101)
}

/// `drop` stands at the position.
pub open spec fn at_drop(bytes: Seq<u8>, pos: int) -> bool {
    at4(bytes, pos, 100, 114, 111, 112)
}

/// `str2int` stands at the position.
pub open spec fn at_str2int(bytes: Seq<u8>, pos: int) -> bool {
    at4(bytes, pos, 115, 116, 114, 50) && at3(bytes, pos + 4, 105, 110, 116)
}

/// `int2str` stands at the position.
pub open spec fn at_int2str(bytes: Seq<u8>, pos: int) -> bool {
    at4(bytes, pos, 105, 110, 116, 50) && at3(bytes, pos + 4, 115, 116, 114)
}

/// The first position at or after `pos` that holds no blank.
pub open spec fn spaces_end(bytes: Seq<u8>, pos: int) -> int
    decreases bytes.len() - pos,
{
    if 0 <= pos < bytes.len() && is_space(bytes[pos]) {
        spaces_end(bytes, pos + 1)
    } else {
        pos
    }
}

/// The first position at or after `pos` that holds a line feed or a carriage
/// return.
pub open spec fn line_end(bytes: Seq<u8>, pos: int) -> int
    decreases bytes.len() - pos,
{
    if 0 <= pos < bytes.len() && in_line(bytes[pos]) {
        line_end(bytes, pos + 1)
    } else {
        pos
    }
}

/// The first position at or after `pos` that holds no byte of an identifier.
pub open spec fn word_end(bytes: Seq<u8>, pos: int) -> int
    decreases bytes.len() - pos,
{
    if 0 <= pos < bytes.len() && is_word(bytes[pos]) {
        word_end(bytes, pos + 1)
    } else {
        pos
    }
}

/// The first position at or after `pos` that holds no digit.
pub open spec fn digits_end(bytes: Seq<u8>, pos: int) -> int
    decreases bytes.len() - pos,
{
    if 0 <= pos < bytes.len() && is_digit(bytes[pos]) {
        digits_end(bytes, pos + 1)
    } else {
        pos
    }
}

/// Neither a line feed nor a carriage return.
pub open spec fn in_line(b: u8) -> bool {
    b != 10 && b != 13
}

/// One separator at the position: a run of blanks, or `//` and the rest of
/// the line, which is not empty. The position behind it, or `None`.
pub open spec fn sep(bytes: Seq<u8>, pos: int) -> Option<int> {
    if 0 <= pos < bytes.len() && is_space(bytes[pos]) {
        Some(spaces_end(bytes, pos))
    } else if at2(bytes, pos, 47, 47) && pos + 2 < bytes.len() && in_line(bytes[pos + 2]) {
        Some(line_end(bytes, pos + 2))
    } else {
        None
    }
}

/// The position behind all the separators at the position.
pub open spec fn sep0(bytes: Seq<u8>, pos: int) -> int
    decreases bytes.len() - pos,
{
    match sep(bytes, pos) {
        Some(next) => if pos < next <= bytes.len() {
            sep0(bytes, next)
        } else {
            pos
        },
        None => pos,
    }
}

/// The position behind the separators at the position, of which there is at
/// least one.
pub open spec fn sep1(bytes: Seq<u8>, pos: int) -> Option<int> {
    match sep(bytes, pos) {
        Some(next) => Some(sep0(bytes, next)),
        None => None,
    }
}

/// The identifier at the position: a letter or `_`, then letters, digits and
/// `_`; not `take` and not `drop`.
pub open spec fn identifier(bytes: Seq<u8>, pos: int) -> Option<(Seq<u8>, int)> {
    if 0 <= pos < bytes.len() && (is_alpha(bytes[pos]) || bytes[pos] == 95) {
        let end = word_end(bytes, pos + 1);
        let name = bytes.subrange(pos, end);
        if end == pos + 4 && (at_take(bytes, pos) || at_drop(bytes, pos)) {
            None
        } else {
            Some((name, end))
        }
    } else {
        None
    }
}

/// The digits that decimal characters stand for.
pub open spec fn decimal_digits_of(chars: Seq<u8>) -> Seq<u8> {
    Seq::new(chars.len(), |i: int| (chars[i] - 48) as u8)
}

/// The integer literal at the position: decimal digits whose number fits in
/// 64 bits with a sign.
pub open spec fn integer(bytes: Seq<u8>, pos: int) -> Option<(int, int)> {
    if 0 <= pos < bytes.len() && is_digit(bytes[pos]) {
        let end = digits_end(bytes, pos);
        let value = radix_value(decimal_digits_of(bytes.subrange(pos, end)), 10);
        if value <= i64::MAX {
            Some((value as int, end))
        } else {
            None
        }
    } else {
        None
    }
}

/// The boolean literal at the position.
pub open spec fn boolean(bytes: Seq<u8>, pos: int) -> Option<(bool, int)> {
    if at_true(bytes, pos) {
        Some((true, pos + 4))
    } else if at_false(bytes, pos) {
        Some((false, pos + 5))
    } else {
        None
    }
}

/// The characters of a text literal from the position on, up to the first
/// byte that is neither plain nor a backslash. A backslash stands before `"`
/// or `\`, and for nothing else.
pub open spec fn string_body(bytes: Seq<u8>, pos: int) -> Parsed<Seq<u8>>
    decreases bytes.len() - pos,
{
    if 0 <= pos < bytes.len() && bytes[pos] == 92 {
        if pos + 1 < bytes.len() && (bytes[pos + 1] == 34 || bytes[pos + 1] == 92) {
            match string_body(bytes, pos + 2) {
                Parsed::Done(rest, end) => Parsed::Done(seq![bytes[pos + 1]] + rest, end),
                _ => Parsed::Failure,
            }
        } else {
            Parsed::Failure
        }
    } else if 0 <= pos < bytes.len() && is_plain(bytes[pos]) {
        match string_body(bytes, pos + 1) {
            Parsed::Done(rest, end) => Parsed::Done(seq![bytes[pos]] + rest, end),
            _ => Parsed::Failure,
        }
    } else {
        Parsed::Done(Seq::empty(), pos)
    }
}

/// The text literal at the position: `"`, the characters, `"`.
pub open spec fn string(bytes: Seq<u8>, pos: int) -> Parsed<Seq<u8>> {
    if 0 <= pos < bytes.len() && bytes[pos] == 34 {
        match string_body(bytes, pos + 1) {
            Parsed::Done(body, end) => if 0 <= end < bytes.len() && bytes[end] == 34 {
                Parsed::Done(body, end + 1)
            } else {
                Parsed::Error
            },
            _ => Parsed::Failure,
        }
    } else {
        Parsed::Error
    }
}

/// The prefix operator at the position.
pub open spec fn prefix_operator(bytes: Seq<u8>, pos: int) -> Option<(UnuaryOp, int)> {
    if at1(bytes, pos, 45) {
        Some((UnuaryOp::IntNeg, pos + 1))
    } else if at1(bytes, pos, 33) {
        Some((UnuaryOp::BoolNot, pos + 1))
    } else if at_str2int(bytes, pos) {
        Some((UnuaryOp::StrToInt, pos + 7))
    } else if at_int2str(bytes, pos) {
        Some((UnuaryOp::IntToStr, pos + 7))
    } else {
        None
    }
}

/// The infix operator at the position, and whether its operands come out
/// exchanged.
pub open spec fn infix_operator(bytes: Seq<u8>, pos: int) -> Option<((BinaryOp, bool), int)> {
    if at1(bytes, pos, 43) {
        Some(((BinaryOp::IntAdd, false), pos + 1))
    } else if at1(bytes, pos, 45) {
        Some(((BinaryOp::IntSub, false), pos + 1))
    } else if at1(bytes, pos, 42) {
        Some(((BinaryOp::IntMul, false), pos + 1))
    } else if at1(bytes, pos, 47) {
        Some(((BinaryOp::IntDiv, false), pos + 1))
    } else if at1(bytes, pos, 37) {
        Some(((BinaryOp::IntMod, false), pos + 1))
    } else if at1(bytes, pos, 60) {
        Some(((BinaryOp::IntLt, false), pos + 1))
    } else if at1(bytes, pos, 62) {
        Some(((BinaryOp::IntGt, false), pos + 1))
    } else if at1(bytes, pos, 124) {
        Some(((BinaryOp::BoolOr, false), pos + 1))
    } else if at1(bytes, pos, 38) {
        Some(((BinaryOp::BoolAnd, false), pos + 1))
    } else if at1(bytes, pos, 46) {
        Some(((BinaryOp::StrConcat, false), pos + 1))
    } else if at_take(bytes, pos) {
        Some(((BinaryOp::StrTake, true), pos + 4))
    } else if at_drop(bytes, pos) {
        Some(((BinaryOp::StrDrop, true), pos + 4))
    } else if at2(bytes, pos, 61, 61) {
        Some(((BinaryOp::Eq, false), pos + 2))
    } else {
        None
    }
}

/// The binary operation of an operator on two operands as they are written.
pub open spec fn infix_term(op: (BinaryOp, bool), left: LTerm, right: LTerm) -> LTerm {
    if op.1 {
        LTerm::BinaryOp { op: op.0, left: Box::new(right), right: Box::new(left) }
    } else {
        LTerm::BinaryOp { op: op.0, left: Box::new(left), right: Box::new(right) }
    }
}

/// The parameters of a binding from the position on: each behind at least
/// one separator.
pub open spec fn params(bytes: Seq<u8>, pos: int) -> (Seq<Seq<char>>, int)
    decreases bytes.len() - pos,
{
    match sep1(bytes, pos) {
        None => (Seq::empty(), pos),
        Some(start) => match identifier(bytes, start) {
            None => (Seq::empty(), pos),
            Some((name, end)) => if pos < end <= bytes.len() {
                let (rest, stop) = params(bytes, end);
                (seq![ascii_text(name)] + rest, stop)
            } else {
                (Seq::empty(), pos)
            },
        },
    }
}

/// A step from `pos` to `next` that moves forward within the text. Every
/// rule that matches makes such a step (see [`lemma_expr`]); the tests
/// make the definitions below well-founded.
pub open spec fn forward(bytes: Seq<u8>, pos: int, next: int) -> bool {
    0 <= pos < next <= bytes.len()
}

/// `expr` at the position.
pub open spec fn expr(bytes: Seq<u8>, pos: int) -> Parsed<LTerm>
    decreases bytes.len() - pos, 5int,
{
    let start = sep0(bytes, pos);
    if !(0 <= pos <= start <= bytes.len()) {
        Parsed::Error
    } else {
        match prefix_operator(bytes, start) {
            Some((op, next)) => if !forward(bytes, start, next) {
                Parsed::Error
            } else {
                match infix(bytes, next) {
                    Parsed::Done(t, end) => Parsed::Done(
                        LTerm::UnuaryOp { op, body: Box::new(t) },
                        sep0(bytes, end),
                    ),
                    Parsed::Error => Parsed::Error,
                    Parsed::Failure => Parsed::Failure,
                }
            },
            None => match infix(bytes, start) {
                Parsed::Done(t, end) => Parsed::Done(t, sep0(bytes, end)),
                Parsed::Error => Parsed::Error,
                Parsed::Failure => Parsed::Failure,
            },
        }
    }
}

/// `infix` at the position.
pub open spec fn infix(bytes: Seq<u8>, pos: int) -> Parsed<LTerm>
    decreases bytes.len() - pos, 4int,
{
    match call(bytes, pos) {
        Parsed::Done(first, next) => if !forward(bytes, pos, next) {
            Parsed::Error
        } else {
            infix_rest(bytes, next, first)
        },
        Parsed::Error => Parsed::Error,
        Parsed::Failure => Parsed::Failure,
    }
}

/// The operators and operands that follow the operand `left`.
pub open spec fn infix_rest(bytes: Seq<u8>, pos: int, left: LTerm) -> Parsed<LTerm>
    decreases bytes.len() - pos, 3int,
{
    match infix_operator(bytes, sep0(bytes, pos)) {
        None => Parsed::Done(left, pos),
        Some((op, after)) => if !forward(bytes, pos, after) {
            Parsed::Done(left, pos)
        } else {
            let start = sep0(bytes, after);
            if !(after <= start <= bytes.len()) {
                Parsed::Done(left, pos)
            } else {
                match call(bytes, start) {
                    Parsed::Done(right, next) => if !forward(bytes, start, next) {
                        Parsed::Done(left, pos)
                    } else {
                        infix_rest(bytes, next, infix_term(op, left, right))
                    },
                    Parsed::Error => Parsed::Done(left, pos),
                    Parsed::Failure => Parsed::Failure,
                }
            }
        },
    }
}

/// `call` at the position.
pub open spec fn call(bytes: Seq<u8>, pos: int) -> Parsed<LTerm>
    decreases bytes.len() - pos, 2int,
{
    match atom(bytes, pos) {
        Parsed::Done(first, next) => if !forward(bytes, pos, next) {
            Parsed::Error
        } else {
            call_rest(bytes, next, first)
        },
        Parsed::Error => Parsed::Error,
        Parsed::Failure => Parsed::Failure,
    }
}

/// The arguments that follow the function `func`.
pub open spec fn call_rest(bytes: Seq<u8>, pos: int, func: LTerm) -> Parsed<LTerm>
    decreases bytes.len() - pos, 1int,
{
    match sep1(bytes, pos) {
        None => Parsed::Done(func, pos),
        Some(start) => if !forward(bytes, pos, start) {
            Parsed::Done(func, pos)
        } else {
            match atom(bytes, start) {
                Parsed::Done(param, next) => if !forward(bytes, start, next) {
                    Parsed::Done(func, pos)
                } else {
                    call_rest(
                        bytes,
                        next,
                        LTerm::Apply { func: Box::new(func), param: Box::new(param) },
                    )
                },
                Parsed::Error => Parsed::Done(func, pos),
                Parsed::Failure => Parsed::Failure,
            }
        },
    }
}

/// `block` at the position.
pub open spec fn block(bytes: Seq<u8>, pos: int) -> Parsed<LTerm>
    decreases bytes.len() - pos, 0int,
{
    let start = sep0(bytes, pos);
    if 0 <= pos <= start < bytes.len() && bytes[start] == 123 {
        match expr(bytes, start + 1) {
            Parsed::Done(t, end) => if 0 <= end < bytes.len() && bytes[end] == 125 {
                Parsed::Done(t, sep0(bytes, end + 1))
            } else {
                Parsed::Error
            },
            _ => Parsed::Failure,
        }
    } else {
        Parsed::Error
    }
}

/// `if` at the position.
pub open spec fn conditional(bytes: Seq<u8>, pos: int) -> Parsed<LTerm>
    decreases bytes.len() - pos, 0int,
{
    if at_if(bytes, pos) {
        match expr(bytes, pos + 2) {
            Parsed::Done(cond, p1) => if !forward(bytes, pos, p1) {
                Parsed::Error
            } else {
                match block(bytes, p1) {
                    Parsed::Done(then_do, p2) => if !forward(bytes, pos, p2) {
                        Parsed::Error
                    } else if at_else(bytes, p2) {
                        match block(bytes, p2 + 4) {
                            Parsed::Done(else_do, p3) => Parsed::Done(
                                LTerm::If {
                                    cond: Box::new(cond),
                                    then_do: Box::new(then_do),
                                    else_do: Box::new(else_do),
                                },
                                p3,
                            ),
                            _ => Parsed::Failure,
                        }
                    } else {
                        Parsed::Error
                    },
                    _ => Parsed::Failure,
                }
            },
            Parsed::Error => Parsed::Error,
            Parsed::Failure => Parsed::Failure,
        }
    } else {
        Parsed::Error
    }
}

/// `binding` at the position.
pub open spec fn binding(bytes: Seq<u8>, pos: int) -> Parsed<LBinding>
    decreases bytes.len() - pos, 0int,
{
    let (rec, p0) = match sep1(bytes, pos) {
        Some(p) => if at_rec(bytes, p) {
            (true, p + 3)
        } else {
            (false, pos)
        },
        None => (false, pos),
    };
    match sep1(bytes, p0) {
        None => Parsed::Error,
        Some(p1) => match identifier(bytes, p1) {
            None => Parsed::Error,
            Some((name, p2)) => {
                let (names, p3) = params(bytes, p2);
                match sep1(bytes, p3) {
                    None => Parsed::Error,
                    Some(p4) => if forward(bytes, pos, p4) && p4 < bytes.len() && bytes[p4] == 61 {
                        match expr(bytes, p4 + 1) {
                            Parsed::Done(value, p5) => if 0 <= p5 < bytes.len() && bytes[p5] == 59 {
                                Parsed::Done(
                                    LBinding {
                                        rec,
                                        name: ascii_text(name),
                                        params: names,
                                        value: Box::new(value),
                                    },
                                    p5 + 1,
                                )
                            } else {
                                Parsed::Error
                            },
                            _ => Parsed::Failure,
                        }
                    } else {
                        Parsed::Error
                    },
                }
            },
        },
    }
}

/// The bindings that follow the bindings `found`.
pub open spec fn bindings_rest(bytes: Seq<u8>, pos: int, found: Seq<LBinding>) -> Parsed<
    Seq<LBinding>,
>
    decreases bytes.len() - pos, 1int,
{
    match binding(bytes, pos) {
        Parsed::Done(b, next) => if !forward(bytes, pos, next) {
            Parsed::Done(found, pos)
        } else {
            bindings_rest(bytes, next, found.push(b))
        },
        Parsed::Error => Parsed::Done(found, pos),
        Parsed::Failure => Parsed::Failure,
    }
}

/// `let` at the position.
pub open spec fn let_in(bytes: Seq<u8>, pos: int) -> Parsed<LTerm>
    decreases bytes.len() - pos, 0int,
{
    if at_let(bytes, pos) {
        match binding(bytes, pos + 3) {
            Parsed::Done(first, p1) => if !forward(bytes, pos, p1) {
                Parsed::Failure
            } else {
                match bindings_rest(bytes, p1, seq![first]) {
                    Parsed::Done(bindings, p2) => match sep1(bytes, p2) {
                        Some(p3) => if forward(bytes, pos, p3) && at_in(bytes, p3) {
                            match expr(bytes, p3 + 2) {
                                Parsed::Done(body, p4) => Parsed::Done(
                                    LTerm::Let { bindings, body: Box::new(body) },
                                    p4,
                                ),
                                _ => Parsed::Failure,
                            }
                        } else {
                            Parsed::Failure
                        },
                        None => Parsed::Failure,
                    },
                    _ => Parsed::Failure,
                }
            },
            _ => Parsed::Failure,
        }
    } else {
        Parsed::Error
    }
}

/// `'(' expr ')'` at the position.
pub open spec fn group(bytes: Seq<u8>, pos: int) -> Parsed<LTerm>
    decreases bytes.len() - pos, 0int,
{
    if at1(bytes, pos, 40) {
        match expr(bytes, pos + 1) {
            Parsed::Done(t, end) => if 0 <= end < bytes.len() && bytes[end] == 41 {
                Parsed::Done(t, end + 1)
            } else {
                Parsed::Error
            },
            _ => Parsed::Failure,
        }
    } else {
        Parsed::Error
    }
}

/// The literals and the names at the position: an integer, a boolean, a
/// text, or an identifier.
pub open spec fn leaf(bytes: Seq<u8>, pos: int) -> Parsed<LTerm> {
    match integer(bytes, pos) {
        Some((v, end)) => Parsed::Done(LTerm::Litteral(Literal::Int(v)), end),
        None => match boolean(bytes, pos) {
            Some((b, end)) => Parsed::Done(LTerm::Litteral(Literal::Bool(b)), end),
            None => match string(bytes, pos) {
                Parsed::Done(s, end) => Parsed::Done(
                    LTerm::Litteral(Literal::Str(ascii_text(s))),
                    end,
                ),
                Parsed::Failure => Parsed::Failure,
                Parsed::Error => match identifier(bytes, pos) {
                    Some((name, end)) => Parsed::Done(LTerm::Variable(ascii_text(name)), end),
                    None => Parsed::Error,
                },
            },
        },
    }
}

/// `atom` at the position.
pub open spec fn atom(bytes: Seq<u8>, pos: int) -> Parsed<LTerm>
    decreases bytes.len() - pos, 1int,
{
    match let_in(bytes, pos) {
        Parsed::Error => match group(bytes, pos) {
            Parsed::Error => match conditional(bytes, pos) {
                Parsed::Error => leaf(bytes, pos),
                other => other,
            },
            other => other,
        },
        other => other,
    }
}

/// The program that a text is: one expression, and nothing behind it.
pub open spec fn program(bytes: Seq<u8>) -> Option<LTerm> {
    match expr(bytes, 0) {
        Parsed::Done(t, end) => if end == bytes.len() {
            Some(t)
        } else {
            None
        },
        _ => None,
    }
}


pub proof fn lemma_spaces_end(bytes: Seq<u8>, pos: int)
    requires
        0 <= pos <= bytes.len(),
    ensures
        pos <= spaces_end(bytes, pos) <= bytes.len(),
        pos < bytes.len() && is_space(bytes[pos]) ==> pos < spaces_end(bytes, pos),
    decreases bytes.len() - pos,
{
    if pos < bytes.len() && is_space(bytes[pos]) {
        lemma_spaces_end(bytes, pos + 1);
    }
}

pub proof fn lemma_line_end(bytes: Seq<u8>, pos: int)
    requires
        0 <= pos <= bytes.len(),
    ensures
        pos <= line_end(bytes, pos) <= bytes.len(),
    decreases bytes.len() - pos,
{
    if pos < bytes.len() && in_line(bytes[pos]) {
        lemma_line_end(bytes, pos + 1);
    }
}

pub proof fn lemma_word_end(bytes: Seq<u8>, pos: int)
    requires
        0 <= pos <= bytes.len(),
    ensures
        pos <= word_end(bytes, pos) <= bytes.len(),
        forall|i: int| pos <= i < word_end(bytes, pos) ==> is_word(#[trigger] bytes[i]),
    decreases bytes.len() - pos,
{
    if pos < bytes.len() && is_word(bytes[pos]) {
        lemma_word_end(bytes, pos + 1);
    }
}

pub proof fn lemma_digits_end(bytes: Seq<u8>, pos: int)
    requires
        0 <= pos <= bytes.len(),
    ensures
        pos <= digits_end(bytes, pos) <= bytes.len(),
        pos < bytes.len() && is_digit(bytes[pos]) ==> pos < digits_end(bytes, pos),
        forall|i: int| pos <= i < digits_end(bytes, pos) ==> is_digit(#[trigger] bytes[i]),
    decreases bytes.len() - pos,
{
    if pos < bytes.len() && is_digit(bytes[pos]) {
        lemma_digits_end(bytes, pos + 1);
    }
}

/// A separator, and a run of separators, end behind their start and inside
/// the text.
pub proof fn lemma_sep(bytes: Seq<u8>, pos: int)
    requires
        0 <= pos <= bytes.len(),
    ensures
        sep(bytes, pos) matches Some(next) ==> pos < next <= bytes.len(),
        pos <= sep0(bytes, pos) <= bytes.len(),
        sep1(bytes, pos) matches Some(next) ==> pos < next <= bytes.len(),
    decreases bytes.len() - pos,
{
    if pos < bytes.len() {
        lemma_spaces_end(bytes, pos);
    }
    if pos + 2 <= bytes.len() {
        lemma_line_end(bytes, pos + 2);
    }
    match sep(bytes, pos) {
        Some(next) => {
            lemma_sep(bytes, next);
        },
        None => {},
    }
}

/// What the small rules return lies behind their start and inside the text.
pub proof fn lemma_tokens(bytes: Seq<u8>, pos: int)
    requires
        0 <= pos <= bytes.len(),
    ensures
        identifier(bytes, pos) matches Some((name, end)) ==> pos < end <= bytes.len() && name
            == bytes.subrange(pos, end) && crate::text::is_ascii_bytes(name),
        integer(bytes, pos) matches Some((_, end)) ==> pos < end <= bytes.len(),
        boolean(bytes, pos) matches Some((_, end)) ==> pos < end <= bytes.len(),
        prefix_operator(bytes, pos) matches Some((_, end)) ==> pos < end <= bytes.len(),
        infix_operator(bytes, pos) matches Some((_, end)) ==> pos < end <= bytes.len(),
{
    if pos < bytes.len() {
        lemma_word_end(bytes, pos + 1);
        lemma_digits_end(bytes, pos);
        if let Some((name, end)) = identifier(bytes, pos) {
            assert forall|i: int| 0 <= i < name.len() implies #[trigger] name[i] < 128 by {
                if i > 0 {
                    assert(is_word(bytes[pos + i]));
                }
            }
        }
    }
}

/// The body of a text literal ends inside the text, and its characters are
/// ASCII.
pub proof fn lemma_string_body(bytes: Seq<u8>, pos: int)
    requires
        0 <= pos <= bytes.len(),
    ensures
        string_body(bytes, pos) matches Parsed::Done(body, end) ==> pos <= end <= bytes.len()
            && crate::text::is_ascii_bytes(body),
    decreases bytes.len() - pos,
{
    if pos < bytes.len() && bytes[pos] == 92 {
        if pos + 1 < bytes.len() && (bytes[pos + 1] == 34 || bytes[pos + 1] == 92) {
            lemma_string_body(bytes, pos + 2);
        }
    } else if pos < bytes.len() && is_plain(bytes[pos]) {
        lemma_string_body(bytes, pos + 1);
    }
}

/// The parameters end inside the text.
pub proof fn lemma_params(bytes: Seq<u8>, pos: int)
    requires
        0 <= pos <= bytes.len(),
    ensures
        pos <= params(bytes, pos).1 <= bytes.len(),
    decreases bytes.len() - pos,
{
    lemma_sep(bytes, pos);
    if let Some(start) = sep1(bytes, pos) {
        lemma_tokens(bytes, start);
        if let Some((name, end)) = identifier(bytes, start) {
            lemma_params(bytes, end);
        }
    }
}

/// A literal or a name ends behind its start and inside the text.
pub proof fn lemma_leaf(bytes: Seq<u8>, pos: int)
    requires
        0 <= pos <= bytes.len(),
    ensures
        leaf(bytes, pos) matches Parsed::Done(_, end) ==> pos < end <= bytes.len(),
        string(bytes, pos) matches Parsed::Done(body, end) ==> pos < end <= bytes.len()
            && crate::text::is_ascii_bytes(body),
{
    lemma_tokens(bytes, pos);
    if pos < bytes.len() {
        lemma_string_body(bytes, pos + 1);
    }
}

/// Every rule that matches ends behind its start and inside the text; a
/// repetition ends at its start or behind it.
pub proof fn lemma_expr(bytes: Seq<u8>, pos: int)
    requires
        0 <= pos <= bytes.len(),
    ensures
        expr(bytes, pos) matches Parsed::Done(_, end) ==> pos < end <= bytes.len(),
    decreases bytes.len() - pos, 5int,
{
    lemma_sep(bytes, pos);
    let start = sep0(bytes, pos);
    lemma_tokens(bytes, start);
    match prefix_operator(bytes, start) {
        Some((op, next)) => {
            lemma_infix(bytes, next);
            if let Parsed::Done(_, end) = infix(bytes, next) {
                lemma_sep(bytes, end);
            }
        },
        None => {
            lemma_infix(bytes, start);
            if let Parsed::Done(_, end) = infix(bytes, start) {
                lemma_sep(bytes, end);
            }
        },
    }
}

pub proof fn lemma_infix(bytes: Seq<u8>, pos: int)
    requires
        0 <= pos <= bytes.len(),
    ensures
        infix(bytes, pos) matches Parsed::Done(_, end) ==> pos < end <= bytes.len(),
    decreases bytes.len() - pos, 4int,
{
    lemma_call(bytes, pos);
    if let Parsed::Done(first, next) = call(bytes, pos) {
        lemma_infix_rest(bytes, next, first);
    }
}

pub proof fn lemma_infix_rest(bytes: Seq<u8>, pos: int, left: LTerm)
    requires
        0 <= pos <= bytes.len(),
    ensures
        infix_rest(bytes, pos, left) matches Parsed::Done(_, end) ==> pos <= end <= bytes.len(),
    decreases bytes.len() - pos, 3int,
{
    lemma_sep(bytes, pos);
    let p = sep0(bytes, pos);
    lemma_tokens(bytes, p);
    if let Some((op, after)) = infix_operator(bytes, p) {
        lemma_sep(bytes, after);
        let start = sep0(bytes, after);
        lemma_call(bytes, start);
        if let Parsed::Done(right, next) = call(bytes, start) {
            lemma_infix_rest(bytes, next, infix_term(op, left, right));
        }
    }
}

pub proof fn lemma_call(bytes: Seq<u8>, pos: int)
    requires
        0 <= pos <= bytes.len(),
    ensures
        call(bytes, pos) matches Parsed::Done(_, end) ==> pos < end <= bytes.len(),
    decreases bytes.len() - pos, 2int,
{
    lemma_atom(bytes, pos);
    if let Parsed::Done(first, next) = atom(bytes, pos) {
        lemma_call_rest(bytes, next, first);
    }
}

pub proof fn lemma_call_rest(bytes: Seq<u8>, pos: int, func: LTerm)
    requires
        0 <= pos <= bytes.len(),
    ensures
        call_rest(bytes, pos, func) matches Parsed::Done(_, end) ==> pos <= end <= bytes.len(),
    decreases bytes.len() - pos, 1int,
{
    lemma_sep(bytes, pos);
    if let Some(start) = sep1(bytes, pos) {
        lemma_atom(bytes, start);
        if let Parsed::Done(param, next) = atom(bytes, start) {
            lemma_call_rest(
                bytes,
                next,
                LTerm::Apply { func: Box::new(func), param: Box::new(param) },
            );
        }
    }
}

pub proof fn lemma_atom(bytes: Seq<u8>, pos: int)
    requires
        0 <= pos <= bytes.len(),
    ensures
        atom(bytes, pos) matches Parsed::Done(_, end) ==> pos < end <= bytes.len(),
    decreases bytes.len() - pos, 1int,
{
    lemma_let_in(bytes, pos);
    lemma_group(bytes, pos);
    lemma_conditional(bytes, pos);
    lemma_leaf(bytes, pos);
}

pub proof fn lemma_block(bytes: Seq<u8>, pos: int)
    requires
        0 <= pos <= bytes.len(),
    ensures
        block(bytes, pos) matches Parsed::Done(_, end) ==> pos < end <= bytes.len(),
    decreases bytes.len() - pos, 0int,
{
    lemma_sep(bytes, pos);
    let start = sep0(bytes, pos);
    if start < bytes.len() && bytes[start] == 123 {
        lemma_expr(bytes, start + 1);
        if let Parsed::Done(_, end) = expr(bytes, start + 1) {
            if end < bytes.len() {
                lemma_sep(bytes, end + 1);
            }
        }
    }
}

pub proof fn lemma_conditional(bytes: Seq<u8>, pos: int)
    requires
        0 <= pos <= bytes.len(),
    ensures
        conditional(bytes, pos) matches Parsed::Done(_, end) ==> pos < end <= bytes.len(),
    decreases bytes.len() - pos, 0int,
{
    if at_if(bytes, pos) {
        lemma_expr(bytes, pos + 2);
        if let Parsed::Done(_, p1) = expr(bytes, pos + 2) {
            lemma_block(bytes, p1);
            if let Parsed::Done(_, p2) = block(bytes, p1) {
                if at_else(bytes, p2) {
                    lemma_block(bytes, p2 + 4);
                }
            }
        }
    }
}

pub proof fn lemma_binding(bytes: Seq<u8>, pos: int)
    requires
        0 <= pos <= bytes.len(),
    ensures
        binding(bytes, pos) matches Parsed::Done(_, end) ==> pos < end <= bytes.len(),
    decreases bytes.len() - pos, 0int,
{
    lemma_sep(bytes, pos);
    let p0 = match sep1(bytes, pos) {
        Some(p) => if at_rec(bytes, p) {
            p + 3
        } else {
            pos
        },
        None => pos,
    };
    lemma_sep(bytes, p0);
    if let Some(p1) = sep1(bytes, p0) {
        lemma_tokens(bytes, p1);
        if let Some((name, p2)) = identifier(bytes, p1) {
            lemma_params(bytes, p2);
            let p3 = params(bytes, p2).1;
            lemma_sep(bytes, p3);
            if let Some(p4) = sep1(bytes, p3) {
                if p4 < bytes.len() {
                    lemma_expr(bytes, p4 + 1);
                }
            }
        }
    }
}

pub proof fn lemma_bindings_rest(bytes: Seq<u8>, pos: int, found: Seq<LBinding>)
    requires
        0 <= pos <= bytes.len(),
    ensures
        bindings_rest(bytes, pos, found) matches Parsed::Done(_, end) ==> pos <= end
            <= bytes.len(),
    decreases bytes.len() - pos, 1int,
{
    lemma_binding(bytes, pos);
    if let Parsed::Done(b, next) = binding(bytes, pos) {
        lemma_bindings_rest(bytes, next, found.push(b));
    }
}

pub proof fn lemma_let_in(bytes: Seq<u8>, pos: int)
    requires
        0 <= pos <= bytes.len(),
    ensures
        let_in(bytes, pos) matches Parsed::Done(_, end) ==> pos < end <= bytes.len(),
    decreases bytes.len() - pos, 0int,
{
    if at_let(bytes, pos) {
        lemma_binding(bytes, pos + 3);
        if let Parsed::Done(first, p1) = binding(bytes, pos + 3) {
            lemma_bindings_rest(bytes, p1, seq![first]);
            if let Parsed::Done(_, p2) = bindings_rest(bytes, p1, seq![first]) {
                lemma_sep(bytes, p2);
                if let Some(p3) = sep1(bytes, p2) {
                    if at_in(bytes, p3) {
                        lemma_expr(bytes, p3 + 2);
                    }
                }
            }
        }
    }
}

pub proof fn lemma_group(bytes: Seq<u8>, pos: int)
    requires
        0 <= pos <= bytes.len(),
    ensures
        group(bytes, pos) matches Parsed::Done(_, end) ==> pos < end <= bytes.len(),
    decreases bytes.len() - pos, 0int,
{
    if at1(bytes, pos, 40) {
        lemma_expr(bytes, pos + 1);
    }
}


/// The text is no program.
#[derive(Debug, Clone, Copy, PartialEq, Eq, Structural)]
pub struct SyntaxError {}

/// How a rule ends at a position.
enum Step<T> {
    Done(T, usize),
    Error,
    Failure,
}

/// The exec result stands for the spec result.
closed spec fn term_step(r: Step<LNodeRef>, s: Parsed<LTerm>) -> bool {
    match s {
        Parsed::Done(t, end) => r matches Step::Done(node, e) && node@ == t && e == end,
        Parsed::Error => r is Error,
        Parsed::Failure => r is Failure,
    }
}

/// Whether the byte stands at the position.
fn is_at(bytes: &Vec<u8>, pos: usize, a: u8) -> (r: bool)
    ensures
        r == at1(bytes@, pos as int, a),
        r ==> pos < bytes.len(),
{
    pos < bytes.len() && bytes[pos] == a
}

/// Whether the two bytes stand at the position.
fn is_at2(bytes: &Vec<u8>, pos: usize, a: u8, b: u8) -> (r: bool)
    ensures
        r == at2(bytes@, pos as int, a, b),
        r ==> pos + 1 < bytes.len(),
{
    pos < bytes.len() && bytes[pos] == a && pos + 1 < bytes.len() && bytes[pos + 1] == b
}

/// Whether the three bytes stand at the position.
fn is_at3(bytes: &Vec<u8>, pos: usize, a: u8, b: u8, c: u8) -> (r: bool)
    ensures
        r == at3(bytes@, pos as int, a, b, c),
{
    is_at2(bytes, pos, a, b) && is_at(bytes, pos + 2, c)
}

/// Whether the four bytes stand at the position.
fn is_at4(bytes: &Vec<u8>, pos: usize, a: u8, b: u8, c: u8, d: u8) -> (r: bool)
    ensures
        r == at4(bytes@, pos as int, a, b, c, d),
{
    is_at2(bytes, pos, a, b) && is_at2(bytes, pos + 2, c, d)
}

fn skip_spaces(bytes: &Vec<u8>, pos: usize) -> (r: usize)
    requires
        pos <= bytes.len(),
    ensures
        r == spaces_end(bytes@, pos as int),
        pos <= r <= bytes.len(),
{
    let mut i = pos;
    while i < bytes.len() && (bytes[i] == 32 || bytes[i] == 9 || bytes[i] == 13 || bytes[i] == 10)
        invariant
            pos <= i <= bytes.len(),
            spaces_end(bytes@, i as int) == spaces_end(bytes@, pos as int),
        decreases bytes.len() - i,
    {
        i += 1;
    }
    i
}

fn skip_line(bytes: &Vec<u8>, pos: usize) -> (r: usize)
    requires
        pos <= bytes.len(),
    ensures
        r == line_end(bytes@, pos as int),
        pos <= r <= bytes.len(),
{
    let mut i = pos;
    while i < bytes.len() && bytes[i] != 10 && bytes[i] != 13
        invariant
            pos <= i <= bytes.len(),
            line_end(bytes@, i as int) == line_end(bytes@, pos as int),
        decreases bytes.len() - i,
    {
        i += 1;
    }
    i
}

fn alpha(b: u8) -> (r: bool)
    ensures
        r == is_alpha(b),
{
    (65 <= b && b <= 90) || (97 <= b && b <= 122)
}

fn digit(b: u8) -> (r: bool)
    ensures
        r == is_digit(b),
{
    48 <= b && b <= 57
}

fn plain(b: u8) -> (r: bool)
    ensures
        r == is_plain(b),
{
    alpha(b) || digit(b) || b == 32 || b == 10 || b == 33 || (35 <= b && b <= 47) || (58 <= b && b
        <= 64) || b == 91 || (93 <= b && b <= 96) || b == 124 || b == 126
}

fn skip_word(bytes: &Vec<u8>, pos: usize) -> (r: usize)
    requires
        pos <= bytes.len(),
    ensures
        r == word_end(bytes@, pos as int),
        pos <= r <= bytes.len(),
{
    let mut i = pos;
    while i < bytes.len() && (alpha(bytes[i]) || digit(bytes[i]) || bytes[i] == 95)
        invariant
            pos <= i <= bytes.len(),
            word_end(bytes@, i as int) == word_end(bytes@, pos as int),
        decreases bytes.len() - i,
    {
        i += 1;
    }
    i
}

fn skip_digits(bytes: &Vec<u8>, pos: usize) -> (r: usize)
    requires
        pos <= bytes.len(),
    ensures
        r == digits_end(bytes@, pos as int),
        pos <= r <= bytes.len(),
{
    let mut i = pos;
    while i < bytes.len() && digit(bytes[i])
        invariant
            pos <= i <= bytes.len(),
            digits_end(bytes@, i as int) == digits_end(bytes@, pos as int),
        decreases bytes.len() - i,
    {
        i += 1;
    }
    i
}

fn parse_sep(bytes: &Vec<u8>, pos: usize) -> (r: Option<usize>)
    requires
        pos <= bytes.len(),
    ensures
        match sep(bytes@, pos as int) {
            Some(next) => r == Some(next as usize) && pos < next <= bytes.len(),
            None => r.is_none(),
        },
{
    proof {
        lemma_sep(bytes@, pos as int);
    }
    if pos < bytes.len() && (bytes[pos] == 32 || bytes[pos] == 9 || bytes[pos] == 13 || bytes[pos]
        == 10) {
        Some(skip_spaces(bytes, pos))
    } else if is_at2(bytes, pos, 47, 47) && pos + 2 < bytes.len() && bytes[pos + 2]
        != 10 && bytes[pos + 2] != 13 {
        Some(skip_line(bytes, pos + 2))
    } else {
        None
    }
}

fn parse_sep0(bytes: &Vec<u8>, pos: usize) -> (r: usize)
    requires
        pos <= bytes.len(),
    ensures
        r == sep0(bytes@, pos as int),
        pos <= r <= bytes.len(),
{
    let mut i = pos;
    loop
        invariant
            pos <= i <= bytes.len(),
            sep0(bytes@, i as int) == sep0(bytes@, pos as int),
        decreases bytes.len() - i,
    {
        match parse_sep(bytes, i) {
            Some(next) => {
                i = next;
            },
            None => {
                return i;
            },
        }
    }
}

fn parse_sep1(bytes: &Vec<u8>, pos: usize) -> (r: Option<usize>)
    requires
        pos <= bytes.len(),
    ensures
        match sep1(bytes@, pos as int) {
            Some(next) => r == Some(next as usize) && pos < next <= bytes.len(),
            None => r.is_none(),
        },
{
    match parse_sep(bytes, pos) {
        Some(next) => Some(parse_sep0(bytes, next)),
        None => None,
    }
}

fn parse_identifier(bytes: &Vec<u8>, pos: usize) -> (r: Option<(crate::lasm::ast::Iden, usize)>)
    requires
        pos <= bytes.len(),
    ensures
        match identifier(bytes@, pos as int) {
            Some((name, end)) => r.is_some() && r.unwrap().0@ == ascii_text(name) && r.unwrap().1
                == end && pos < end <= bytes.len(),
            None => r.is_none(),
        },
{
    proof {
        lemma_tokens(bytes@, pos as int);
    }
    if pos < bytes.len() && (alpha(bytes[pos]) || bytes[pos] == 95) {
        let end = skip_word(bytes, pos + 1);
        if end - pos == 4 && (is_at4(bytes, pos, 116, 97, 107, 101) || is_at4(
            bytes,
            pos,
            100,
            114,
            111,
            112,
        )) {
            return None;
        }
        let name = crate::text::slice_bytes(bytes, pos, end);
        Some((crate::lasm::ast::Iden::new(crate::text::ascii_string(name)), end))
    } else {
        None
    }
}

fn parse_integer(bytes: &Vec<u8>, pos: usize) -> (r: Option<(i64, usize)>)
    requires
        pos <= bytes.len(),
    ensures
        match integer(bytes@, pos as int) {
            Some((v, end)) => r == Some((v as i64, end as usize)) && pos < end <= bytes.len()
                && 0 <= v <= i64::MAX,
            None => r.is_none(),
        },
{
    proof {
        lemma_digits_end(bytes@, pos as int);
    }
    if !(pos < bytes.len() && digit(bytes[pos])) {
        return None;
    }
    let end = skip_digits(bytes, pos);
    let ghost digits = decimal_digits_of(bytes@.subrange(pos as int, end as int));
    let mut value: i64 = 0;
    let mut overflow = false;
    let mut i: usize = pos;
    proof {
        assert(digits.subrange(0, 0) =~= Seq::<u8>::empty());
    }
    while i < end
        invariant
            pos <= i <= end <= bytes.len(),
            digits == decimal_digits_of(bytes@.subrange(pos as int, end as int)),
            forall|k: int| pos <= k < end ==> is_digit(#[trigger] bytes@[k]),
            0 <= value,
            !overflow ==> value == radix_value(digits.subrange(0, i - pos), 10),
            overflow ==> radix_value(digits.subrange(0, i - pos), 10) > i64::MAX,
        decreases end - i,
    {
        assert(is_digit(bytes@[i as int]));
        let d: i64 = (bytes[i] - 48) as i64;
        proof {
            let p = digits.subrange(0, i - pos + 1);
            assert(p.drop_last() =~= digits.subrange(0, i - pos));
            assert(p.last() == d);
            let v = radix_value(digits.subrange(0, i - pos), 10);
            assert(radix_value(p, 10) == v * 10 + d);
            assert(v * 10 + d >= v) by (nonlinear_arith)
                requires
                    v >= 0,
                    d >= 0,
            ;
        }
        if !overflow {
            if value > (i64::MAX - d) / 10 {
                overflow = true;
                assert(value * 10 + d > i64::MAX) by (nonlinear_arith)
                    requires
                        value > (i64::MAX - d) / 10,
                        0 <= d < 10,
                ;
            } else {
                assert(value * 10 + d <= i64::MAX) by (nonlinear_arith)
                    requires
                        0 <= value <= (i64::MAX - d) / 10,
                        0 <= d < 10,
                ;
                value = value * 10 + d;
            }
        }
        i += 1;
    }
    proof {
        assert(digits.subrange(0, end - pos) =~= digits);
    }
    if overflow {
        None
    } else {
        Some((value, end))
    }
}

fn parse_boolean(bytes: &Vec<u8>, pos: usize) -> (r: Option<(bool, usize)>)
    requires
        pos <= bytes.len(),
    ensures
        match boolean(bytes@, pos as int) {
            Some((b, end)) => r == Some((b, end as usize)) && pos < end <= bytes.len(),
            None => r.is_none(),
        },
{
    if is_at4(bytes, pos, 116, 114, 117, 101) {
        Some((true, pos + 4))
    } else if (is_at4(bytes, pos, 102, 97, 108, 115) && is_at(bytes, pos + 4, 101)) {
        Some((false, pos + 5))
    } else {
        None
    }
}

/// The characters read so far, followed by the characters still to read.
closed spec fn prepended(read: Seq<u8>, rest: Parsed<Seq<u8>>) -> Parsed<Seq<u8>> {
    match rest {
        Parsed::Done(more, end) => Parsed::Done(read + more, end),
        _ => Parsed::Failure,
    }
}

fn parse_string(bytes: &Vec<u8>, pos: usize) -> (r: Step<String>)
    requires
        pos <= bytes.len(),
    ensures
        match string(bytes@, pos as int) {
            Parsed::Done(body, end) => r matches Step::Done(s, e) && s@ == ascii_text(body) && e
                == end && pos < end <= bytes.len(),
            Parsed::Error => r is Error,
            Parsed::Failure => r is Failure,
        },
{
    if !(pos < bytes.len() && bytes[pos] == 34) {
        return Step::Error;
    }
    let mut body: Vec<u8> = Vec::new();
    let mut i: usize = pos + 1;
    proof {
        lemma_string_body(bytes@, pos + 1);
        let whole = string_body(bytes@, pos + 1);
        if let Parsed::Done(more, end) = whole {
            assert(Seq::<u8>::empty() + more =~= more);
        }
    }
    loop
        invariant
            pos < i <= bytes.len(),
            bytes@[pos as int] == 34,
            string_body(bytes@, pos + 1) == prepended(body@, string_body(bytes@, i as int)),
            crate::text::is_ascii_bytes(body@),
        decreases bytes.len() - i,
    {
        let ghost before = body@;
        if i < bytes.len() && bytes[i] == 92 {
            if i + 1 < bytes.len() && (bytes[i + 1] == 34 || bytes[i + 1] == 92) {
                body.push(bytes[i + 1]);
                proof {
                    if let Parsed::Done(more, end) = string_body(bytes@, i + 2) {
                        assert(before + (seq![bytes@[i + 1]] + more) =~= body@ + more);
                    }
                }
                i += 2;
            } else {
                return Step::Failure;
            }
        } else if i < bytes.len() && plain(bytes[i]) {
            body.push(bytes[i]);
            proof {
                if let Parsed::Done(more, end) = string_body(bytes@, i + 1) {
                    assert(before + (seq![bytes@[i as int]] + more) =~= body@ + more);
                }
            }
            i += 1;
        } else {
            proof {
                assert(before + Seq::<u8>::empty() =~= before);
            }
            if i < bytes.len() && bytes[i] == 34 {
                return Step::Done(crate::text::ascii_string(body), i + 1);
            } else {
                return Step::Error;
            }
        }
    }
}

fn parse_prefix_operator(bytes: &Vec<u8>, pos: usize) -> (r: Option<(UnuaryOp, usize)>)
    requires
        pos <= bytes.len(),
    ensures
        match prefix_operator(bytes@, pos as int) {
            Some((op, end)) => r == Some((op, end as usize)) && pos < end <= bytes.len(),
            None => r.is_none(),
        },
{
    if is_at(bytes, pos, 45) {
        Some((UnuaryOp::IntNeg, pos + 1))
    } else if is_at(bytes, pos, 33) {
        Some((UnuaryOp::BoolNot, pos + 1))
    } else if (is_at4(bytes, pos, 115, 116, 114, 50) && is_at3(bytes, pos + 4, 105, 110, 116)) {
        Some((UnuaryOp::StrToInt, pos + 7))
    } else if (is_at4(bytes, pos, 105, 110, 116, 50) && is_at3(bytes, pos + 4, 115, 116, 114)) {
        Some((UnuaryOp::IntToStr, pos + 7))
    } else {
        None
    }
}

fn parse_infix_operator(bytes: &Vec<u8>, pos: usize) -> (r: Option<((BinaryOp, bool), usize)>)
    requires
        pos <= bytes.len(),
    ensures
        match infix_operator(bytes@, pos as int) {
            Some((op, end)) => r == Some((op, end as usize)) && pos < end <= bytes.len(),
            None => r.is_none(),
        },
{
    if is_at(bytes, pos, 43) {
        Some(((BinaryOp::IntAdd, false), pos + 1))
    } else if is_at(bytes, pos, 45) {
        Some(((BinaryOp::IntSub, false), pos + 1))
    } else if is_at(bytes, pos, 42) {
        Some(((BinaryOp::IntMul, false), pos + 1))
    } else if is_at(bytes, pos, 47) {
        Some(((BinaryOp::IntDiv, false), pos + 1))
    } else if is_at(bytes, pos, 37) {
        Some(((BinaryOp::IntMod, false), pos + 1))
    } else if is_at(bytes, pos, 60) {
        Some(((BinaryOp::IntLt, false), pos + 1))
    } else if is_at(bytes, pos, 62) {
        Some(((BinaryOp::IntGt, false), pos + 1))
    } else if is_at(bytes, pos, 124) {
        Some(((BinaryOp::BoolOr, false), pos + 1))
    } else if is_at(bytes, pos, 38) {
        Some(((BinaryOp::BoolAnd, false), pos + 1))
    } else if is_at(bytes, pos, 46) {
        Some(((BinaryOp::StrConcat, false), pos + 1))
    } else if is_at4(bytes, pos, 116, 97, 107, 101) {
        Some(((BinaryOp::StrTake, true), pos + 4))
    } else if is_at4(bytes, pos, 100, 114, 111, 112) {
        Some(((BinaryOp::StrDrop, true), pos + 4))
    } else if is_at2(bytes, pos, 61, 61) {
        Some(((BinaryOp::Eq, false), pos + 2))
    } else {
        None
    }
}

fn parse_params(bytes: &Vec<u8>, pos: usize) -> (r: (Vec<crate::lasm::ast::Iden>, usize))
    requires
        pos <= bytes.len(),
    ensures
        crate::lasm::ast::names_of(r.0@) == params(bytes@, pos as int).0,
        r.1 == params(bytes@, pos as int).1,
        pos <= r.1 <= bytes.len(),
{
    let mut found: Vec<crate::lasm::ast::Iden> = Vec::new();
    let mut i: usize = pos;
    proof {
        assert(crate::lasm::ast::names_of(found@) =~= Seq::<Seq<char>>::empty());
        assert(Seq::<Seq<char>>::empty() + params(bytes@, pos as int).0 =~= params(
            bytes@,
            pos as int,
        ).0);
    }
    loop
        invariant
            pos <= i <= bytes.len(),
            params(bytes@, pos as int).0 == crate::lasm::ast::names_of(found@) + params(
                bytes@,
                i as int,
            ).0,
            params(bytes@, pos as int).1 == params(bytes@, i as int).1,
        decreases bytes.len() - i,
    {
        let start = match parse_sep1(bytes, i) {
            Some(start) => start,
            None => {
                proof {
                    assert(crate::lasm::ast::names_of(found@) + Seq::<Seq<char>>::empty()
                        =~= crate::lasm::ast::names_of(found@));
                }
                return (found, i);
            },
        };
        let (name, end) = match parse_identifier(bytes, start) {
            Some(pair) => pair,
            None => {
                proof {
                    assert(crate::lasm::ast::names_of(found@) + Seq::<Seq<char>>::empty()
                        =~= crate::lasm::ast::names_of(found@));
                }
                return (found, i);
            },
        };
        let ghost before = crate::lasm::ast::names_of(found@);
        let ghost text = name@;
        found.push(name);
        proof {
            assert(crate::lasm::ast::names_of(found@) =~= before.push(text));
            assert(before + (seq![text] + params(bytes@, end as int).0) =~= before.push(text)
                + params(bytes@, end as int).0);
        }
        i = end;
    }
}


/// The exec result stands for the spec result.
closed spec fn binding_step(r: Step<Binding>, s: Parsed<LBinding>) -> bool {
    match s {
        Parsed::Done(b, end) => r matches Step::Done(binding, e) && binding.model() == b && e
            == end,
        Parsed::Error => r is Error,
        Parsed::Failure => r is Failure,
    }
}

fn parse_expr(bytes: &Vec<u8>, pos: usize) -> (r: Step<LNodeRef>)
    requires
        pos <= bytes.len(),
    ensures
        term_step(r, expr(bytes@, pos as int)),
        r matches Step::Done(_, end) ==> pos < end <= bytes.len(),
    decreases bytes.len() - pos, 5int,
{
    proof {
        lemma_expr(bytes@, pos as int);
    }
    let start = parse_sep0(bytes, pos);
    match parse_prefix_operator(bytes, start) {
        Some((op, next)) => match parse_infix(bytes, next) {
            Step::Done(t, end) => Step::Done(LNode::unuary_op(op, t), parse_sep0(bytes, end)),
            Step::Error => Step::Error,
            Step::Failure => Step::Failure,
        },
        None => match parse_infix(bytes, start) {
            Step::Done(t, end) => Step::Done(t, parse_sep0(bytes, end)),
            Step::Error => Step::Error,
            Step::Failure => Step::Failure,
        },
    }
}

/// The binary operation of an operator on two operands as they are written.
fn infix_node(op: (BinaryOp, bool), left: LNodeRef, right: LNodeRef) -> (r: LNodeRef)
    ensures
        r@ == infix_term(op, left@, right@),
{
    if op.1 {
        LNode::binary_op(op.0, right, left)
    } else {
        LNode::binary_op(op.0, left, right)
    }
}

fn parse_infix(bytes: &Vec<u8>, pos: usize) -> (r: Step<LNodeRef>)
    requires
        pos <= bytes.len(),
    ensures
        term_step(r, infix(bytes@, pos as int)),
        r matches Step::Done(_, end) ==> pos < end <= bytes.len(),
    decreases bytes.len() - pos, 4int,
{
    proof {
        lemma_infix(bytes@, pos as int);
    }
    let (first, next) = match parse_call(bytes, pos) {
        Step::Done(t, next) => (t, next),
        Step::Error => {
            return Step::Error;
        },
        Step::Failure => {
            return Step::Failure;
        },
    };
    let mut acc = first;
    let mut cursor = next;
    loop
        invariant
            pos < cursor <= bytes.len(),
            infix(bytes@, pos as int) == infix_rest(bytes@, cursor as int, acc@),
        decreases bytes.len() - cursor,
    {
        let p = parse_sep0(bytes, cursor);
        let (op, after) = match parse_infix_operator(bytes, p) {
            Some(pair) => pair,
            None => {
                return Step::Done(acc, cursor);
            },
        };
        let start = parse_sep0(bytes, after);
        match parse_call(bytes, start) {
            Step::Done(right, next) => {
                acc = infix_node(op, acc, right);
                cursor = next;
            },
            Step::Error => {
                return Step::Done(acc, cursor);
            },
            Step::Failure => {
                return Step::Failure;
            },
        }
    }
}

fn parse_call(bytes: &Vec<u8>, pos: usize) -> (r: Step<LNodeRef>)
    requires
        pos <= bytes.len(),
    ensures
        term_step(r, call(bytes@, pos as int)),
        r matches Step::Done(_, end) ==> pos < end <= bytes.len(),
    decreases bytes.len() - pos, 2int,
{
    proof {
        lemma_call(bytes@, pos as int);
    }
    let (first, next) = match parse_atom(bytes, pos) {
        Step::Done(t, next) => (t, next),
        Step::Error => {
            return Step::Error;
        },
        Step::Failure => {
            return Step::Failure;
        },
    };
    let mut acc = first;
    let mut cursor = next;
    loop
        invariant
            pos < cursor <= bytes.len(),
            call(bytes@, pos as int) == call_rest(bytes@, cursor as int, acc@),
        decreases bytes.len() - cursor,
    {
        let start = match parse_sep1(bytes, cursor) {
            Some(start) => start,
            None => {
                return Step::Done(acc, cursor);
            },
        };
        match parse_atom(bytes, start) {
            Step::Done(param, next) => {
                acc = LNode::apply(acc, param);
                cursor = next;
            },
            Step::Error => {
                return Step::Done(acc, cursor);
            },
            Step::Failure => {
                return Step::Failure;
            },
        }
    }
}

fn parse_leaf(bytes: &Vec<u8>, pos: usize) -> (r: Step<LNodeRef>)
    requires
        pos <= bytes.len(),
    ensures
        term_step(r, leaf(bytes@, pos as int)),
        r matches Step::Done(_, end) ==> pos < end <= bytes.len(),
{
    match parse_integer(bytes, pos) {
        Some((v, end)) => {
            return Step::Done(LNode::integer(v), end);
        },
        None => {},
    }
    match parse_boolean(bytes, pos) {
        Some((b, end)) => {
            return Step::Done(LNode::boolean(b), end);
        },
        None => {},
    }
    match parse_string(bytes, pos) {
        Step::Done(s, end) => {
            return Step::Done(LNode::string(s), end);
        },
        Step::Failure => {
            return Step::Failure;
        },
        Step::Error => {},
    }
    match parse_identifier(bytes, pos) {
        Some((name, end)) => Step::Done(LNode::var(name), end),
        None => Step::Error,
    }
}

fn parse_atom(bytes: &Vec<u8>, pos: usize) -> (r: Step<LNodeRef>)
    requires
        pos <= bytes.len(),
    ensures
        term_step(r, atom(bytes@, pos as int)),
        r matches Step::Done(_, end) ==> pos < end <= bytes.len(),
    decreases bytes.len() - pos, 1int,
{
    proof {
        lemma_atom(bytes@, pos as int);
    }
    match parse_let(bytes, pos) {
        Step::Error => {},
        other => {
            return other;
        },
    }
    match parse_group(bytes, pos) {
        Step::Error => {},
        other => {
            return other;
        },
    }
    match parse_conditional(bytes, pos) {
        Step::Error => {},
        other => {
            return other;
        },
    }
    parse_leaf(bytes, pos)
}

fn parse_group(bytes: &Vec<u8>, pos: usize) -> (r: Step<LNodeRef>)
    requires
        pos <= bytes.len(),
    ensures
        term_step(r, group(bytes@, pos as int)),
    decreases bytes.len() - pos, 0int,
{
    if !is_at(bytes, pos, 40) {
        return Step::Error;
    }
    match parse_expr(bytes, pos + 1) {
        Step::Done(t, end) => {
            if is_at(bytes, end, 41) {
                Step::Done(t, end + 1)
            } else {
                Step::Error
            }
        },
        _ => Step::Failure,
    }
}

fn parse_block(bytes: &Vec<u8>, pos: usize) -> (r: Step<LNodeRef>)
    requires
        pos <= bytes.len(),
    ensures
        term_step(r, block(bytes@, pos as int)),
        r matches Step::Done(_, end) ==> pos < end <= bytes.len(),
    decreases bytes.len() - pos, 0int,
{
    proof {
        lemma_block(bytes@, pos as int);
    }
    let start = parse_sep0(bytes, pos);
    if !is_at(bytes, start, 123) {
        return Step::Error;
    }
    match parse_expr(bytes, start + 1) {
        Step::Done(t, end) => {
            if is_at(bytes, end, 125) {
                Step::Done(t, parse_sep0(bytes, end + 1))
            } else {
                Step::Error
            }
        },
        _ => Step::Failure,
    }
}

fn parse_conditional(bytes: &Vec<u8>, pos: usize) -> (r: Step<LNodeRef>)
    requires
        pos <= bytes.len(),
    ensures
        term_step(r, conditional(bytes@, pos as int)),
    decreases bytes.len() - pos, 0int,
{
    if !is_at2(bytes, pos, 105, 102) {
        return Step::Error;
    }
    let (cond, p1) = match parse_expr(bytes, pos + 2) {
        Step::Done(t, next) => (t, next),
        Step::Error => {
            return Step::Error;
        },
        Step::Failure => {
            return Step::Failure;
        },
    };
    let (then_do, p2) = match parse_block(bytes, p1) {
        Step::Done(t, next) => (t, next),
        _ => {
            return Step::Failure;
        },
    };
    if !is_at4(bytes, p2, 101, 108, 115, 101) {
        return Step::Error;
    }
    match parse_block(bytes, p2 + 4) {
        Step::Done(else_do, p3) => Step::Done(LNode::cond(cond, then_do, else_do), p3),
        _ => Step::Failure,
    }
}

fn parse_binding(bytes: &Vec<u8>, pos: usize) -> (r: Step<Binding>)
    requires
        pos <= bytes.len(),
    ensures
        binding_step(r, binding(bytes@, pos as int)),
        r matches Step::Done(_, end) ==> pos < end <= bytes.len(),
    decreases bytes.len() - pos, 0int,
{
    proof {
        lemma_binding(bytes@, pos as int);
    }
    let (rec, p0) = match parse_sep1(bytes, pos) {
        Some(p) => {
            if is_at3(bytes, p, 114, 101, 99) {
                (true, p + 3)
            } else {
                (false, pos)
            }
        },
        None => (false, pos),
    };
    let p1 = match parse_sep1(bytes, p0) {
        Some(p) => p,
        None => {
            return Step::Error;
        },
    };
    let (name, p2) = match parse_identifier(bytes, p1) {
        Some(pair) => pair,
        None => {
            return Step::Error;
        },
    };
    let (names, p3) = parse_params(bytes, p2);
    let p4 = match parse_sep1(bytes, p3) {
        Some(p) => p,
        None => {
            return Step::Error;
        },
    };
    if !is_at(bytes, p4, 61) {
        return Step::Error;
    }
    match parse_expr(bytes, p4 + 1) {
        Step::Done(value, p5) => {
            if is_at(bytes, p5, 59) {
                Step::Done(Binding::new(rec, name, names, value), p5 + 1)
            } else {
                Step::Error
            }
        },
        _ => Step::Failure,
    }
}

fn parse_let(bytes: &Vec<u8>, pos: usize) -> (r: Step<LNodeRef>)
    requires
        pos <= bytes.len(),
    ensures
        term_step(r, let_in(bytes@, pos as int)),
    decreases bytes.len() - pos, 0int,
{
    if !is_at3(bytes, pos, 108, 101, 116) {
        return Step::Error;
    }
    let (first, p1) = match parse_binding(bytes, pos + 3) {
        Step::Done(b, next) => (b, next),
        _ => {
            return Step::Failure;
        },
    };
    let mut bindings: Vec<Binding> = Vec::new();
    let ghost first_model = first.model();
    proof {
        crate::lasm::ast::lemma_models_push(bindings@, first);
        assert(crate::lasm::ast::models_of(bindings@, 0) =~= Seq::<LBinding>::empty());
        assert(Seq::<LBinding>::empty().push(first_model) =~= seq![first_model]);
    }
    bindings.push(first);
    let mut cursor = p1;
    loop
        invariant
            pos < cursor <= bytes.len(),
            at_let(bytes@, pos as int),
            binding(bytes@, pos + 3) matches Parsed::Done(b, next) && b == first_model && next
                == p1,
            pos < p1,
            bindings_rest(bytes@, p1 as int, seq![first_model]) == bindings_rest(
                bytes@,
                cursor as int,
                crate::lasm::ast::models_of(bindings@, bindings@.len() as int),
            ),
        decreases bytes.len() - cursor,
    {
        match parse_binding(bytes, cursor) {
            Step::Done(b, next) => {
                proof {
                    crate::lasm::ast::lemma_models_push(bindings@, b);
                }
                bindings.push(b);
                cursor = next;
            },
            Step::Error => {
                let p3 = match parse_sep1(bytes, cursor) {
                    Some(p) => p,
                    None => {
                        return Step::Failure;
                    },
                };
                if !is_at2(bytes, p3, 105, 110) {
                    return Step::Failure;
                }
                return match parse_expr(bytes, p3 + 2) {
                    Step::Done(body, p4) => Step::Done(Rc::new(LNode::Let { bindings, body }), p4),
                    _ => Step::Failure,
                };
            },
            Step::Failure => {
                return Step::Failure;
            },
        }
    }
}

/// The program that a text is.
pub fn parse(input: &str) -> (r: Result<LNodeRef, SyntaxError>)
    ensures
        match program(input.spec_bytes()) {
            Some(t) => r.is_ok() && r.unwrap()@ == t,
            None => r.is_err(),
        },
{
    let bytes = crate::text::bytes_of(input);
    match parse_expr(&bytes, 0) {
        Step::Done(t, end) => {
            if end == bytes.len() {
                Ok(t)
            } else {
                Err(SyntaxError {  })
            }
        },
        _ => Err(SyntaxError {  }),
    }
}

} // verus!
