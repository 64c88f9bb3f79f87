//! Writing and reading are inverse: the parser reads back every expression
//! that the serializer writes.

use crate::base94::is_wire;
use crate::base94::is_wire_byte;
use crate::base94::lemma_decode_encode;
use crate::base94::lemma_text_wire_round_trip;
use crate::base94::text_to_wire;
use crate::base94::wire_digits;
use crate::base94::wire_value;
use crate::bigint::radix_value;
use crate::icfp::ast::BinaryOp;
use crate::icfp::ast::Literal;
use crate::icfp::ast::Term;
use crate::icfp::ast::UnuaryOp;
use crate::icfp::base94::wire_of_number;
use crate::icfp::lexer::field_end;
use crate::icfp::lexer::lexeme_of;
use crate::icfp::lexer::next_lexeme;
use crate::icfp::lexer::skip_spaces;
use crate::icfp::lexer::LexError;
use crate::icfp::lexer::Lexeme;
use crate::icfp::lexer::Token;
use crate::icfp::parser::head_of;
use crate::icfp::parser::parse_term;
use crate::icfp::parser::Head;
use crate::icfp::parser::ParsingError;
use crate::icfp::serializer::all_writable;
use crate::icfp::serializer::binary_token;
use crate::icfp::serializer::lemma_writable_tokens;
use crate::icfp::serializer::lexemes_of;
use crate::icfp::serializer::wire_of_lexemes;
use crate::icfp::serializer::wire_of_term;
use crate::icfp::serializer::writable;
use crate::text::ascii_bytes;
use crate::text::ascii_text;
use vstd::prelude::*;

verus! {

/// No integer literal of the term is below zero.
pub open spec fn unsigned(t: Term) -> bool
    decreases t,
{
    match t {
        Term::Value(Literal::Int(i)) => i >= 0,
        Term::Value(_) => true,
        Term::Lambda { var, body } => unsigned(*body),
        Term::Variable(_) => true,
        Term::Apply { f, value } => unsigned(*f) && unsigned(*value),
        Term::BinaryOp { op, left, right } => unsigned(*left) && unsigned(*right),
        Term::UnuaryOp { op, body } => unsigned(*body),
        Term::If { cond, then_do, else_do } => unsigned(*cond) && unsigned(*then_do) && unsigned(
            *else_do,
        ),
    }
}

/// The position in the text of the tokens at which the reader stands before
/// it reads the `k`th token: the start for the first, and the end of the
/// token before for every other.
pub open spec fn cursor(tokens: Seq<Lexeme>, k: int) -> int
    decreases k,
{
    if k <= 0 {
        0
    } else if k == 1 {
        Token::wire(tokens[0]).len() as int
    } else {
        cursor(tokens, k - 1) + 1 + Token::wire(tokens[k - 1]).len()
    }
}

/// The text of ASCII characters' bytes is the characters.
pub proof fn lemma_ascii_text_of_bytes(s: Seq<char>)
    requires
        vstd::utf8::is_ascii_chars(s),
    ensures
        ascii_text(ascii_bytes(s)) == s,
{
    vstd::utf8::is_ascii_chars_nat_bound(s);
    assert forall|i: int| 0 <= i < s.len() implies ascii_text(ascii_bytes(s))[i] == s[i] by {
        assert((s[i] as nat) < 128);
    }
    assert(ascii_text(ascii_bytes(s)) =~= s);
}

/// The number of a token's digits is the number.
pub proof fn lemma_number_wire(n: nat)
    ensures
        is_wire(wire_of_number(n)),
        wire_of_number(n).len() > 0,
        wire_value(wire_of_number(n)) == n,
{
    let wire = wire_of_number(n);
    if n > 0 {
        lemma_decode_encode(n);
    } else {
        assert(is_wire_byte(wire[0]));
        let digits = wire_digits(wire);
        assert(digits.drop_last() =~= Seq::<u8>::empty());
        assert(radix_value(digits.drop_last(), 94) == 0);
        assert(digits.last() == 0);
    }
}

/// The field of a token is a run of wire bytes, and is read as the token.
pub proof fn lemma_token_wire(l: Lexeme)
    requires
        Token::writable(l),
    ensures
        is_wire(Token::wire(l)),
        Token::wire(l).len() > 0,
        lexeme_of(Token::wire(l)) == Some(l),
{
    reveal(lexeme_of);
    let w = Token::wire(l);
    let payload = w.subrange(1, w.len() as int);
    match l {
        Lexeme::Integer(n) => {
            lemma_number_wire(n as nat);
            assert(payload =~= wire_of_number(n as nat));
            assert forall|i: int| 0 <= i < w.len() implies is_wire_byte(#[trigger] w[i]) by {
                if i > 0 {
                    assert(w[i] == wire_of_number(n as nat)[i - 1]);
                }
            }
        },
        Lexeme::Lambda(id) => {
            lemma_number_wire(id as nat);
            assert(payload =~= wire_of_number(id as nat));
            assert forall|i: int| 0 <= i < w.len() implies is_wire_byte(#[trigger] w[i]) by {
                if i > 0 {
                    assert(w[i] == wire_of_number(id as nat)[i - 1]);
                }
            }
        },
        Lexeme::Variable(id) => {
            lemma_number_wire(id as nat);
            assert(payload =~= wire_of_number(id as nat));
            assert forall|i: int| 0 <= i < w.len() implies is_wire_byte(#[trigger] w[i]) by {
                if i > 0 {
                    assert(w[i] == wire_of_number(id as nat)[i - 1]);
                }
            }
        },
        Lexeme::String(s) => {
            let text = ascii_bytes(s);
            lemma_text_wire_round_trip(text);
            lemma_ascii_text_of_bytes(s);
            assert(payload =~= text_to_wire(text));
            assert forall|i: int| 0 <= i < w.len() implies is_wire_byte(#[trigger] w[i]) by {
                if i > 0 {
                    assert(w[i] == text_to_wire(text)[i - 1]);
                }
            }
        },
        _ => {
            assert(w.len() <= 2);
            if w.len() == 2 {
                assert(payload =~= seq![w[1]]);
            } else {
                assert(payload =~= Seq::<u8>::empty());
            }
        },
    }
}

/// A run of wire bytes that ends at the end of the text, or before a byte
/// that is not of the wire, is one field.
pub proof fn lemma_field_end(bytes: Seq<u8>, pos: int, end: int)
    requires
        0 <= pos <= end <= bytes.len(),
        forall|i: int| pos <= i < end ==> is_wire_byte(#[trigger] bytes[i]),
        end == bytes.len() || !is_wire_byte(bytes[end]),
    ensures
        field_end(bytes, pos) == end,
    decreases end - pos,
{
    if pos < end {
        lemma_field_end(bytes, pos + 1, end);
    }
}

/// A field that stands at a position, or behind one space, is the next token
/// there.
pub proof fn lemma_next_lexeme_reads(bytes: Seq<u8>, pos: int, start: int, l: Lexeme)
    requires
        Token::writable(l),
        0 <= pos <= start,
        start == pos || (start == pos + 1 && bytes[pos] == 32),
        start + Token::wire(l).len() <= bytes.len(),
        bytes.subrange(start, start + Token::wire(l).len()) == Token::wire(l),
        start + Token::wire(l).len() == bytes.len() || bytes[start + Token::wire(l).len()] == 32,
    ensures
        next_lexeme(bytes, pos) == Some(
            (Ok::<Lexeme, LexError>(l), start + Token::wire(l).len()),
        ),
{
    reveal(next_lexeme);
    lemma_token_wire(l);
    let w = Token::wire(l);
    let end = start + w.len();
    assert forall|i: int| start <= i < end implies is_wire_byte(#[trigger] bytes[i]) by {
        assert(bytes[i] == bytes.subrange(start, end)[i - start]);
        assert(is_wire_byte(w[i - start]));
    }
    lemma_field_end(bytes, start, end);
    assert(is_wire_byte(bytes[start]));
    assert(skip_spaces(bytes, start) == start);
    if start == pos + 1 {
        assert(skip_spaces(bytes, pos) == skip_spaces(bytes, pos + 1));
    }
}

/// Where the tokens stand in their text: each at its cursor, or one space
/// behind it, and the text ends with the last.
pub proof fn lemma_layout(tokens: Seq<Lexeme>, k: int)
    requires
        all_writable(tokens),
        0 <= k < tokens.len(),
    ensures
        0 <= cursor(tokens, k) < cursor(tokens, k + 1) <= wire_of_lexemes(tokens).len(),
        cursor(tokens, tokens.len() as int) == wire_of_lexemes(tokens).len(),
        ({
            let bytes = wire_of_lexemes(tokens);
            let w = Token::wire(tokens[k]);
            let start = cursor(tokens, k + 1) - w.len();
            &&& bytes.subrange(start, start + w.len()) == w
            &&& (start == cursor(tokens, k) || (start == cursor(tokens, k) + 1
                && bytes[cursor(tokens, k)] == 32))
            &&& (cursor(tokens, k + 1) == bytes.len() || bytes[cursor(tokens, k + 1)] == 32)
        }),
    decreases tokens.len(),
{
    let n = tokens.len() as int;
    let bytes = wire_of_lexemes(tokens);
    let last = Token::wire(tokens.last());
    assert(Token::writable(tokens[n - 1]));
    lemma_token_wire(tokens[n - 1]);
    assert(Token::writable(tokens[k]));
    lemma_token_wire(tokens[k]);
    if n == 1 {
        assert(bytes.subrange(0, last.len() as int) =~= last);
    } else {
        let init = tokens.drop_last();
        assert(all_writable(init)) by {
            assert forall|i: int| 0 <= i < init.len() implies Token::writable(#[trigger] init[i]) by {
                assert(init[i] == tokens[i]);
            }
        }
        let front = wire_of_lexemes(init);
        assert(bytes == front + seq![32u8] + last);
        lemma_cursor_prefix(tokens, init, n - 1);
        lemma_layout(init, n - 2);
        assert(cursor(tokens, n - 1) == front.len());
        assert(cursor(tokens, n) == front.len() + 1 + last.len());
        if k == n - 1 {
            assert(bytes.subrange(front.len() as int + 1, front.len() as int + 1 + last.len()) =~= last);
            assert(bytes[front.len() as int] == 32);
        } else {
            lemma_layout(init, k);
            lemma_cursor_prefix(tokens, init, k + 1);
            lemma_cursor_prefix(tokens, init, k);
            let w = Token::wire(tokens[k]);
            assert(init[k] == tokens[k]);
            let start = cursor(tokens, k + 1) - w.len();
            assert(bytes.subrange(start, start + w.len()) =~= front.subrange(
                start,
                start + w.len(),
            ));
            if cursor(init, k + 1) == front.len() {
                assert(bytes[front.len() as int] == 32);
            } else {
                assert(bytes[cursor(tokens, k + 1)] == front[cursor(init, k + 1)]);
            }
            if start == cursor(tokens, k) + 1 {
                assert(bytes[cursor(tokens, k)] == front[cursor(init, k)]);
            }
        }
    }
}

/// The cursors of the first tokens do not depend on the tokens behind them.
pub proof fn lemma_cursor_prefix(tokens: Seq<Lexeme>, init: Seq<Lexeme>, k: int)
    requires
        init.len() <= tokens.len(),
        forall|i: int| 0 <= i < init.len() ==> init[i] == tokens[i],
        0 <= k <= init.len(),
    ensures
        cursor(tokens, k) == cursor(init, k),
    decreases k,
{
    if k > 1 {
        lemma_cursor_prefix(tokens, init, k - 1);
    }
}

/// The reader reads the tokens of a text of tokens one by one.
pub proof fn lemma_reads(tokens: Seq<Lexeme>, k: int)
    requires
        all_writable(tokens),
        0 <= k < tokens.len(),
    ensures
        next_lexeme(wire_of_lexemes(tokens), cursor(tokens, k)) == Some(
            (Ok::<Lexeme, LexError>(tokens[k]), cursor(tokens, k + 1)),
        ),
        0 <= cursor(tokens, k) < cursor(tokens, k + 1) <= wire_of_lexemes(tokens).len(),
{
    lemma_layout(tokens, k);
    let bytes = wire_of_lexemes(tokens);
    let w = Token::wire(tokens[k]);
    let start = cursor(tokens, k + 1) - w.len();
    assert(Token::writable(tokens[k]));
    lemma_next_lexeme_reads(bytes, cursor(tokens, k), start, tokens[k]);
}

/// What the tokens of the serializer begin.
pub proof fn lemma_heads(t: Term)
    requires
        unsigned(t),
    ensures
        lexemes_of(t).len() > 0,
        match t {
            Term::Value(_) => lexemes_of(t).len() == 1 && head_of(lexemes_of(t)[0]) == Head::Leaf(
                t,
            ),
            Term::Variable(_) => lexemes_of(t).len() == 1 && head_of(lexemes_of(t)[0])
                == Head::Leaf(t),
            Term::Lambda { var, body } => head_of(lexemes_of(t)[0]) == Head::Lambda(var),
            Term::Apply { f, value } => head_of(lexemes_of(t)[0]) == Head::Apply,
            Term::BinaryOp { op, left, right } => head_of(lexemes_of(t)[0]) == Head::Binary(op),
            Term::UnuaryOp { op, body } => head_of(lexemes_of(t)[0]) == Head::Unary(op),
            Term::If { cond, then_do, else_do } => head_of(lexemes_of(t)[0]) == Head::If,
        },
{
    reveal(head_of);
}

/// The parser reads back an expression from the place of its tokens among
/// the tokens of a text.
pub proof fn lemma_parse_tokens(all: Seq<Lexeme>, k: int, t: Term)
    requires
        all_writable(all),
        unsigned(t),
        0 <= k,
        k + lexemes_of(t).len() <= all.len(),
        all.subrange(k, k + lexemes_of(t).len()) == lexemes_of(t),
    ensures
        parse_term(wire_of_lexemes(all), cursor(all, k)) == Ok::<(Term, int), ParsingError>(
            (t, cursor(all, k + lexemes_of(t).len())),
        ),
    decreases t,
{
    let bytes = wire_of_lexemes(all);
    let own = lexemes_of(t);
    lemma_heads(t);
    lemma_reads(all, k);
    assert(all[k] == own[0]) by {
        assert(all.subrange(k, k + own.len())[0] == all[k]);
    }
    match t {
        Term::Value(_) => {},
        Term::Variable(_) => {},
        Term::Lambda { var, body } => {
            assert(own.subrange(1, 1 + lexemes_of(*body).len() as int) =~= lexemes_of(*body));
            lemma_child(all, k, own, 1, lexemes_of(*body));
            lemma_parse_tokens(all, k + 1, *body);
            lemma_cursor_grows(all, k + 1, k + own.len());
        },
        Term::UnuaryOp { op, body } => {
            assert(own.subrange(1, 1 + lexemes_of(*body).len() as int) =~= lexemes_of(*body));
            lemma_child(all, k, own, 1, lexemes_of(*body));
            lemma_parse_tokens(all, k + 1, *body);
            lemma_cursor_grows(all, k + 1, k + own.len());
        },
        Term::Apply { f, value } => {
            let a = lexemes_of(*f);
            let b = lexemes_of(*value);
            lemma_heads(*f);
            lemma_heads(*value);
            assert(own =~= seq![Lexeme::Apply] + a + b);
            assert(own.subrange(1, 1 + a.len() as int) =~= a);
            assert(own.subrange(1 + a.len() as int, 1 + a.len() as int + b.len() as int) =~= b);
            lemma_child(all, k, own, 1, a);
            lemma_child(all, k, own, 1 + a.len() as int, b);
            lemma_parse_tokens(all, k + 1, *f);
            lemma_parse_tokens(all, k + 1 + a.len(), *value);
            lemma_cursor_grows(all, k + 1, k + 1 + a.len());
            lemma_cursor_grows(all, k + 1 + a.len(), k + own.len());
        },
        Term::BinaryOp { op, left, right } => {
            let a = lexemes_of(*left);
            let b = lexemes_of(*right);
            lemma_heads(*left);
            lemma_heads(*right);
            assert(own =~= seq![binary_token(op)] + a + b);
            assert(own.subrange(1, 1 + a.len() as int) =~= a);
            assert(own.subrange(1 + a.len() as int, 1 + a.len() as int + b.len() as int) =~= b);
            lemma_child(all, k, own, 1, a);
            lemma_child(all, k, own, 1 + a.len() as int, b);
            lemma_parse_tokens(all, k + 1, *left);
            lemma_parse_tokens(all, k + 1 + a.len(), *right);
            lemma_cursor_grows(all, k + 1, k + 1 + a.len());
            lemma_cursor_grows(all, k + 1 + a.len(), k + own.len());
        },
        Term::If { cond, then_do, else_do } => {
            let a = lexemes_of(*cond);
            let b = lexemes_of(*then_do);
            let c = lexemes_of(*else_do);
            lemma_heads(*cond);
            lemma_heads(*then_do);
            lemma_heads(*else_do);
            assert(own =~= seq![Lexeme::If] + a + b + c);
            assert(own.subrange(1, 1 + a.len() as int) =~= a);
            assert(own.subrange(1 + a.len() as int, 1 + a.len() as int + b.len() as int) =~= b);
            assert(own.subrange(1 + a.len() as int + b.len() as int, 1 + a.len() as int + b.len() as int + c.len() as int) =~= c);
            lemma_child(all, k, own, 1, a);
            lemma_child(all, k, own, 1 + a.len() as int, b);
            lemma_child(all, k, own, 1 + a.len() as int + b.len() as int, c);
            lemma_parse_tokens(all, k + 1, *cond);
            lemma_parse_tokens(all, k + 1 + a.len(), *then_do);
            lemma_parse_tokens(all, k + 1 + a.len() + b.len(), *else_do);
            lemma_cursor_grows(all, k + 1, k + 1 + a.len());
            lemma_cursor_grows(all, k + 1 + a.len(), k + 1 + a.len() + b.len());
            lemma_cursor_grows(all, k + 1 + a.len() + b.len(), k + own.len());
        },
    }
}

/// The tokens of a child stand among all the tokens where they stand among
/// the tokens of its parent.
pub proof fn lemma_child(
    all: Seq<Lexeme>,
    k: int,
    own: Seq<Lexeme>,
    offset: int,
    child: Seq<Lexeme>,
)
    requires
        0 <= k,
        k + own.len() <= all.len(),
        all.subrange(k, k + own.len()) == own,
        0 <= offset,
        offset + child.len() <= own.len(),
        own.subrange(offset, offset + child.len()) == child,
    ensures
        all.subrange(k + offset, k + offset + child.len()) == child,
{
    assert forall|i: int| 0 <= i < child.len() implies all.subrange(
        k + offset,
        k + offset + child.len(),
    )[i] == child[i] by {
        assert(child[i] == own.subrange(offset, offset + child.len())[i]);
        assert(own[offset + i] == all.subrange(k, k + own.len())[offset + i]);
    }
    assert(all.subrange(k + offset, k + offset + child.len()) =~= child);
}

/// The cursors grow with the tokens, within the text.
pub proof fn lemma_cursor_grows(all: Seq<Lexeme>, i: int, j: int)
    requires
        all_writable(all),
        0 <= i <= j <= all.len(),
    ensures
        0 <= cursor(all, i) <= cursor(all, j) <= wire_of_lexemes(all).len(),
        i < j ==> cursor(all, i) < cursor(all, j),
    decreases j - i,
{
    if i < j {
        lemma_reads(all, j - 1);
        lemma_cursor_grows(all, i, j - 1);
    } else if i > 0 {
        lemma_reads(all, i - 1);
    }
}

/// The text of tokens is ASCII.
pub proof fn lemma_wire_is_ascii(tokens: Seq<Lexeme>)
    requires
        all_writable(tokens),
    ensures
        crate::text::is_ascii_bytes(wire_of_lexemes(tokens)),
    decreases tokens.len(),
{
    let bytes = wire_of_lexemes(tokens);
    if tokens.len() > 0 {
        let last = Token::wire(tokens.last());
        assert(Token::writable(tokens[tokens.len() - 1]));
        lemma_token_wire(tokens.last());
        if tokens.len() == 1 {
            assert forall|i: int| 0 <= i < bytes.len() implies #[trigger] bytes[i] < 128 by {
                assert(is_wire_byte(last[i]));
            }
        } else {
            let init = tokens.drop_last();
            assert(all_writable(init)) by {
                assert forall|i: int| 0 <= i < init.len() implies Token::writable(
                    #[trigger] init[i],
                ) by {
                    assert(init[i] == tokens[i]);
                }
            }
            lemma_wire_is_ascii(init);
            let front = wire_of_lexemes(init);
            assert forall|i: int| 0 <= i < bytes.len() implies #[trigger] bytes[i] < 128 by {
                if i < front.len() {
                    assert(bytes[i] == front[i]);
                } else if i > front.len() {
                    assert(bytes[i] == last[i - front.len() - 1]);
                    assert(is_wire_byte(last[i - front.len() - 1]));
                }
            }
        }
    }
}

/// The parser reads back what the serializer writes: the text of an
/// expression without an integer literal below zero, in which every text is
/// in the alphabet, parses to the expression, and to the end of the text.
/// This holds of the text as bytes, and of the text as a string.
pub proof fn lemma_parse_serialize(t: Term)
    requires
        writable(t),
        unsigned(t),
    ensures
        parse_term(wire_of_term(t), 0) == Ok::<(Term, int), ParsingError>(
            (t, wire_of_term(t).len() as int),
        ),
        vstd::utf8::encode_utf8(ascii_text(wire_of_term(t))) == wire_of_term(t),
{
    let all = lexemes_of(t);
    lemma_writable_tokens(t);
    assert(all.subrange(0, all.len() as int) =~= all);
    lemma_parse_tokens(all, 0, t);
    lemma_layout(all, all.len() - 1);
    lemma_wire_is_ascii(all);
    crate::text::lemma_ascii_round_trip(wire_of_term(t));
}

} // verus!
