//! The tokens of the wire syntax.
//!
//! A program is a sequence of fields separated by spaces. A field is a run of
//! wire bytes, and it is one token: its first byte selects the kind of token,
//! the rest is the token's payload.

use crate::base94::decode_u64;
use crate::base94::encode_u64;
use crate::base94::is_text;
use crate::base94::is_wire;
use crate::base94::is_wire_byte;
use crate::base94::text_bytes_to_wire;
use crate::base94::text_to_wire;
use crate::base94::wire_bytes_to_text;
use crate::base94::wire_to_text;
use crate::base94::wire_value;
use crate::bigint::BigInt;
use crate::icfp::base94::decode_big;
use crate::icfp::base94::encode_big;
use crate::icfp::base94::wire_of_number;
use crate::text::append_bytes;
use crate::text::ascii_bytes_of;
use crate::text::ascii_string;
use crate::text::ascii_text;
use crate::text::bytes_of;
use crate::text::slice_bytes;
use vstd::prelude::*;
use vstd::string::StringSliceAdditionalSpecFns;

verus! {

/// What a [`Token`] stands for.
pub enum Lexeme {
    True,
    False,
    Integer(int),
    String(Seq<char>),
    UnaryMinus,
    UnaryNot,
    StringToInt,
    IntToString,
    Add,
    Subtract,
    Multiply,
    Divide,
    Modulo,
    LessThan,
    GreaterThan,
    Equal,
    Or,
    And,
    StringConcat,
    Take,
    Drop,
    Apply,
    If,
    Lambda(u64),
    Variable(u64),
}

/// A token of the wire syntax.
#[derive(Debug, PartialEq, Eq)]
pub enum Token {
    True,
    False,
    Integer(BigInt),
    String(String),
    UnaryMinus,
    UnaryNot,
    StringToInt,
    IntToString,
    Add,
    Subtract,
    Multiply,
    Divide,
    Modulo,
    LessThan,
    GreaterThan,
    Equal,
    Or,
    And,
    StringConcat,
    Take,
    Drop,
    Apply,
    If,
    Lambda(u64),
    Variable(u64),
}

impl View for Token {
    type V = Lexeme;

    open spec fn view(&self) -> Lexeme {
        match self {
            Token::True => Lexeme::True,
            Token::False => Lexeme::False,
            Token::Integer(n) => Lexeme::Integer(n@),
            Token::String(s) => Lexeme::String(s@),
            Token::UnaryMinus => Lexeme::UnaryMinus,
            Token::UnaryNot => Lexeme::UnaryNot,
            Token::StringToInt => Lexeme::StringToInt,
            Token::IntToString => Lexeme::IntToString,
            Token::Add => Lexeme::Add,
            Token::Subtract => Lexeme::Subtract,
            Token::Multiply => Lexeme::Multiply,
            Token::Divide => Lexeme::Divide,
            Token::Modulo => Lexeme::Modulo,
            Token::LessThan => Lexeme::LessThan,
            Token::GreaterThan => Lexeme::GreaterThan,
            Token::Equal => Lexeme::Equal,
            Token::Or => Lexeme::Or,
            Token::And => Lexeme::And,
            Token::StringConcat => Lexeme::StringConcat,
            Token::Take => Lexeme::Take,
            Token::Drop => Lexeme::Drop,
            Token::Apply => Lexeme::Apply,
            Token::If => Lexeme::If,
            Token::Lambda(id) => Lexeme::Lambda(*id),
            Token::Variable(id) => Lexeme::Variable(*id),
        }
    }
}

/// A field that is no token, with the position of its first byte.
#[derive(Debug, Clone, Copy, PartialEq, Eq, Structural)]
pub enum LexError {
    Malformed(usize),
}

/// The operator that the payload of a `U` field names.
pub open spec fn unary_lexeme(payload: Seq<u8>) -> Option<Lexeme> {
    if payload.len() != 1 {
        None
    } else if payload[0] == 45 {
        Some(Lexeme::UnaryMinus)
    } else if payload[0] == 33 {
        Some(Lexeme::UnaryNot)
    } else if payload[0] == 35 {
        Some(Lexeme::StringToInt)
    } else if payload[0] == 36 {
        Some(Lexeme::IntToString)
    } else {
        None
    }
}

/// The operator that the payload of a `B` field names.
pub open spec fn binary_lexeme(payload: Seq<u8>) -> Option<Lexeme> {
    if payload.len() != 1 {
        None
    } else if payload[0] == 43 {
        Some(Lexeme::Add)
    } else if payload[0] == 45 {
        Some(Lexeme::Subtract)
    } else if payload[0] == 42 {
        Some(Lexeme::Multiply)
    } else if payload[0] == 47 {
        Some(Lexeme::Divide)
    } else if payload[0] == 37 {
        Some(Lexeme::Modulo)
    } else if payload[0] == 60 {
        Some(Lexeme::LessThan)
    } else if payload[0] == 62 {
        Some(Lexeme::GreaterThan)
    } else if payload[0] == 61 {
        Some(Lexeme::Equal)
    } else if payload[0] == 124 {
        Some(Lexeme::Or)
    } else if payload[0] == 38 {
        Some(Lexeme::And)
    } else if payload[0] == 46 {
        Some(Lexeme::StringConcat)
    } else if payload[0] == 84 {
        Some(Lexeme::Take)
    } else if payload[0] == 68 {
        Some(Lexeme::Drop)
    } else if payload[0] == 36 {
        Some(Lexeme::Apply)
    } else {
        None
    }
}

/// The token that a field of wire bytes is, or `None` when it is none:
/// `T`, `F` and `?` stand alone; `U` and `B` take one operator byte; `I`,
/// `L` and `v` take at least one digit, and the number of `L` and `v` fits in
/// 64 bits; `S` takes any payload.
#[verifier::opaque]
pub open spec fn lexeme_of(field: Seq<u8>) -> Option<Lexeme> {
    if field.len() == 0 {
        None
    } else {
        let payload = field.subrange(1, field.len() as int);
        if field[0] == 84 {
            if payload.len() == 0 {
                Some(Lexeme::True)
            } else {
                None
            }
        } else if field[0] == 70 {
            if payload.len() == 0 {
                Some(Lexeme::False)
            } else {
                None
            }
        } else if field[0] == 63 {
            if payload.len() == 0 {
                Some(Lexeme::If)
            } else {
                None
            }
        } else if field[0] == 73 {
            if payload.len() > 0 {
                Some(Lexeme::Integer(wire_value(payload) as int))
            } else {
                None
            }
        } else if field[0] == 83 {
            Some(Lexeme::String(ascii_text(wire_to_text(payload))))
        } else if field[0] == 85 {
            unary_lexeme(payload)
        } else if field[0] == 66 {
            binary_lexeme(payload)
        } else if field[0] == 76 {
            if payload.len() > 0 && wire_value(payload) <= u64::MAX {
                Some(Lexeme::Lambda(wire_value(payload) as u64))
            } else {
                None
            }
        } else if field[0] == 118 {
            if payload.len() > 0 && wire_value(payload) <= u64::MAX {
                Some(Lexeme::Variable(wire_value(payload) as u64))
            } else {
                None
            }
        } else {
            None
        }
    }
}

/// The first position at or after `pos` that holds no space.
pub open spec fn skip_spaces(bytes: Seq<u8>, pos: int) -> int
    decreases bytes.len() - pos,
{
    if 0 <= pos < bytes.len() && bytes[pos] == 32 {
        skip_spaces(bytes, pos + 1)
    } else {
        pos
    }
}

/// The first position at or after `pos` that holds no wire byte.
pub open spec fn field_end(bytes: Seq<u8>, pos: int) -> int
    decreases bytes.len() - pos,
{
    if 0 <= pos < bytes.len() && is_wire_byte(bytes[pos]) {
        field_end(bytes, pos + 1)
    } else {
        pos
    }
}

/// The next token at or after `pos`, and the position behind it: `None` at
/// the end of the input; a lexeme for a field that is a token; an error for a
/// field that is none, or for a byte that is neither a space nor of the wire.
#[verifier::opaque]
pub open spec fn next_lexeme(bytes: Seq<u8>, pos: int) -> Option<(Result<Lexeme, LexError>, int)> {
    let start = skip_spaces(bytes, pos);
    if start >= bytes.len() {
        None
    } else {
        let end = field_end(bytes, start);
        if end == start {
            Some((Err(LexError::Malformed(start as usize)), start + 1))
        } else {
            match lexeme_of(bytes.subrange(start, end)) {
                Some(lexeme) => Some((Ok(lexeme), end)),
                None => Some((Err(LexError::Malformed(start as usize)), end)),
            }
        }
    }
}

pub proof fn lemma_skip_spaces_bounds(bytes: Seq<u8>, pos: int)
    requires
        0 <= pos <= bytes.len(),
    ensures
        pos <= skip_spaces(bytes, pos) <= bytes.len(),
        skip_spaces(bytes, pos) < bytes.len() ==> bytes[skip_spaces(bytes, pos)] != 32,
    decreases bytes.len() - pos,
{
    if pos < bytes.len() && bytes[pos] == 32 {
        lemma_skip_spaces_bounds(bytes, pos + 1);
    }
}

pub proof fn lemma_field_end_bounds(bytes: Seq<u8>, pos: int)
    requires
        0 <= pos <= bytes.len(),
    ensures
        pos <= field_end(bytes, pos) <= bytes.len(),
        is_wire(bytes.subrange(pos, field_end(bytes, pos))),
        field_end(bytes, pos) < bytes.len() ==> !is_wire_byte(bytes[field_end(bytes, pos)]),
    decreases bytes.len() - pos,
{
    if pos < bytes.len() && is_wire_byte(bytes[pos]) {
        lemma_field_end_bounds(bytes, pos + 1);
        let end = field_end(bytes, pos);
        assert forall|i: int| 0 <= i < end - pos implies is_wire_byte(
            #[trigger] bytes.subrange(pos, end)[i],
        ) by {
            if i > 0 {
                assert(bytes.subrange(pos, end)[i] == bytes.subrange(pos + 1, end)[i - 1]);
            }
        }
    }
}

/// A token always ends behind the place where the search for it began.
pub proof fn lemma_next_lexeme_advances(bytes: Seq<u8>, pos: int)
    ensures
        next_lexeme(bytes, pos) matches Some((Ok(_), end)) ==> 0 <= pos < end <= bytes.len(),
{
    reveal(next_lexeme);
    if 0 <= pos <= bytes.len() {
        lemma_skip_spaces_bounds(bytes, pos);
        let start = skip_spaces(bytes, pos);
        if start < bytes.len() {
            lemma_field_end_bounds(bytes, start);
        }
    }
}

/// A reader of tokens from a text.
pub struct Lexer {
    bytes: Vec<u8>,
    position: usize,
}

impl Lexer {
    #[verifier::type_invariant]
    pub closed spec fn in_bounds(&self) -> bool {
        self.position <= self.bytes@.len()
    }

    /// The bytes of the text.
    pub closed spec fn source(&self) -> Seq<u8> {
        self.bytes@
    }

    /// The position that the reader has reached.
    pub closed spec fn offset(&self) -> int {
        self.position as int
    }

    /// The next token, or `None` at the end of the text.
    pub fn next(&mut self) -> (r: Option<Result<Token, LexError>>)
        ensures
            final(self).source() == old(self).source(),
            0 <= old(self).offset() <= final(self).offset() <= old(self).source().len(),
            match next_lexeme(old(self).source(), old(self).offset()) {
                None => r.is_none() && final(self).offset() == old(self).source().len(),
                Some((Ok(lexeme), end)) => r matches Some(Ok(token)) && token@ == lexeme
                    && final(self).offset() == end,
                Some((Err(e), end)) => r == Some(Err::<Token, LexError>(e))
                    && final(self).offset() == end,
            },
    {
        proof {
            reveal(next_lexeme);
            use_type_invariant(&*self);
            lemma_skip_spaces_bounds(self.bytes@, self.position as int);
        }
        let n = self.bytes.len();
        let mut start: usize = self.position;
        while start < n && self.bytes[start] == 32
            invariant
                start <= n,
                n == self.bytes@.len(),
                skip_spaces(self.bytes@, start as int) == skip_spaces(
                    old(self).bytes@,
                    old(self).position as int,
                ),
                self.bytes@ == old(self).bytes@,
                self.position == old(self).position,
            decreases n - start,
        {
            start += 1;
        }
        if start >= n {
            self.position = n;
            return None;
        }
        let mut end: usize = start;
        while end < n && 33 <= self.bytes[end] && self.bytes[end] <= 126
            invariant
                start <= end <= n,
                n == self.bytes@.len(),
                field_end(self.bytes@, end as int) == field_end(self.bytes@, start as int),
                self.bytes@ == old(self).bytes@,
            decreases n - end,
        {
            end += 1;
        }
        proof {
            lemma_field_end_bounds(self.bytes@, start as int);
        }
        if end == start {
            self.position = start + 1;
            return Some(Err(LexError::Malformed(start)));
        }
        let field = slice_bytes(&self.bytes, start, end);
        self.position = end;
        match token_of(&field) {
            Some(token) => Some(Ok(token)),
            None => Some(Err(LexError::Malformed(start))),
        }
    }

    /// All the tokens that are left, or the first error.
    pub fn collect(&mut self) -> (r: Result<Vec<Token>, LexError>)
        ensures
            final(self).source() == old(self).source(),
            match lexemes_from(old(self).source(), old(self).offset()) {
                Ok(all) => r.is_ok() && token_views(r.unwrap()@) == all,
                Err(e) => r == Err::<Vec<Token>, LexError>(e),
            },
    {
        let mut tokens: Vec<Token> = Vec::new();
        proof {
            assert(token_views(tokens@) =~= Seq::<Lexeme>::empty());
            let whole = lexemes_from(self.source(), self.offset());
            if whole.is_ok() {
                assert(Seq::<Lexeme>::empty() + whole.unwrap() =~= whole.unwrap());
            }
        }
        loop
            invariant
                self.source() == old(self).source(),
                lexemes_from(old(self).source(), old(self).offset()) == followed_by(
                    token_views(tokens@),
                    lexemes_from(self.source(), self.offset()),
                ),
            decreases self.source().len() - self.offset(),
        {
            proof {
                lemma_next_lexeme_advances(self.source(), self.offset());
            }
            let ghost before = token_views(tokens@);
            let ghost bytes = self.source();
            match self.next() {
                None => {
                    proof {
                        assert(before + Seq::<Lexeme>::empty() =~= before);
                    }
                    return Ok(tokens);
                },
                Some(Err(e)) => {
                    return Err(e);
                },
                Some(Ok(token)) => {
                    let ghost lexeme = token@;
                    tokens.push(token);
                    proof {
                        assert(token_views(tokens@) =~= before.push(lexeme));
                        let rest = lexemes_from(bytes, self.offset());
                        if rest.is_ok() {
                            assert(before + (seq![lexeme] + rest.unwrap()) =~= before.push(lexeme)
                                + rest.unwrap());
                        }
                    }
                },
            }
        }
    }
}

/// What tokens stand for.
pub open spec fn token_views(tokens: Seq<Token>) -> Seq<Lexeme> {
    Seq::new(tokens.len(), |i: int| tokens[i]@)
}

/// The tokens read so far, followed by the tokens still to read.
pub open spec fn followed_by(read: Seq<Lexeme>, rest: Result<Seq<Lexeme>, LexError>) -> Result<
    Seq<Lexeme>,
    LexError,
> {
    match rest {
        Ok(more) => Ok(read + more),
        Err(e) => Err(e),
    }
}

/// All the tokens from a position to the end of the text, or the first
/// error.
pub open spec fn lexemes_from(bytes: Seq<u8>, pos: int) -> Result<Seq<Lexeme>, LexError>
    decreases bytes.len() - pos,
{
    match next_lexeme(bytes, pos) {
        None => Ok(Seq::empty()),
        Some((Err(e), _)) => Err(e),
        Some((Ok(lexeme), end)) => if 0 <= pos < end <= bytes.len() {
            match lexemes_from(bytes, end) {
                Ok(rest) => Ok(seq![lexeme] + rest),
                Err(e) => Err(e),
            }
        } else {
            Ok(seq![lexeme])
        },
    }
}

impl Token {
    /// A reader of the tokens of a text.
    pub fn lexer(source: &str) -> (r: Lexer)
        ensures
            r.source() == source.spec_bytes(),
            r.offset() == 0,
    {
        Lexer { bytes: bytes_of(source), position: 0 }
    }

    /// The field that stands for the token: `encode` of its payload behind
    /// its first byte.
    pub open spec fn wire(lexeme: Lexeme) -> Seq<u8> {
        match lexeme {
            Lexeme::True => seq![84u8],
            Lexeme::False => seq![70u8],
            Lexeme::Integer(n) => seq![73u8] + wire_of_number(n as nat),
            Lexeme::String(s) => seq![83u8] + text_to_wire(crate::text::ascii_bytes(s)),
            Lexeme::UnaryMinus => seq![85u8, 45u8],
            Lexeme::UnaryNot => seq![85u8, 33u8],
            Lexeme::StringToInt => seq![85u8, 35u8],
            Lexeme::IntToString => seq![85u8, 36u8],
            Lexeme::Add => seq![66u8, 43u8],
            Lexeme::Subtract => seq![66u8, 45u8],
            Lexeme::Multiply => seq![66u8, 42u8],
            Lexeme::Divide => seq![66u8, 47u8],
            Lexeme::Modulo => seq![66u8, 37u8],
            Lexeme::LessThan => seq![66u8, 60u8],
            Lexeme::GreaterThan => seq![66u8, 62u8],
            Lexeme::Equal => seq![66u8, 61u8],
            Lexeme::Or => seq![66u8, 124u8],
            Lexeme::And => seq![66u8, 38u8],
            Lexeme::StringConcat => seq![66u8, 46u8],
            Lexeme::Take => seq![66u8, 84u8],
            Lexeme::Drop => seq![66u8, 68u8],
            Lexeme::Apply => seq![66u8, 36u8],
            Lexeme::If => seq![63u8],
            Lexeme::Lambda(id) => seq![76u8] + wire_of_number(id as nat),
            Lexeme::Variable(id) => seq![118u8] + wire_of_number(id as nat),
        }
    }

    /// A token can be written when its integer, if it has one, is not below
    /// zero, and its text, if it has one, is in the alphabet.
    pub open spec fn writable(lexeme: Lexeme) -> bool {
        match lexeme {
            Lexeme::Integer(n) => n >= 0,
            Lexeme::String(s) => vstd::utf8::is_ascii_chars(s) && is_text(
                crate::text::ascii_bytes(s),
            ),
            _ => true,
        }
    }

    /// Whether the token can be written.
    pub fn is_writable(&self) -> (r: bool)
        ensures
            r == Token::writable(self@),
    {
        match self {
            Token::Integer(n) => !n.is_negative(),
            Token::String(s) => {
                match ascii_bytes_of(s.as_str()) {
                    Some(text) => text_bytes_to_wire(&text).is_some(),
                    None => false,
                }
            },
            _ => true,
        }
    }

    /// The field that stands for the token.
    pub fn to_bytes(&self) -> (r: Vec<u8>)
        requires
            Token::writable(self@),
        ensures
            r@ == Token::wire(self@),
            is_wire(r@),
            r@.len() > 0,
    {
        let mut r: Vec<u8> = Vec::new();
        match self {
            Token::True => {
                r.push(84);
            },
            Token::False => {
                r.push(70);
            },
            Token::Integer(n) => {
                r.push(73);
                let payload = encode_big(n);
                append_bytes(&mut r, &payload);
            },
            Token::String(s) => {
                r.push(83);
                match ascii_bytes_of(s.as_str()) {
                    Some(text) => match text_bytes_to_wire(&text) {
                        Some(payload) => {
                            append_bytes(&mut r, &payload);
                        },
                        None => {},
                    },
                    None => {},
                }
            },
            Token::UnaryMinus => {
                r.push(85);
                r.push(45);
            },
            Token::UnaryNot => {
                r.push(85);
                r.push(33);
            },
            Token::StringToInt => {
                r.push(85);
                r.push(35);
            },
            Token::IntToString => {
                r.push(85);
                r.push(36);
            },
            Token::Add => {
                r.push(66);
                r.push(43);
            },
            Token::Subtract => {
                r.push(66);
                r.push(45);
            },
            Token::Multiply => {
                r.push(66);
                r.push(42);
            },
            Token::Divide => {
                r.push(66);
                r.push(47);
            },
            Token::Modulo => {
                r.push(66);
                r.push(37);
            },
            Token::LessThan => {
                r.push(66);
                r.push(60);
            },
            Token::GreaterThan => {
                r.push(66);
                r.push(62);
            },
            Token::Equal => {
                r.push(66);
                r.push(61);
            },
            Token::Or => {
                r.push(66);
                r.push(124);
            },
            Token::And => {
                r.push(66);
                r.push(38);
            },
            Token::StringConcat => {
                r.push(66);
                r.push(46);
            },
            Token::Take => {
                r.push(66);
                r.push(84);
            },
            Token::Drop => {
                r.push(66);
                r.push(68);
            },
            Token::Apply => {
                r.push(66);
                r.push(36);
            },
            Token::If => {
                r.push(63);
            },
            Token::Lambda(id) => {
                r.push(76);
                let payload = encode_id(*id);
                append_bytes(&mut r, &payload);
            },
            Token::Variable(id) => {
                r.push(118);
                let payload = encode_id(*id);
                append_bytes(&mut r, &payload);
            },
        }
        assert(r@ =~= Token::wire(self@));
        r
    }

    /// The field that stands for the token, as text.
    pub fn to_text(&self) -> (r: String)
        requires
            Token::writable(self@),
        ensures
            r@ == ascii_text(Token::wire(self@)),
    {
        let bytes = self.to_bytes();
        proof {
            assert forall|i: int| 0 <= i < bytes@.len() implies #[trigger] bytes@[i] < 128 by {
                assert(is_wire_byte(bytes@[i]));
            }
        }
        ascii_string(bytes)
    }
}

/// The digits of a variable's name: the shortest text that is not empty.
fn encode_id(id: u64) -> (r: Vec<u8>)
    ensures
        r@ == wire_of_number(id as nat),
        is_wire(r@),
{
    if id == 0 {
        let mut r: Vec<u8> = Vec::new();
        r.push(33);
        r
    } else {
        encode_u64(id)
    }
}

/// The token that a field is, or `None` when it is none.
pub fn token_of(field: &Vec<u8>) -> (r: Option<Token>)
    requires
        is_wire(field@),
    ensures
        match lexeme_of(field@) {
            Some(lexeme) => r.is_some() && r.unwrap()@ == lexeme,
            None => r.is_none(),
        },
{
    proof {
        reveal(lexeme_of);
    }
    let n = field.len();
    if n == 0 {
        return None;
    }
    let payload = slice_bytes(field, 1, n);
    proof {
        assert forall|i: int| 0 <= i < payload@.len() implies is_wire_byte(#[trigger] payload@[i]) by {
            assert(payload@[i] == field@[i + 1]);
        }
    }
    let first = field[0];
    if first == 84 {
        if n == 1 {
            Some(Token::True)
        } else {
            None
        }
    } else if first == 70 {
        if n == 1 {
            Some(Token::False)
        } else {
            None
        }
    } else if first == 63 {
        if n == 1 {
            Some(Token::If)
        } else {
            None
        }
    } else if first == 73 {
        if n > 1 {
            match decode_big(&payload) {
                Some(value) => Some(Token::Integer(value)),
                None => None,
            }
        } else {
            None
        }
    } else if first == 83 {
        let text = wire_bytes_to_text(&payload);
        Some(Token::String(ascii_string(text)))
    } else if first == 85 {
        if n != 2 {
            None
        } else if payload[0] == 45 {
            Some(Token::UnaryMinus)
        } else if payload[0] == 33 {
            Some(Token::UnaryNot)
        } else if payload[0] == 35 {
            Some(Token::StringToInt)
        } else if payload[0] == 36 {
            Some(Token::IntToString)
        } else {
            None
        }
    } else if first == 66 {
        if n != 2 {
            None
        } else if payload[0] == 43 {
            Some(Token::Add)
        } else if payload[0] == 45 {
            Some(Token::Subtract)
        } else if payload[0] == 42 {
            Some(Token::Multiply)
        } else if payload[0] == 47 {
            Some(Token::Divide)
        } else if payload[0] == 37 {
            Some(Token::Modulo)
        } else if payload[0] == 60 {
            Some(Token::LessThan)
        } else if payload[0] == 62 {
            Some(Token::GreaterThan)
        } else if payload[0] == 61 {
            Some(Token::Equal)
        } else if payload[0] == 124 {
            Some(Token::Or)
        } else if payload[0] == 38 {
            Some(Token::And)
        } else if payload[0] == 46 {
            Some(Token::StringConcat)
        } else if payload[0] == 84 {
            Some(Token::Take)
        } else if payload[0] == 68 {
            Some(Token::Drop)
        } else if payload[0] == 36 {
            Some(Token::Apply)
        } else {
            None
        }
    } else if first == 76 {
        if n > 1 {
            match decode_u64(&payload) {
                Some(id) => Some(Token::Lambda(id)),
                None => None,
            }
        } else {
            None
        }
    } else if first == 118 {
        if n > 1 {
            match decode_u64(&payload) {
                Some(id) => Some(Token::Variable(id)),
                None => None,
            }
        } else {
            None
        }
    } else {
        None
    }
}

} // verus!
